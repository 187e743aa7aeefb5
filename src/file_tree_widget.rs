//! The text of each row of the tree view.
use vstd::prelude::*;
use crate::flat::is_dir;
use crate::tree::{FileObj, FileObjType};

verus! {

pub open spec fn spaces(n: nat) -> Seq<char> {
    Seq::new(n, |_i: int| ' ')
}

/// A row: three spaces per level, a marker on the selected row, the name,
/// and a slash after a directory.
pub open spec fn label_of(e: FileObj, selected: bool) -> Seq<char> {
    spaces(3 * e.depth as nat) + (if selected {
        seq!['>', ' ']
    } else {
        seq![' ', ' ']
    }) + seq![' '] + e.name@ + (if is_dir(e) {
        seq!['/']
    } else {
        Seq::empty()
    })
}

/// The row shown for `item`.
pub fn entry_label(item: &FileObj, selected: bool) -> (r: String)
    ensures
        r@ == label_of(*item, selected),
{
    let indent = "   ";
    let marker = "> ";
    let blank = "  ";
    let gap = " ";
    let slash = "/";
    proof {
        reveal_strlit("   ");
        reveal_strlit("> ");
        reveal_strlit("  ");
        reveal_strlit(" ");
        reveal_strlit("/");
    }
    let mut out = String::new();
    let mut i: usize = 0;
    while i < item.depth
        invariant
            i <= item.depth,
            indent@ == seq![' ', ' ', ' '],
            out@ == spaces(3 * i as nat),
        decreases item.depth - i,
    {
        out.append(indent);
        i += 1;
        assert(out@ =~= spaces(3 * i as nat));
    }
    if selected {
        out.append(marker);
    } else {
        out.append(blank);
    }
    out.append(gap);
    out.append(item.name.as_str());
    match item.object_type {
        FileObjType::File => {},
        FileObjType::Directory(_) => out.append(slash),
    }
    assert(out@ =~= label_of(*item, selected));
    out
}

/// The rows of the whole list, the one at `selected_idx` marked.
pub fn generate_list_items(list: &[FileObj], selected_idx: Option<usize>) -> (r: Vec<String>)
    ensures
        r@.len() == list@.len(),
        forall|j: int|
            0 <= j < list@.len() ==> #[trigger] r@[j]@ == label_of(
                list@[j],
                selected_idx == Some(j as usize),
            ),
{
    let mut items: Vec<String> = Vec::new();
    let mut pos: usize = 0;
    while pos < list.len()
        invariant
            pos <= list@.len(),
            items@.len() == pos,
            forall|j: int|
                0 <= j < pos ==> #[trigger] items@[j]@ == label_of(
                    list@[j],
                    selected_idx == Some(j as usize),
                ),
        decreases list.len() - pos,
    {
        let selected = match selected_idx {
            Some(idx) => idx == pos,
            None => false,
        };
        items.push(entry_label(&list[pos], selected));
        pos += 1;
    }
    items
}

} // verus!
