//! Properties of the tree that hold across its operations.
use vstd::prelude::*;
use crate::flat::{
    block_ok, is_dir, is_open, kids_ok, lemma_depth_le_index, lemma_expand_collapse,
    lemma_reroot_round_trip, level_of,
};
use crate::tree::{
    collapse_step, collapsed_dir_at, expand_step, inward_step, outward_step, FileObj, FileTree,
};

verus! {

/// In a well-formed tree, which every operation keeps, the block of an open
/// directory holds only deeper entries, and the entry after the block is no
/// deeper than the directory.
pub proof fn lemma_contiguity(t: FileTree, i: int)
    requires
        t.wf(),
        0 <= i < t.linear_list@.len(),
        is_open(t.linear_list@[i]),
    ensures
        ({
            let list = t.linear_list@;
            let k = list[i].sub_items_size as int;
            &&& i + k < list.len()
            &&& forall|m: int| i < m <= i + k ==> #[trigger] list[m].depth > list[i].depth
            &&& i + k + 1 < list.len() ==> list[i + k + 1].depth <= list[i].depth
        }),
{
    assert(block_ok(t.linear_list@, i));
}

/// In a well-formed, non-empty tree, which every operation keeps, the
/// selection is in bounds and every frame of the stack is in bounds and is
/// a directory.
pub proof fn lemma_cursor_valid(t: FileTree)
    requires
        t.wf(),
        t.linear_list@.len() > 0,
    ensures
        t.state.selected < t.linear_list@.len(),
        forall|k: int|
            0 <= k < t.state.parent_indices@.len() ==> #[trigger] t.state.parent_indices@[k]
                < t.linear_list@.len() && is_dir(t.linear_list@[t.state.parent_indices@[k] as int]),
{
    let st = t.state.parent_indices@;
    assert forall|k: int| 0 <= k < st.len() implies #[trigger] st[k] < t.linear_list@.len()
        && is_dir(t.linear_list@[st[k] as int]) by {
        assert(st[k] < t.linear_list@.len() && is_open(t.linear_list@[st[k] as int]));
    }
}

/// Expanding a collapsed directory and collapsing it right away gives back
/// the entries as they were, the directory with an empty block.
pub proof fn lemma_expand_then_collapse(
    t0: FileTree,
    t1: FileTree,
    t2: FileTree,
    i: int,
    listing: Seq<FileObj>,
)
    requires
        t0.wf(),
        collapsed_dir_at(t0.linear_list@, i),
        expand_step(t0, t1, i, listing),
        collapse_step(t1, t2, i),
        t1.linear_list@.len() <= usize::MAX,
    ensures
        t2.linear_list@ == t0.linear_list@,
        t2.linear_list@[i].sub_items_size == 0,
{
    let list = t0.linear_list@;
    let kids = level_of(listing, list[i].depth + 1);
    lemma_depth_le_index(list, i);
    assert(kids_ok(kids, list[i].depth + 1));
    lemma_expand_collapse(list, i, kids);
}

/// Re-rooting outward and then inward at the entry that stood for the old
/// root gives back the old root and the old entries.
pub proof fn lemma_outward_then_inward(
    t0: FileTree,
    t1: FileTree,
    t2: FileTree,
    t3: FileTree,
    listing: Seq<FileObj>,
)
    requires
        t0.wf(),
        outward_step(t0, t1, listing, true),
        t1.linear_list@.len() <= usize::MAX,
        t2.linear_list@ == t1.linear_list@,
        t2.state.parent_indices@.len() > 0,
        t2.state.parent_indices@[0] == t1.state.selected,
        inward_step(t2, t3, true),
    ensures
        t3.linear_list@ == t0.linear_list@,
        t3.root_path@ == t0.root_path@,
{
    let lv = level_of(listing, 0);
    assert(kids_ok(lv, 0));
    lemma_reroot_round_trip(t0.linear_list@, lv, t1.state.selected as int);
}

} // verus!
