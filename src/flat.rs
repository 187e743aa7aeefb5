//! The mathematical model of the flattened tree: when a sequence of entries
//! is well formed, and what expanding or collapsing one entry makes of it.
use vstd::prelude::*;
use crate::tree::{DirectoryStatus, FileObj, FileObjType};

verus! {

pub open spec fn is_open(e: FileObj) -> bool {
    e.object_type == FileObjType::Directory(DirectoryStatus::Open)
}

pub open spec fn is_dir(e: FileObj) -> bool {
    e.object_type is Directory
}

/// `q` lies in the materialised block of `p`.
pub open spec fn in_block(list: Seq<FileObj>, p: int, q: int) -> bool {
    0 <= p < q <= p + list[p].sub_items_size
}

/// The block of the entry at `j` is contiguous: it lies in the sequence, it
/// holds only deeper entries, and the entry after it is no deeper than `j`.
/// Only an open directory has a non-empty block.
pub open spec fn block_ok(list: Seq<FileObj>, j: int) -> bool {
    let s = list[j].sub_items_size as int;
    &&& (!is_open(list[j]) ==> s == 0)
    &&& j + s < list.len()
    &&& forall|m: int| j < m <= j + s ==> #[trigger] list[m].depth > list[j].depth
    &&& j + s + 1 < list.len() ==> list[j + s + 1].depth <= list[j].depth
}

/// Going down one row goes at most one level deeper.
pub open spec fn step_ok(list: Seq<FileObj>, j: int) -> bool {
    list[j].depth <= list[j - 1].depth + 1
}

pub open spec fn list_wf(list: Seq<FileObj>) -> bool {
    &&& list.len() > 0 ==> list[0].depth == 0
    &&& forall|j: int| 0 < j < list.len() ==> #[trigger] step_ok(list, j)
    &&& forall|j: int| 0 <= j < list.len() ==> #[trigger] block_ok(list, j)
}

pub open spec fn with_size(e: FileObj, s: int) -> FileObj {
    FileObj { sub_items_size: s as usize, ..e }
}

pub open spec fn opened(e: FileObj, s: int) -> FileObj {
    FileObj {
        object_type: FileObjType::Directory(DirectoryStatus::Open),
        sub_items_size: s as usize,
        ..e
    }
}

pub open spec fn closed(e: FileObj) -> FileObj {
    FileObj {
        object_type: FileObjType::Directory(DirectoryStatus::Collapsed),
        sub_items_size: 0,
        ..e
    }
}

/// A listed child as it enters the tree: at depth `d`, with nothing below it,
/// a directory collapsed.
pub open spec fn leveled(e: FileObj, d: int) -> FileObj {
    FileObj {
        object_type: if is_dir(e) {
            FileObjType::Directory(DirectoryStatus::Collapsed)
        } else {
            FileObjType::File
        },
        sub_items_size: 0,
        depth: d as usize,
        ..e
    }
}

pub open spec fn level_of(items: Seq<FileObj>, d: int) -> Seq<FileObj> {
    items.map_values(|e: FileObj| leveled(e, d))
}

/// The entries up to `i`, where the block of each open entry holding `i`
/// grows by `k` (shrinks, for a negative `k`) and `i` itself becomes `last`.
pub open spec fn head_with(list: Seq<FileObj>, i: int, k: int, last: FileObj) -> Seq<FileObj> {
    Seq::new(
        (i + 1) as nat,
        |j: int|
            if j == i {
                last
            } else if is_open(list[j]) && in_block(list, j, i) {
                with_size(list[j], list[j].sub_items_size + k)
            } else {
                list[j]
            },
    )
}

/// `list` with `kids` materialised as the block of the entry at `i`.
pub open spec fn expanded(list: Seq<FileObj>, i: int, kids: Seq<FileObj>) -> Seq<FileObj> {
    head_with(list, i, kids.len() as int, opened(list[i], kids.len() as int)) + kids + list.subrange(
        i + 1,
        list.len() as int,
    )
}

/// `list` with the block of the entry at `i` removed.
pub open spec fn collapsed(list: Seq<FileObj>, i: int) -> Seq<FileObj> {
    let k = list[i].sub_items_size as int;
    head_with(list, i, -k, closed(list[i])) + list.subrange(i + 1 + k, list.len() as int)
}

/// Entries ready to be spliced in at depth `d`: nothing below them.
pub open spec fn kids_ok(kids: Seq<FileObj>, d: int) -> bool {
    forall|m: int|
        0 <= m < kids.len() ==> !is_open(#[trigger] kids[m]) && kids[m].sub_items_size == 0
            && kids[m].depth == d
}

pub proof fn lemma_depth_le_index(list: Seq<FileObj>, j: int)
    requires
        list_wf(list),
        0 <= j < list.len(),
    ensures
        list[j].depth <= j,
    decreases j,
{
    if j > 0 {
        assert(step_ok(list, j));
        lemma_depth_le_index(list, j - 1);
    }
}

/// A block inside the block of `j` ends no later than the block of `j`.
pub proof fn lemma_nested(list: Seq<FileObj>, j: int, i: int)
    requires
        list_wf(list),
        in_block(list, j, i),
        i < list.len(),
    ensures
        i + list[i].sub_items_size <= j + list[j].sub_items_size,
        list[i].depth > list[j].depth,
{
    assert(block_ok(list, j));
    assert(block_ok(list, i));
    let e = j + list[j].sub_items_size + 1;
    if i + list[i].sub_items_size > j + list[j].sub_items_size {
        assert(list[e].depth > list[i].depth);
    }
}

/// Where an index lands once `k` entries are spliced in after `i`.
pub open spec fn shift_in(x: int, i: int, k: int) -> int {
    if x > i {
        x + k
    } else {
        x
    }
}

/// Where an index outside the removed block `(i, i + k]` lands once that
/// block is gone.
pub open spec fn shift_out(x: int, i: int, k: int) -> int {
    if x > i + k {
        x - k
    } else {
        x
    }
}

pub proof fn lemma_expand_in_block(list: Seq<FileObj>, i: int, kids: Seq<FileObj>, a: int, b: int)
    requires
        list_wf(list),
        0 <= i < list.len(),
        !is_open(list[i]),
        in_block(list, a, b),
        b < list.len(),
        list.len() + kids.len() <= usize::MAX,
    ensures
        in_block(
            expanded(list, i, kids),
            shift_in(a, i, kids.len() as int),
            shift_in(b, i, kids.len() as int),
        ),
        is_open(list[a]) ==> is_open(expanded(list, i, kids)[shift_in(a, i, kids.len() as int)]),
{
    let k = kids.len() as int;
    let new = expanded(list, i, kids);
    assert(block_ok(list, a));
    assert(block_ok(list, i));
    if a < i {
        assert(new[a] == head_with(list, i, k, opened(list[i], k))[a]);
    } else {
        assert(new[a + k] == list[a]);
    }
}

pub proof fn lemma_collapse_in_block(list: Seq<FileObj>, i: int, a: int, b: int)
    requires
        list_wf(list),
        0 <= i < list.len(),
        is_open(list[i]),
        in_block(list, a, b),
        b < list.len(),
        !in_block(list, i, a),
        !in_block(list, i, b),
    ensures
        in_block(
            collapsed(list, i),
            shift_out(a, i, list[i].sub_items_size as int),
            shift_out(b, i, list[i].sub_items_size as int),
        ),
        is_open(list[a]) && a != i ==> is_open(
            collapsed(list, i)[shift_out(a, i, list[i].sub_items_size as int)],
        ),
{
    let k = list[i].sub_items_size as int;
    let new = collapsed(list, i);
    assert(block_ok(list, a));
    assert(block_ok(list, i));
    if a < i {
        assert(new[a] == head_with(list, i, -k, closed(list[i]))[a]);
        if in_block(list, a, i) {
            lemma_nested(list, a, i);
        }
    } else if a > i {
        assert(new[a - k] == list[a]);
    }
}

pub open spec fn deeper(e: FileObj) -> FileObj {
    FileObj { depth: (e.depth + 1) as usize, ..e }
}

pub open spec fn shallower(e: FileObj, c: int) -> FileObj {
    FileObj { depth: (e.depth - c) as usize, ..e }
}

/// The entries once the root's parent becomes the root: the parent's listing
/// `lv` at depth 0, with the old entries one level deeper as the block of
/// the old root, which stands at `r` in the listing.
pub open spec fn outward_entries(list: Seq<FileObj>, lv: Seq<FileObj>, r: int) -> Seq<FileObj> {
    lv.subrange(0, r) + seq![opened(lv[r], list.len() as int)] + list.map_values(
        |e: FileObj| deeper(e),
    ) + lv.subrange(r + 1, lv.len() as int)
}

/// The entries once the directory at `h` becomes the root: its block, one
/// level per ancestor shallower.
pub open spec fn inward_entries(list: Seq<FileObj>, h: int) -> Seq<FileObj> {
    list.subrange(h + 1, h + 1 + list[h].sub_items_size).map_values(
        |e: FileObj| shallower(e, list[h].depth + 1),
    )
}

pub proof fn lemma_outward_wf(list: Seq<FileObj>, lv: Seq<FileObj>, r: int)
    requires
        list_wf(list),
        0 <= r < lv.len(),
        kids_ok(lv, 0),
        lv.len() + list.len() <= usize::MAX,
    ensures
        list_wf(outward_entries(list, lv, r)),
        outward_entries(list, lv, r).len() == lv.len() + list.len(),
{
    let n = list.len() as int;
    let new = outward_entries(list, lv, r);
    assert(new.len() == lv.len() + n);
    assert forall|m: int| 0 <= m < n implies #[trigger] list[m].depth < usize::MAX by {
        lemma_depth_le_index(list, m);
    }
    assert forall|m: int| 0 <= m < new.len() implies #[trigger] new[m] == (if m < r {
        lv[m]
    } else if m == r {
        opened(lv[r], n)
    } else if m <= r + n {
        deeper(list[m - r - 1])
    } else {
        lv[m - n]
    }) by {}
    assert forall|j: int| 0 < j < new.len() implies #[trigger] step_ok(new, j) by {
        if r + 1 < j <= r + n {
            assert(step_ok(list, j - r - 1));
        }
    }
    assert forall|j: int| 0 <= j < new.len() implies #[trigger] block_ok(new, j) by {
        if j == r {
            assert forall|m: int| j < m <= j + n implies #[trigger] new[m].depth > new[j].depth by {}
        } else if r < j <= r + n {
            assert(block_ok(list, j - r - 1));
            let s = list[j - r - 1].sub_items_size as int;
            assert forall|m: int| j < m <= j + s implies #[trigger] new[m].depth > new[j].depth by {
                assert(list[m - r - 1].depth > list[j - r - 1].depth);
            }
        }
    }
}

pub proof fn lemma_inward_wf(list: Seq<FileObj>, h: int)
    requires
        list_wf(list),
        0 <= h < list.len(),
    ensures
        list_wf(inward_entries(list, h)),
        inward_entries(list, h).len() == list[h].sub_items_size,
        forall|p: int, q: int|
            h < p < list.len() && #[trigger] in_block(list, p, q) && q <= h + list[h].sub_items_size
                ==> in_block(inward_entries(list, h), p - h - 1, q - h - 1),
{
    let s = list[h].sub_items_size as int;
    let d = list[h].depth as int;
    let new = inward_entries(list, h);
    assert(block_ok(list, h));
    assert(new.len() == s);
    assert forall|m: int| 0 <= m < s implies #[trigger] new[m] == shallower(list[m + h + 1], d + 1)
        && list[m + h + 1].depth > d by {}
    if s > 0 {
        assert(step_ok(list, h + 1));
    }
    assert forall|j: int| 0 < j < new.len() implies #[trigger] step_ok(new, j) by {
        assert(step_ok(list, j + h + 1));
    }
    assert forall|j: int| 0 <= j < new.len() implies #[trigger] block_ok(new, j) by {
        assert(block_ok(list, j + h + 1));
        lemma_nested(list, h, j + h + 1);
        let sj = list[j + h + 1].sub_items_size as int;
        assert forall|m: int| j < m <= j + sj implies #[trigger] new[m].depth > new[j].depth by {
            assert(list[m + h + 1].depth > list[j + h + 1].depth);
        }
    }
    assert forall|p: int, q: int|
        h < p < list.len() && #[trigger] in_block(list, p, q) && q <= h + s implies in_block(
        new,
        p - h - 1,
        q - h - 1,
    ) by {
        assert(new[p - h - 1] == shallower(list[p], d + 1));
    }
}

/// Re-rooting at the parent and then back at the entry that stood for the
/// old root gives back the entries as they were.
pub proof fn lemma_reroot_round_trip(list: Seq<FileObj>, lv: Seq<FileObj>, r: int)
    requires
        list_wf(list),
        0 <= r < lv.len(),
        kids_ok(lv, 0),
        lv.len() + list.len() <= usize::MAX,
    ensures
        inward_entries(outward_entries(list, lv, r), r) == list,
{
    let n = list.len() as int;
    let mid = outward_entries(list, lv, r);
    let back = inward_entries(mid, r);
    lemma_outward_wf(list, lv, r);
    assert(mid[r] == opened(lv[r], n));
    assert(back.len() == n);
    assert forall|m: int| 0 <= m < n implies #[trigger] back[m] == list[m] by {
        lemma_depth_le_index(list, m);
        assert(mid[m + r + 1] == deeper(list[m]));
    }
    assert(back =~= list);
}

pub proof fn lemma_expand_wf(list: Seq<FileObj>, i: int, kids: Seq<FileObj>)
    requires
        list_wf(list),
        0 <= i < list.len(),
        is_dir(list[i]),
        !is_open(list[i]),
        kids_ok(kids, list[i].depth + 1),
        list.len() + kids.len() <= usize::MAX,
    ensures
        list_wf(expanded(list, i, kids)),
        expanded(list, i, kids).len() == list.len() + kids.len(),
{
    let k = kids.len() as int;
    let n = list.len() as int;
    let d = list[i].depth as int;
    let new = expanded(list, i, kids);
    assert(block_ok(list, i));
    assert(new.len() == n + k);
    assert forall|m: int| 0 <= m < n + k implies #[trigger] new[m].depth == (if m <= i {
        list[m].depth as int
    } else if m <= i + k {
        d + 1
    } else {
        list[m - k].depth as int
    }) && (i < m <= i + k ==> new[m] == kids[m - i - 1]) && (m > i + k ==> new[m] == list[m - k])
        && (m < i ==> new[m] == head_with(list, i, k, opened(list[i], k))[m]) by {}
    assert forall|j: int| 0 < j < new.len() implies #[trigger] step_ok(new, j) by {
        if j <= i {
            assert(step_ok(list, j));
        } else if j > i + k + 1 {
            assert(step_ok(list, j - k));
        } else if j == i + k + 1 && k > 0 {
            assert(block_ok(list, i));
        } else if j == i + k + 1 {
            assert(step_ok(list, j));
        }
    }
    assert forall|j: int| 0 <= j < new.len() implies #[trigger] block_ok(new, j) by {
        if j < i {
            assert(block_ok(list, j));
            if is_open(list[j]) && in_block(list, j, i) {
                lemma_nested(list, j, i);
                let s = list[j].sub_items_size as int;
                assert forall|m: int| j < m <= j + s + k implies #[trigger] new[m].depth
                    > new[j].depth by {
                    if m > i + k {
                        assert(list[m - k].depth > list[j].depth);
                    } else if m > i {
                        assert(list[i].depth > list[j].depth);
                    } else {
                        assert(list[m].depth > list[j].depth);
                    }
                }
                if j + s + k + 1 < new.len() {
                    assert(new[j + s + k + 1] == list[j + s + 1]);
                }
            } else {
                let s = list[j].sub_items_size as int;
                assert(j + s < i || s == 0);
                assert forall|m: int| j < m <= j + s implies #[trigger] new[m].depth
                    > new[j].depth by {
                    assert(list[m].depth > list[j].depth);
                }
            }
        } else if j == i {
            assert forall|m: int| j < m <= j + k implies #[trigger] new[m].depth > new[j].depth by {
            }
        } else if j <= i + k {
            if j + 1 < new.len() && j + 1 > i + k {
                assert(new[j + 1] == list[i + 1]);
            }
        } else {
            assert(block_ok(list, j - k));
            let s = list[j - k].sub_items_size as int;
            assert forall|m: int| j < m <= j + s implies #[trigger] new[m].depth > new[j].depth by {
                assert(list[m - k].depth > list[j - k].depth);
            }
        }
    }
}

pub proof fn lemma_collapse_wf(list: Seq<FileObj>, i: int)
    requires
        list_wf(list),
        0 <= i < list.len(),
        is_open(list[i]),
    ensures
        list_wf(collapsed(list, i)),
        collapsed(list, i).len() == list.len() - list[i].sub_items_size,
{
    let k = list[i].sub_items_size as int;
    let n = list.len() as int;
    let new = collapsed(list, i);
    assert(block_ok(list, i));
    assert(new.len() == n - k);
    assert forall|m: int| 0 <= m < n - k implies #[trigger] new[m].depth == (if m <= i {
        list[m].depth as int
    } else {
        list[m + k].depth as int
    }) && (m > i ==> new[m] == list[m + k]) && (m < i ==> new[m] == head_with(
        list,
        i,
        -k,
        closed(list[i]),
    )[m]) by {}
    assert forall|j: int| 0 < j < new.len() implies #[trigger] step_ok(new, j) by {
        if j <= i {
            assert(step_ok(list, j));
        } else if j > i + 1 {
            assert(step_ok(list, j + k));
        }
    }
    assert forall|j: int| 0 <= j < new.len() implies #[trigger] block_ok(new, j) by {
        if j < i {
            assert(block_ok(list, j));
            let s = list[j].sub_items_size as int;
            if is_open(list[j]) && in_block(list, j, i) {
                lemma_nested(list, j, i);
                assert forall|m: int| j < m <= j + s - k implies #[trigger] new[m].depth
                    > new[j].depth by {
                    if m > i {
                        assert(list[m + k].depth > list[j].depth);
                    } else {
                        assert(list[m].depth > list[j].depth);
                    }
                }
                if j + s - k + 1 < new.len() {
                    assert(new[j + s - k + 1] == list[j + s + 1]);
                }
            } else {
                assert(j + s < i || s == 0);
                assert forall|m: int| j < m <= j + s implies #[trigger] new[m].depth
                    > new[j].depth by {
                    assert(list[m].depth > list[j].depth);
                }
            }
        } else if j > i {
            assert(block_ok(list, j + k));
            let s = list[j + k].sub_items_size as int;
            assert forall|m: int| j < m <= j + s implies #[trigger] new[m].depth > new[j].depth by {
                assert(list[m + k].depth > list[j + k].depth);
            }
        }
    }
}

/// Expanding a collapsed directory and collapsing it again gives back the
/// sequence as it was.
pub proof fn lemma_expand_collapse(list: Seq<FileObj>, i: int, kids: Seq<FileObj>)
    requires
        list_wf(list),
        0 <= i < list.len(),
        list[i].object_type == FileObjType::Directory(DirectoryStatus::Collapsed),
        kids_ok(kids, list[i].depth + 1),
        list.len() + kids.len() <= usize::MAX,
    ensures
        collapsed(expanded(list, i, kids), i) == list,
        collapsed(expanded(list, i, kids), i)[i].sub_items_size == 0,
{
    let k = kids.len() as int;
    let mid = expanded(list, i, kids);
    let back = collapsed(mid, i);
    assert(block_ok(list, i));
    assert(mid[i].sub_items_size == k);
    assert(back.len() == list.len());
    assert forall|j: int| 0 <= j < list.len() implies #[trigger] back[j] == list[j] by {
        if j < i {
            assert(block_ok(list, j));
            assert(mid[j] == head_with(list, i, k, opened(list[i], k))[j]);
            if is_open(list[j]) && in_block(list, j, i) {
                assert(in_block(mid, j, i));
            } else {
                assert(!(is_open(mid[j]) && in_block(mid, j, i)));
            }
        } else if j > i {
            assert(back[j] == mid[j + k]);
        }
    }
    assert(back =~= list);
}

} // verus!
