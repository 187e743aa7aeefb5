//! The selection cursor over the flattened tree and the stack of directories
//! descended through, with the moves that need no directory listing.
use vstd::prelude::*;
use crate::flat::{block_ok, in_block, is_open, lemma_nested, list_wf};
use crate::tree::{DirectoryStatus, FileObj, FileObjType, TreeAction};

verus! {

/// The `k`-th frame of the stack lies in the block of the frame below it.
pub open spec fn chain_ok(list: Seq<FileObj>, stack: Seq<usize>, k: int) -> bool {
    in_block(list, stack[k - 1] as int, stack[k] as int)
}

/// The selection is in bounds, every frame of the stack is an open directory,
/// each frame lies in the block of the one below it, and the selection lies
/// in the block of the top frame.
pub open spec fn cursor_wf(list: Seq<FileObj>, sel: int, stack: Seq<usize>) -> bool {
    &&& list.len() == 0 ==> sel == 0 && stack.len() == 0
    &&& list.len() > 0 ==> 0 <= sel < list.len()
    &&& forall|k: int|
        0 <= k < stack.len() ==> #[trigger] stack[k] < list.len() && is_open(list[stack[k] as int])
    &&& forall|k: int| 0 < k < stack.len() ==> #[trigger] chain_ok(list, stack, k)
    &&& stack.len() > 0 ==> in_block(list, stack.last() as int, sel)
}

/// `c` is the next entry after `s` at the same depth, with only deeper
/// entries in between.
pub open spec fn sibling_below(list: Seq<FileObj>, s: int, c: int) -> bool {
    &&& s < c < list.len()
    &&& list[c].depth == list[s].depth
    &&& forall|m: int| s < m < c ==> #[trigger] list[m].depth > list[s].depth
}

/// `c` is the previous entry before `s` at the same depth, with only deeper
/// entries in between.
pub open spec fn sibling_above(list: Seq<FileObj>, s: int, c: int) -> bool {
    &&& 0 <= c < s
    &&& list[c].depth == list[s].depth
    &&& forall|m: int| c < m < s ==> #[trigger] list[m].depth > list[s].depth
}

/// What a sibling move down does to the selection `s`: the next sibling if
/// there is one, else nothing.
pub open spec fn moved_down(list: Seq<FileObj>, s: int, t: int) -> bool {
    &&& (exists|c: int| sibling_below(list, s, c)) ==> sibling_below(list, s, t)
    &&& !(exists|c: int| sibling_below(list, s, c)) ==> t == s
}

/// What a sibling move up does to the selection `s`.
pub open spec fn moved_up(list: Seq<FileObj>, s: int, t: int) -> bool {
    &&& (exists|c: int| sibling_above(list, s, c)) ==> sibling_above(list, s, t)
    &&& !(exists|c: int| sibling_above(list, s, c)) ==> t == s
}

/// The block of every frame of the stack holds the selection.
pub proof fn lemma_frames_hold(list: Seq<FileObj>, sel: int, stack: Seq<usize>)
    requires
        list_wf(list),
        cursor_wf(list, sel, stack),
    ensures
        forall|k: int| 0 <= k < stack.len() ==> #[trigger] in_block(list, stack[k] as int, sel),
{
    assert forall|k: int| 0 <= k < stack.len() implies #[trigger] in_block(
        list,
        stack[k] as int,
        sel,
    ) by {
        lemma_frame_holds(list, sel, stack, k);
    }
}

proof fn lemma_frame_holds(list: Seq<FileObj>, sel: int, stack: Seq<usize>, k: int)
    requires
        list_wf(list),
        cursor_wf(list, sel, stack),
        0 <= k < stack.len(),
    ensures
        in_block(list, stack[k] as int, sel),
    decreases stack.len() - k,
{
    if k < stack.len() - 1 {
        lemma_frame_holds(list, sel, stack, k + 1);
        assert(chain_ok(list, stack, k + 1));
        assert(stack[k + 1] < list.len());
        lemma_nested(list, stack[k] as int, stack[k + 1] as int);
    }
}

/// What `move_sub_dir` does to the cursor `s0`, and what it asks for.
pub open spec fn sub_dir_step(
    list: Seq<FileObj>,
    s0: FileTreeState,
    s1: FileTreeState,
    r: TreeAction,
) -> bool {
    let s = s0.selected as int;
    &&& s1.prev_idx == s0.prev_idx
    &&& if list.len() == 0 || list[s].object_type == FileObjType::File {
        r == TreeAction::NoOp && s1 == s0
    } else if list[s].object_type == FileObjType::Directory(DirectoryStatus::Collapsed) {
        r == TreeAction::GenerateChild(s as usize) && s1 == s0
    } else if list[s].sub_items_size > 0 {
        &&& r == TreeAction::NoOp
        &&& s1.selected == s + 1
        &&& s1.parent_indices@ == s0.parent_indices@.push(s as usize)
    } else {
        r == TreeAction::NoOp && s1 == s0
    }
}

/// What `move_parent_dir` does to the cursor `s0`, and what it asks for.
pub open spec fn parent_dir_step(s0: FileTreeState, s1: FileTreeState, r: TreeAction) -> bool {
    &&& s1.prev_idx == s0.prev_idx
    &&& s0.parent_indices@.len() == 0 ==> {
        &&& r == TreeAction::GenerateParent
        &&& s1.selected == s0.selected
        &&& s1.parent_indices@.len() == 0
    }
    &&& s0.parent_indices@.len() > 0 ==> {
        &&& r == TreeAction::NoOp
        &&& s1.selected == s0.parent_indices@.last()
        &&& s1.parent_indices@ == s0.parent_indices@.drop_last()
    }
}

#[derive(Debug)]
pub struct FileTreeState {
    /// Index of the selected entry
    pub selected: usize,
    /// Indices of the directories descended through, oldest first
    pub parent_indices: Vec<usize>,
    /// Selection seen by the last call of `index_changed`
    pub prev_idx: usize,
}

impl FileTreeState {
    pub open spec fn wf(&self, list: Seq<FileObj>) -> bool {
        cursor_wf(list, self.selected as int, self.parent_indices@)
    }

    pub fn default() -> (r: Self)
        ensures
            r.selected == 0,
            r.parent_indices@ == Seq::<usize>::empty(),
            r.prev_idx == 0,
    {
        FileTreeState { selected: 0, parent_indices: Vec::new(), prev_idx: 0 }
    }

    /// Select the next sibling below, skipping the blocks of open directories;
    /// stay put at the end of the enclosing directory.
    pub fn move_down(&mut self, list: &[FileObj]) -> (r: TreeAction)
        requires
            list_wf(list@),
            old(self).wf(list@),
        ensures
            r == TreeAction::NoOp,
            final(self).wf(list@),
            moved_down(list@, old(self).selected as int, final(self).selected as int),
            final(self).parent_indices@ == old(self).parent_indices@,
            final(self).prev_idx == old(self).prev_idx,
    {
        let idx = self.selected;
        if idx >= list.len() {
            return TreeAction::NoOp;
        }
        let d = list[idx].depth;
        let mut count = idx + 1;
        while count < list.len()
            invariant
                idx < count <= list@.len(),
                idx == self.selected,
                *self == *old(self),
                list_wf(list@),
                self.wf(list@),
                d == list@[idx as int].depth,
                forall|m: int| idx < m < count ==> #[trigger] list@[m].depth > d,
            decreases list.len() - count,
        {
            if list[count].depth == d {
                proof {
                    self.lemma_sibling_below_stays(list@, count as int);
                }
                self.selected = count;
                return TreeAction::NoOp;
            } else if list[count].depth < d {
                proof {
                    assert forall|c: int| !sibling_below(list@, idx as int, c) by {
                        if sibling_below(list@, idx as int, c) && c > count {
                            assert(list@[count as int].depth > d);
                        }
                    }
                }
                return TreeAction::NoOp;
            }
            count += 1;
        }
        TreeAction::NoOp
    }

    proof fn lemma_sibling_below_stays(&self, list: Seq<FileObj>, c: int)
        requires
            list_wf(list),
            self.wf(list),
            sibling_below(list, self.selected as int, c),
        ensures
            cursor_wf(list, c, self.parent_indices@),
            forall|c2: int| #[trigger] sibling_below(list, self.selected as int, c2) ==> c2 == c,
    {
        let s = self.selected as int;
        let stack = self.parent_indices@;
        if stack.len() > 0 {
            let top = stack.last() as int;
            assert(stack[stack.len() - 1] < list.len());
            assert(block_ok(list, top));
            let e = top + list[top].sub_items_size + 1;
            if c >= e {
                assert(list[e].depth <= list[top].depth);
            }
        }
        assert forall|c2: int| #[trigger] sibling_below(list, s, c2) implies c2 == c by {
            if c2 < c {
                assert(list[c2].depth > list[s].depth);
            } else if c2 > c {
                assert(list[c].depth > list[s].depth);
            }
        }
    }

    /// Select the previous sibling above, skipping the blocks of open
    /// directories; stay put at the start of the enclosing directory.
    pub fn move_up(&mut self, list: &[FileObj]) -> (r: TreeAction)
        requires
            list_wf(list@),
            old(self).wf(list@),
        ensures
            r == TreeAction::NoOp,
            final(self).wf(list@),
            moved_up(list@, old(self).selected as int, final(self).selected as int),
            final(self).parent_indices@ == old(self).parent_indices@,
            final(self).prev_idx == old(self).prev_idx,
    {
        let idx = self.selected;
        if idx == 0 || idx >= list.len() {
            return TreeAction::NoOp;
        }
        let d = list[idx].depth;
        let mut count = idx;
        while count > 0
            invariant
                0 <= count <= idx < list@.len(),
                idx == self.selected,
                *self == *old(self),
                list_wf(list@),
                self.wf(list@),
                d == list@[idx as int].depth,
                forall|m: int| count <= m < idx ==> #[trigger] list@[m].depth > d,
            decreases count,
        {
            count -= 1;
            if list[count].depth == d {
                proof {
                    self.lemma_sibling_above_stays(list@, count as int);
                }
                self.selected = count;
                return TreeAction::NoOp;
            } else if list[count].depth < d {
                proof {
                    assert forall|c: int| !sibling_above(list@, idx as int, c) by {
                        if sibling_above(list@, idx as int, c) && c < count {
                            assert(list@[count as int].depth > d);
                        }
                    }
                }
                return TreeAction::NoOp;
            }
        }
        TreeAction::NoOp
    }

    proof fn lemma_sibling_above_stays(&self, list: Seq<FileObj>, c: int)
        requires
            list_wf(list),
            self.wf(list),
            sibling_above(list, self.selected as int, c),
        ensures
            cursor_wf(list, c, self.parent_indices@),
            forall|c2: int| #[trigger] sibling_above(list, self.selected as int, c2) ==> c2 == c,
    {
        let s = self.selected as int;
        let stack = self.parent_indices@;
        if stack.len() > 0 {
            let top = stack.last() as int;
            assert(stack[stack.len() - 1] < list.len());
            assert(block_ok(list, top));
            if c < top {
                assert(list[top].depth > list[s].depth);
            }
        }
        assert forall|c2: int| #[trigger] sibling_above(list, s, c2) implies c2 == c by {
            if c2 < c {
                assert(list[c].depth > list[s].depth);
            } else if c2 > c {
                assert(list[c2].depth > list[s].depth);
            }
        }
    }

    /// Enter the selected directory: an open one with entries is entered at
    /// its first child and pushed on the stack; a collapsed one must first be
    /// listed, which the returned action asks for.
    pub fn move_sub_dir(&mut self, list: &[FileObj]) -> (r: TreeAction)
        requires
            list_wf(list@),
            old(self).wf(list@),
        ensures
            final(self).wf(list@),
            sub_dir_step(list@, *old(self), *final(self), r),
    {
        let idx = self.selected;
        if idx >= list.len() {
            return TreeAction::NoOp;
        }
        match list[idx].object_type {
            FileObjType::File => TreeAction::NoOp,
            FileObjType::Directory(DirectoryStatus::Collapsed) => TreeAction::GenerateChild(idx),
            FileObjType::Directory(DirectoryStatus::Open) => {
                if list[idx].sub_items_size > 0 {
                    proof {
                        assert(block_ok(list@, idx as int));
                    }
                    self.selected = idx + 1;
                    self.parent_indices.push(idx);
                    proof {
                        let st = self.parent_indices@;
                        assert forall|k: int| 0 < k < st.len() implies #[trigger] chain_ok(
                            list@,
                            st,
                            k,
                        ) by {
                            if k < st.len() - 1 {
                                assert(chain_ok(list@, old(self).parent_indices@, k));
                            }
                        }
                    }
                }
                TreeAction::NoOp
            },
        }
    }

    /// Leave the current directory: select the directory on top of the stack
    /// and pop it; with an empty stack the root's parent must be listed, which
    /// the returned action asks for.
    pub fn move_parent_dir(&mut self, _list: &[FileObj]) -> (r: TreeAction)
        requires
            old(self).wf(_list@),
        ensures
            final(self).wf(_list@),
            parent_dir_step(*old(self), *final(self), r),
    {
        match self.parent_indices.pop() {
            Some(idx) => {
                self.selected = idx;
                proof {
                    let old_st = old(self).parent_indices@;
                    let st = self.parent_indices@;
                    assert(old_st[old_st.len() - 1] < _list@.len());
                    if st.len() > 0 {
                        assert(chain_ok(_list@, old_st, old_st.len() - 1));
                    }
                    assert forall|k: int| 0 < k < st.len() implies #[trigger] chain_ok(
                        _list@,
                        st,
                        k,
                    ) by {
                        assert(chain_ok(_list@, old_st, k));
                    }
                    assert forall|k: int| 0 <= k < st.len() implies #[trigger] st[k] < _list@.len()
                        && is_open(_list@[st[k] as int]) by {
                        assert(old_st[k] < _list@.len());
                    }
                }
                TreeAction::NoOp
            },
            None => TreeAction::GenerateParent,
        }
    }

    /// Whether the selection moved since the last call.
    pub fn index_changed(&mut self) -> (r: bool)
        ensures
            r == (old(self).selected != old(self).prev_idx),
            final(self).prev_idx == old(self).selected,
            final(self).selected == old(self).selected,
            final(self).parent_indices@ == old(self).parent_indices@,
    {
        let idx = self.selected;
        if idx != self.prev_idx {
            self.prev_idx = idx;
            true
        } else {
            false
        }
    }
}

} // verus!
