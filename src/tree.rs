//! The flattened directory tree: its entries, the operations that expand,
//! collapse and re-root it, and the moves of its cursor.
use vstd::prelude::*;
use crate::file_tree_state::{
    chain_ok, cursor_wf, lemma_frames_hold, moved_down, moved_up, parent_dir_step, sub_dir_step,
    FileTreeState,
};
use crate::paths::{parent_of, path_parent};
use crate::flat::{
    block_ok, closed, collapsed, deeper, expanded, head_with, in_block, inward_entries, is_open,
    kids_ok, lemma_collapse_in_block, lemma_collapse_wf, lemma_depth_le_index,
    lemma_expand_in_block, lemma_expand_wf, lemma_inward_wf, lemma_nested, lemma_outward_wf,
    level_of, leveled, list_wf, opened, outward_entries, shallower, shift_in, shift_out, step_ok,
};

verus! {

/// An action to take after a tree operation: the ones other than `NoOp`
/// ask the caller for the listing of a directory.
#[derive(Debug, PartialEq, Eq, Structural, Clone, Copy)]
pub enum TreeAction {
    NoOp,
    /// The root's parent must be listed, to re-root outward.
    GenerateParent,
    /// The directory at this index must be listed, expanded and entered.
    GenerateChild(usize),
    /// The first directory descended through becomes the root.
    ShiftIntoChild,
    /// The directory at this index must be listed and expanded, staying put.
    ExpandDir(usize),
}

/// File tree navigational directions
#[derive(Debug, PartialEq, Eq, Structural, Clone, Copy)]
pub enum NavDirection {
    Up,
    Down,
    IntoDir,
    OutOfDir,
    ZoomIn,
}

#[derive(Debug, PartialEq, Eq, Structural, Clone, Copy)]
pub enum DirectoryStatus {
    Collapsed,
    Open,
}

#[derive(Debug, PartialEq, Eq, Structural, Clone, Copy)]
pub enum FileObjType {
    File,
    Directory(DirectoryStatus),
}

/// One row of the flattened tree.
#[derive(Debug, Clone)]
pub struct FileObj {
    /// Number of entries right after this one that are its materialised descendants.
    pub sub_items_size: usize,
    pub object_type: FileObjType,
    pub name: String,
    pub depth: usize,
    pub path: String,
}

impl FileObj {
    pub fn new(obj_type: FileObjType, name: String, depth: usize, path: String) -> (r: Self)
        ensures
            r.sub_items_size == 0,
            r.object_type == obj_type,
            r.name == name,
            r.depth == depth,
            r.path == path,
    {
        FileObj { sub_items_size: 0, object_type: obj_type, name, depth, path }
    }
}

/// Turn a directory listing into entries at `depth`: nothing below them, and
/// each directory collapsed.
pub fn into_level(listing: Vec<FileObj>, depth: usize) -> (r: Vec<FileObj>)
    ensures
        r@ == level_of(listing@, depth as int),
{
    let ghost orig = listing@;
    let mut items = listing;
    let mut j: usize = 0;
    while j < items.len()
        invariant
            j <= items@.len(),
            items@.len() == orig.len(),
            forall|m: int| 0 <= m < j ==> #[trigger] items@[m] == leveled(orig[m], depth as int),
            forall|m: int| j <= m < items@.len() ==> #[trigger] items@[m] == orig[m],
        decreases items.len() - j,
    {
        let kind = match items[j].object_type {
            FileObjType::File => FileObjType::File,
            FileObjType::Directory(_) => FileObjType::Directory(DirectoryStatus::Collapsed),
        };
        items[j].object_type = kind;
        items[j].sub_items_size = 0;
        items[j].depth = depth;
        j += 1;
    }
    assert(items@ =~= level_of(orig, depth as int));
    items
}

/// The directory that re-rooting outward makes the root: the parent of
/// `root`, where it has one that is not empty.
pub open spec fn outward_target(root: Seq<char>) -> Option<Seq<char>> {
    match parent_of(root) {
        Some(q) => if q.len() > 0 {
            Some(q)
        } else {
            None
        },
        None => None,
    }
}

/// `j` is the first of `items` with the given path.
pub open spec fn first_with_path(items: Seq<FileObj>, path: Seq<char>, j: int) -> bool {
    &&& 0 <= j < items.len()
    &&& items[j].path@ == path
    &&& forall|m: int| 0 <= m < j ==> #[trigger] items[m].path@ != path
}

/// Every later frame lies in the block of the oldest one.
pub proof fn lemma_first_frame_holds(list: Seq<FileObj>, sel: int, stack: Seq<usize>, m: int)
    requires
        list_wf(list),
        cursor_wf(list, sel, stack),
        0 < m < stack.len(),
    ensures
        in_block(list, stack[0] as int, stack[m] as int),
    decreases m,
{
    assert(chain_ok(list, stack, m));
    if m > 1 {
        lemma_first_frame_holds(list, sel, stack, m - 1);
        assert(stack[m - 1] < list.len());
        lemma_nested(list, stack[0] as int, stack[m - 1] as int);
    }
}

/// What `expand` does at `i` with the listing of that directory.
pub open spec fn expand_step(t0: FileTree, t1: FileTree, i: int, listing: Seq<FileObj>) -> bool {
    let k = listing.len() as int;
    &&& t1.linear_list@ == expanded(
        t0.linear_list@,
        i,
        level_of(listing, t0.linear_list@[i].depth + 1),
    )
    &&& t1.state.selected == shift_in(t0.state.selected as int, i, k)
    &&& t1.state.parent_indices@ == t0.state.parent_indices@.map_values(
        |p: usize| shift_in(p as int, i, k) as usize,
    )
    &&& t1.state.prev_idx == t0.state.prev_idx
    &&& t1.root_path == t0.root_path
}

/// What `collapse` does at `i`.
pub open spec fn collapse_step(t0: FileTree, t1: FileTree, i: int) -> bool {
    &&& t1.linear_list@ == collapsed(t0.linear_list@, i)
    &&& (({
        let k = t0.linear_list@[i].sub_items_size as int;
        let sel = t0.state.selected as int;
        let st = t0.state.parent_indices@;
        let st2 = t1.state.parent_indices@;
        if in_block(t0.linear_list@, i, sel) {
            &&& t1.state.selected == i
            &&& st2 == st.subrange(0, st2.len() as int)
            &&& forall|m: int| 0 <= m < st2.len() ==> #[trigger] st[m] < i
            &&& st2.len() < st.len() ==> st[st2.len() as int] >= i
        } else {
            &&& t1.state.selected == shift_out(sel, i, k)
            &&& st2 == st.map_values(|p: usize| shift_out(p as int, i, k) as usize)
        }
    }))
    &&& t1.state.prev_idx == t0.state.prev_idx
    &&& t1.root_path == t0.root_path
}

/// What `reroot_outward` does with the listing of the root's parent, and
/// whether it happened.
pub open spec fn outward_step(t0: FileTree, t1: FileTree, listing: Seq<FileObj>, r: bool) -> bool {
    &&& r == (t0.state.parent_indices@.len() == 0 && outward_target(t0.root_path@) is Some
        && exists|j: int| 0 <= j < listing.len() && #[trigger] listing[j].path@ == t0.root_path@)
    &&& (r ==> {
        &&& first_with_path(listing, t0.root_path@, t1.state.selected as int)
        &&& t1.linear_list@ == outward_entries(
            t0.linear_list@,
            level_of(listing, 0),
            t1.state.selected as int,
        )
        &&& outward_target(t0.root_path@) == Some(t1.root_path@)
        &&& t1.state.parent_indices@.len() == 0
    })
    &&& (!r ==> t1 == t0)
    &&& t1.state.prev_idx == t0.state.prev_idx
}

/// What `reroot_inward` does, and whether it happened.
pub open spec fn inward_step(t0: FileTree, t1: FileTree, r: bool) -> bool {
    &&& r == (t0.state.parent_indices@.len() > 0)
    &&& (r ==> {
        let h = t0.state.parent_indices@[0] as int;
        &&& t1.linear_list@ == inward_entries(t0.linear_list@, h)
        &&& t1.root_path == t0.linear_list@[h].path
        &&& t1.state.selected == t0.state.selected - h - 1
        &&& t1.state.parent_indices@ == t0.state.parent_indices@.drop_first().map_values(
            |p: usize| (p - h - 1) as usize,
        )
    })
    &&& (!r ==> t1 == t0)
    &&& t1.state.prev_idx == t0.state.prev_idx
}

/// What handling `GenerateChild(i)` does once the listing of the selected
/// directory `i` came: it is expanded and, if it has entries, entered.
pub open spec fn descend_step(t0: FileTree, t1: FileTree, i: int, listing: Seq<FileObj>) -> bool {
    &&& t1.linear_list@ == expanded(
        t0.linear_list@,
        i,
        level_of(listing, t0.linear_list@[i].depth + 1),
    )
    &&& listing.len() > 0 ==> {
        &&& t1.state.selected == i + 1
        &&& t1.state.parent_indices@ == t0.state.parent_indices@.push(i as usize)
    }
    &&& listing.len() == 0 ==> {
        &&& t1.state.selected == i
        &&& t1.state.parent_indices@ == t0.state.parent_indices@
    }
    &&& t1.state.prev_idx == t0.state.prev_idx
    &&& t1.root_path == t0.root_path
}

/// The entry at `i` is a collapsed directory.
pub open spec fn collapsed_dir_at(list: Seq<FileObj>, i: int) -> bool {
    0 <= i < list.len() && list[i].object_type == FileObjType::Directory(DirectoryStatus::Collapsed)
}

/// A move that leaves the list and the root as they are.
pub open spec fn list_kept(t0: FileTree, t1: FileTree) -> bool {
    t1.linear_list@ == t0.linear_list@ && t1.root_path == t0.root_path
}

/// A directory tree shown as one flat list, with the user's cursor.
#[derive(Debug)]
pub struct FileTree {
    pub state: FileTreeState,
    pub linear_list: Vec<FileObj>,
    pub root_path: String,
}

impl FileTree {
    pub open spec fn wf(&self) -> bool {
        &&& list_wf(self.linear_list@)
        &&& self.state.wf(self.linear_list@)
    }

    /// A tree rooted at `root_path`, showing the given listing of it, with the
    /// first entry selected.
    pub fn new(root_path: String, listing: Vec<FileObj>) -> (r: Self)
        ensures
            r.wf(),
            r.linear_list@ == level_of(listing@, 0),
            r.root_path == root_path,
            r.state.selected == 0,
            r.state.parent_indices@.len() == 0,
            r.state.prev_idx == 0,
    {
        let list = into_level(listing, 0);
        let tree = FileTree { state: FileTreeState::default(), linear_list: list, root_path };
        proof {
            let l = tree.linear_list@;
            assert forall|j: int| 0 < j < l.len() implies #[trigger] step_ok(l, j) by {}
            assert forall|j: int| 0 <= j < l.len() implies #[trigger] block_ok(l, j) by {
                if j + 1 < l.len() {
                    assert(l[j + 1].depth == 0);
                }
            }
        }
        tree
    }

    /// Materialise the listing of the collapsed directory at `i` as its block,
    /// one level deeper, and open it. The blocks that held `i` grow with it,
    /// and every stored index after `i` moves along.
    pub fn expand(&mut self, i: usize, listing: Vec<FileObj>)
        requires
            old(self).wf(),
            i < old(self).linear_list@.len(),
            old(self).linear_list@[i as int].object_type == FileObjType::Directory(
                DirectoryStatus::Collapsed,
            ),
        ensures
            final(self).wf(),
            expand_step(*old(self), *final(self), i as int, listing@),
    {
        let ghost old_list = self.linear_list@;
        let ghost old_stack = self.state.parent_indices@;
        let old_len = self.linear_list.len();
        let d = self.linear_list[i].depth;
        proof {
            lemma_depth_le_index(old_list, i as int);
            lemma_frames_hold(old_list, self.state.selected as int, old_stack);
        }
        let mut kids = into_level(listing, d + 1);
        let ghost kids_v = kids@;
        let k = kids.len();
        let mut tail = self.linear_list.split_off(i + 1);
        self.linear_list.append(&mut kids);
        self.linear_list.append(&mut tail);
        let n = self.linear_list.len();
        assert(n == old_list.len() + k);
        self.linear_list[i].object_type = FileObjType::Directory(DirectoryStatus::Open);
        self.linear_list[i].sub_items_size = k;
        let ghost target = expanded(old_list, i as int, kids_v);
        let mut j: usize = 0;
        while j < i
            invariant
                j <= i < old_list.len(),
                n == old_list.len() + k,
                kids_v.len() == k,
                list_wf(old_list),
                target == expanded(old_list, i as int, kids_v),
                self.linear_list@.len() == n,
                self.state == old(self).state,
                self.root_path == old(self).root_path,
                forall|m: int| 0 <= m < j ==> #[trigger] self.linear_list@[m] == target[m],
                forall|m: int| j <= m < i ==> #[trigger] self.linear_list@[m] == old_list[m],
                forall|m: int| i <= m < n ==> #[trigger] self.linear_list@[m] == target[m],
            decreases i - j,
        {
            proof {
                assert(block_ok(old_list, j as int));
                assert(target[j as int] == head_with(old_list, i as int, k as int, opened(old_list[i as int], k as int))[j as int]);
            }
            if self.linear_list[j].object_type == FileObjType::Directory(DirectoryStatus::Open)
                && j + self.linear_list[j].sub_items_size >= i {
                let s = self.linear_list[j].sub_items_size;
                self.linear_list[j].sub_items_size = s + k;
            }
            j += 1;
        }
        assert(self.linear_list@ =~= target);
        proof {
            lemma_expand_wf(old_list, i as int, kids_v);
        }
        if self.state.selected > i {
            self.state.selected = self.state.selected + k;
        }
        let mut q: usize = 0;
        while q < self.state.parent_indices.len()
            invariant
                q <= self.state.parent_indices@.len(),
                self.state.parent_indices@.len() == old_stack.len(),
                self.linear_list@ == target,
                self.state.selected == shift_in(old(self).state.selected as int, i as int, k as int),
                self.state.prev_idx == old(self).state.prev_idx,
                self.root_path == old(self).root_path,
                n == old_list.len() + k,
                forall|m: int| 0 <= m < old_stack.len() ==> #[trigger] old_stack[m] < old_list.len(),
                forall|m: int| 0 <= m < q ==> #[trigger] self.state.parent_indices@[m]
                    == shift_in(old_stack[m] as int, i as int, k as int),
                forall|m: int| q <= m < old_stack.len() ==> #[trigger] self.state.parent_indices@[m]
                    == old_stack[m],
            decreases old_stack.len() - q,
        {
            let p = self.state.parent_indices[q];
            if p > i {
                self.state.parent_indices[q] = p + k;
            }
            q += 1;
        }
        proof {
            let st = self.state.parent_indices@;
            let sel = old(self).state.selected as int;
            assert(st =~= old_stack.map_values(|p: usize| shift_in(p as int, i as int, k as int) as usize));
            assert(block_ok(old_list, i as int));
            assert forall|m: int| 0 <= m < st.len() implies #[trigger] st[m] < target.len()
                && is_open(target[st[m] as int]) by {
                assert(in_block(old_list, old_stack[m] as int, sel));
                lemma_expand_in_block(old_list, i as int, kids_v, old_stack[m] as int, sel);
            }
            assert forall|m: int| 0 < m < st.len() implies #[trigger] crate::file_tree_state::chain_ok(target, st, m) by {
                assert(crate::file_tree_state::chain_ok(old_list, old_stack, m));
                lemma_expand_in_block(old_list, i as int, kids_v, old_stack[m - 1] as int, old_stack[m] as int);
            }
            if st.len() > 0 {
                lemma_expand_in_block(old_list, i as int, kids_v, old_stack.last() as int, sel);
            }
        }
    }

    /// Remove the block of the open directory at `i` and collapse it. The
    /// blocks that held `i` shrink with it. A selection inside the removed
    /// block moves to `i`, and the frames from `i` up are popped; otherwise
    /// every stored index after the block moves back.
    pub fn collapse(&mut self, i: usize)
        requires
            old(self).wf(),
            i < old(self).linear_list@.len(),
            is_open(old(self).linear_list@[i as int]),
        ensures
            final(self).wf(),
            collapse_step(*old(self), *final(self), i as int),
    {
        let ghost old_list = self.linear_list@;
        let ghost old_stack = self.state.parent_indices@;
        let ghost sel0 = self.state.selected as int;
        let old_len = self.linear_list.len();
        let k = self.linear_list[i].sub_items_size;
        proof {
            assert(block_ok(old_list, i as int));
            lemma_frames_hold(old_list, sel0, old_stack);
        }
        let mut tail = self.linear_list.split_off(i + 1 + k);
        self.linear_list.truncate(i + 1);
        self.linear_list.append(&mut tail);
        self.linear_list[i].object_type = FileObjType::Directory(DirectoryStatus::Collapsed);
        self.linear_list[i].sub_items_size = 0;
        let ghost target = collapsed(old_list, i as int);
        let n = self.linear_list.len();
        let mut j: usize = 0;
        while j < i
            invariant
                j <= i < old_list.len(),
                n == old_list.len() - k,
                old_list.len() == old_len,
                i < n,
                k == old_list[i as int].sub_items_size,
                is_open(old_list[i as int]),
                list_wf(old_list),
                target == collapsed(old_list, i as int),
                self.linear_list@.len() == n,
                self.state == old(self).state,
                self.root_path == old(self).root_path,
                forall|m: int| 0 <= m < j ==> #[trigger] self.linear_list@[m] == target[m],
                forall|m: int| j <= m < i ==> #[trigger] self.linear_list@[m] == old_list[m],
                forall|m: int| i <= m < n ==> #[trigger] self.linear_list@[m] == target[m],
            decreases i - j,
        {
            proof {
                assert(block_ok(old_list, j as int));
                assert(target[j as int] == head_with(old_list, i as int, -k, closed(old_list[i as int]))[j as int]);
            }
            if self.linear_list[j].object_type == FileObjType::Directory(DirectoryStatus::Open)
                && j + self.linear_list[j].sub_items_size >= i {
                proof {
                    lemma_nested(old_list, j as int, i as int);
                }
                let s = self.linear_list[j].sub_items_size;
                self.linear_list[j].sub_items_size = s - k;
            }
            j += 1;
        }
        assert(self.linear_list@ =~= target);
        proof {
            lemma_collapse_wf(old_list, i as int);
        }
        let sel = self.state.selected;
        if sel > i && sel <= i + k {
            self.state.selected = i;
            let mut t: usize = 0;
            while t < self.state.parent_indices.len() && self.state.parent_indices[t] < i
                invariant
                    t <= old_stack.len(),
                    self.state.parent_indices@ == old_stack,
                    forall|m: int| 0 <= m < t ==> #[trigger] old_stack[m] < i,
                decreases old_stack.len() - t,
            {
                t += 1;
            }
            self.state.parent_indices.truncate(t);
            proof {
                let st = self.state.parent_indices@;
                assert forall|m: int| 0 <= m < st.len() implies #[trigger] st[m] < target.len()
                    && is_open(target[st[m] as int]) by {
                    assert(in_block(old_list, old_stack[m] as int, sel0));
                    lemma_collapse_in_block(old_list, i as int, old_stack[m] as int, i as int);
                    assert(target[st[m] as int] == head_with(old_list, i as int, -(k as int), closed(old_list[i as int]))[st[m] as int]);
                }
                assert forall|m: int| 0 < m < st.len() implies #[trigger] crate::file_tree_state::chain_ok(target, st, m) by {
                    assert(crate::file_tree_state::chain_ok(old_list, old_stack, m));
                    lemma_collapse_in_block(old_list, i as int, old_stack[m - 1] as int, old_stack[m] as int);
                }
                if st.len() > 0 {
                    let top = st.last() as int;
                    assert(in_block(old_list, top, sel0));
                    lemma_collapse_in_block(old_list, i as int, top, i as int);
                }
            }
        } else {
            if sel > i + k {
                self.state.selected = sel - k;
            }
            let mut q: usize = 0;
            while q < self.state.parent_indices.len()
                invariant
                    q <= self.state.parent_indices@.len(),
                    self.state.parent_indices@.len() == old_stack.len(),
                    i + k < old_list.len(),
                    old_list.len() == old_len,
                    self.linear_list@ == target,
                    self.state.selected == shift_out(sel0, i as int, k as int),
                    self.state.prev_idx == old(self).state.prev_idx,
                    self.root_path == old(self).root_path,
                    forall|m: int| 0 <= m < q ==> #[trigger] self.state.parent_indices@[m]
                        == shift_out(old_stack[m] as int, i as int, k as int),
                    forall|m: int| q <= m < old_stack.len() ==> #[trigger] self.state.parent_indices@[m]
                        == old_stack[m],
                decreases old_stack.len() - q,
            {
                let p = self.state.parent_indices[q];
                if p > i + k {
                    self.state.parent_indices[q] = p - k;
                }
                q += 1;
            }
            proof {
                let st = self.state.parent_indices@;
                assert(st =~= old_stack.map_values(|p: usize| shift_out(p as int, i as int, k as int) as usize));
                assert forall|m: int| 0 <= m < old_stack.len() implies !#[trigger] in_block(old_list, i as int, old_stack[m] as int) by {
                    assert(in_block(old_list, old_stack[m] as int, sel0));
                    assert(old_stack[m] < old_list.len());
                    if in_block(old_list, i as int, old_stack[m] as int) {
                        lemma_nested(old_list, i as int, old_stack[m] as int);
                    }
                }
                assert forall|m: int| 0 <= m < st.len() implies #[trigger] st[m] < target.len()
                    && is_open(target[st[m] as int]) by {
                    assert(!in_block(old_list, i as int, old_stack[m] as int));
                    lemma_collapse_in_block(old_list, i as int, old_stack[m] as int, sel0);
                }
                assert forall|m: int| 0 < m < st.len() implies #[trigger] crate::file_tree_state::chain_ok(target, st, m) by {
                    assert(crate::file_tree_state::chain_ok(old_list, old_stack, m));
                    assert(!in_block(old_list, i as int, old_stack[m - 1] as int));
                    assert(!in_block(old_list, i as int, old_stack[m] as int));
                    lemma_collapse_in_block(old_list, i as int, old_stack[m - 1] as int, old_stack[m] as int);
                }
                if st.len() > 0 {
                    assert(!in_block(old_list, i as int, old_stack[old_stack.len() - 1] as int));
                    lemma_collapse_in_block(old_list, i as int, old_stack.last() as int, sel0);
                }
            }
        }
    }

    /// The directory whose listing re-rooting outward needs: the root's
    /// parent, unless there is none or it is empty.
    pub fn outward_path(&self) -> (r: Option<String>)
        ensures
            match r {
                Some(q) => outward_target(self.root_path@) == Some(q@),
                None => outward_target(self.root_path@) == None::<Seq<char>>,
            },
    {
        match path_parent(&self.root_path) {
            Some(q) => if q.as_str().is_empty() {
                None
            } else {
                Some(q)
            },
            None => None,
        }
    }

    /// Make the root's parent the root, given the parent's listing: the old
    /// entries, one level deeper, become the block of the listed entry with
    /// the old root's path, which opens and is selected. Nothing changes, and
    /// `false` comes back, when the stack is not empty, the root has no
    /// parent, or the listing lacks the old root.
    pub fn reroot_outward(&mut self, listing: Vec<FileObj>) -> (r: bool)
        requires
            old(self).wf(),
        ensures
            final(self).wf(),
            outward_step(*old(self), *final(self), listing@, r),
    {
        if self.state.parent_indices.len() > 0 {
            return false;
        }
        let parent = match self.outward_path() {
            Some(p) => p,
            None => return false,
        };
        let ghost items = listing@;
        let mut lv = into_level(listing, 0);
        let mut r: usize = 0;
        while r < lv.len() && !(lv[r].path == self.root_path)
            invariant
                r <= lv@.len(),
                lv@ == level_of(items, 0),
                forall|m: int| 0 <= m < r ==> #[trigger] items[m].path@ != self.root_path@,
            decreases lv.len() - r,
        {
            r += 1;
        }
        if r == lv.len() {
            return false;
        }
        let ghost old_list = self.linear_list@;
        let n = self.linear_list.len();
        let mut j: usize = 0;
        while j < n
            invariant
                j <= n,
                n == old_list.len(),
                list_wf(old_list),
                self.linear_list@.len() == n,
                self.state == old(self).state,
                self.root_path == old(self).root_path,
                forall|m: int| 0 <= m < j ==> #[trigger] self.linear_list@[m] == deeper(old_list[m]),
                forall|m: int| j <= m < n ==> #[trigger] self.linear_list@[m] == old_list[m],
            decreases n - j,
        {
            proof {
                lemma_depth_le_index(old_list, j as int);
            }
            let dj = self.linear_list[j].depth;
            self.linear_list[j].depth = dj + 1;
            j += 1;
        }
        assert(self.linear_list@ =~= old_list.map_values(|e: FileObj| deeper(e)));
        let mut rest = lv.split_off(r + 1);
        lv[r].object_type = FileObjType::Directory(DirectoryStatus::Open);
        lv[r].sub_items_size = n;
        lv.append(&mut self.linear_list);
        lv.append(&mut rest);
        let total = lv.len();
        proof {
            let lvs = level_of(items, 0);
            assert(kids_ok(lvs, 0));
            assert(total == lvs.len() + old_list.len());
            lemma_outward_wf(old_list, lvs, r as int);
            assert(lv@ =~= outward_entries(old_list, lvs, r as int));
        }
        self.linear_list = lv;
        self.root_path = parent;
        self.state.selected = r;
        true
    }

    /// Make the oldest directory on the stack the root: its block, one level
    /// per ancestor shallower, becomes the whole list, it leaves the stack,
    /// and every stored index moves back past what was dropped before it.
    /// With an empty stack nothing changes, and `false` comes back.
    pub fn reroot_inward(&mut self) -> (r: bool)
        requires
            old(self).wf(),
        ensures
            final(self).wf(),
            inward_step(*old(self), *final(self), r),
    {
        if self.state.parent_indices.len() == 0 {
            return false;
        }
        let ghost old_list = self.linear_list@;
        let ghost old_stack = self.state.parent_indices@;
        let ghost sel0 = self.state.selected as int;
        let old_len = self.linear_list.len();
        let h = self.state.parent_indices[0];
        proof {
            assert(old_stack[0] < old_list.len());
            assert(block_ok(old_list, h as int));
            lemma_depth_le_index(old_list, h as int);
            lemma_frames_hold(old_list, sel0, old_stack);
            lemma_inward_wf(old_list, h as int);
        }
        let s = self.linear_list[h].sub_items_size;
        let d = self.linear_list[h].depth;
        let mut block = self.linear_list.split_off(h + 1);
        block.truncate(s);
        let head = self.linear_list.pop();
        let ghost target = inward_entries(old_list, h as int);
        proof {
            assert forall|m: int| 0 <= m < s implies #[trigger] target[m] == shallower(
                old_list[m + h + 1],
                d + 1,
            ) by {}
            assert forall|m: int| 0 < m < old_stack.len() implies #[trigger] old_stack[m] > h by {
                lemma_first_frame_holds(old_list, sel0, old_stack, m);
            }
            assert(in_block(old_list, h as int, sel0));
        }
        let mut j: usize = 0;
        while j < block.len()
            invariant
                j <= block@.len(),
                block@.len() == s,
                h + 1 + s <= old_list.len(),
                d == old_list[h as int].depth,
                target == inward_entries(old_list, h as int),
                target.len() == s,
                forall|m: int| 0 <= m < s ==> #[trigger] target[m] == shallower(
                    old_list[m + h + 1],
                    d + 1,
                ),
                forall|m: int| h < m <= h + s ==> #[trigger] old_list[m].depth > d,
                forall|m: int| 0 <= m < j ==> #[trigger] block@[m] == target[m],
                forall|m: int| j <= m < s ==> #[trigger] block@[m] == old_list[m + h + 1],
            decreases s - j,
        {
            let dj = block[j].depth;
            block[j].depth = dj - (d + 1);
            j += 1;
        }
        assert(block@ =~= target);
        self.linear_list = block;
        match head {
            Some(e) => {
                self.root_path = e.path;
            },
            None => {},
        }
        self.state.parent_indices.remove(0);
        let mut q: usize = 0;
        while q < self.state.parent_indices.len()
            invariant
                q <= self.state.parent_indices@.len(),
                self.state.parent_indices@.len() == old_stack.len() - 1,
                self.linear_list@ == target,
                self.root_path == old_list[h as int].path,
                self.state.selected == sel0,
                sel0 > h,
                self.state.prev_idx == old(self).state.prev_idx,
                forall|m: int| 0 < m < old_stack.len() ==> #[trigger] old_stack[m] > h,
                forall|m: int| 0 <= m < q ==> #[trigger] self.state.parent_indices@[m]
                    == old_stack[m + 1] - h - 1,
                forall|m: int| q <= m < old_stack.len() - 1 ==> #[trigger] self.state.parent_indices@[m]
                    == old_stack[m + 1],
            decreases old_stack.len() - 1 - q,
        {
            let p = self.state.parent_indices[q];
            self.state.parent_indices[q] = p - h - 1;
            q += 1;
        }
        self.state.selected = self.state.selected - h - 1;
        proof {
            let st = self.state.parent_indices@;
            let sel = self.state.selected as int;
            assert(st =~= old_stack.drop_first().map_values(|p: usize| (p - h - 1) as usize));
            assert forall|m: int| 0 <= m < st.len() implies #[trigger] st[m] < target.len()
                && is_open(target[st[m] as int]) by {
                lemma_first_frame_holds(old_list, sel0, old_stack, m + 1);
                assert(old_stack[m + 1] < old_list.len());
                assert(target[st[m] as int] == shallower(old_list[old_stack[m + 1] as int], d + 1));
            }
            assert forall|m: int| 0 < m < st.len() implies #[trigger] chain_ok(target, st, m) by {
                assert(chain_ok(old_list, old_stack, m + 1));
                lemma_first_frame_holds(old_list, sel0, old_stack, m + 1);
                assert(in_block(old_list, old_stack[m] as int, old_stack[m + 1] as int));
            }
            if st.len() > 0 {
                let top = old_stack[old_stack.len() - 1] as int;
                assert(in_block(old_list, top, sel0));
                assert(st.last() == top - h - 1);
            }
        }
        true
    }

    /// Open or close the selected directory. Closing happens at once; opening
    /// needs the directory's listing, which the returned action asks for.
    pub fn try_toggle_collapse(&mut self) -> (r: TreeAction)
        requires
            old(self).wf(),
        ensures
            final(self).wf(),
            ({
                let list = old(self).linear_list@;
                let s = old(self).state.selected as int;
                if list.len() == 0 || list[s].object_type == FileObjType::File {
                    r == TreeAction::NoOp && *final(self) == *old(self)
                } else if collapsed_dir_at(list, s) {
                    r == TreeAction::ExpandDir(s as usize) && *final(self) == *old(self)
                } else {
                    r == TreeAction::NoOp && collapse_step(*old(self), *final(self), s)
                }
            }),
    {
        let idx = self.state.selected;
        if idx >= self.linear_list.len() {
            return TreeAction::NoOp;
        }
        match self.linear_list[idx].object_type {
            FileObjType::File => TreeAction::NoOp,
            FileObjType::Directory(DirectoryStatus::Collapsed) => TreeAction::ExpandDir(idx),
            FileObjType::Directory(DirectoryStatus::Open) => {
                self.collapse(idx);
                TreeAction::NoOp
            },
        }
    }

    /// The selected entry.
    pub fn get_selected_item(&mut self) -> (r: &FileObj)
        requires
            old(self).wf(),
            old(self).linear_list@.len() > 0,
        ensures
            *r == old(self).linear_list@[old(self).state.selected as int],
            *final(self) == *old(self),
    {
        &self.linear_list[self.state.selected]
    }

    /// Move the cursor in `direction`. Moves that need a directory listing
    /// are not made: the returned action asks for it, to be handed to
    /// `handle_action`.
    pub fn ft_move(&mut self, direction: NavDirection) -> (r: TreeAction)
        requires
            old(self).wf(),
        ensures
            final(self).wf(),
            match direction {
                NavDirection::Up => {
                    &&& r == TreeAction::NoOp
                    &&& list_kept(*old(self), *final(self))
                    &&& moved_up(
                        old(self).linear_list@,
                        old(self).state.selected as int,
                        final(self).state.selected as int,
                    )
                    &&& final(self).state.parent_indices@ == old(self).state.parent_indices@
                    &&& final(self).state.prev_idx == old(self).state.prev_idx
                },
                NavDirection::Down => {
                    &&& r == TreeAction::NoOp
                    &&& list_kept(*old(self), *final(self))
                    &&& moved_down(
                        old(self).linear_list@,
                        old(self).state.selected as int,
                        final(self).state.selected as int,
                    )
                    &&& final(self).state.parent_indices@ == old(self).state.parent_indices@
                    &&& final(self).state.prev_idx == old(self).state.prev_idx
                },
                NavDirection::IntoDir => {
                    &&& list_kept(*old(self), *final(self))
                    &&& sub_dir_step(old(self).linear_list@, old(self).state, final(self).state, r)
                },
                NavDirection::OutOfDir => {
                    &&& list_kept(*old(self), *final(self))
                    &&& parent_dir_step(old(self).state, final(self).state, r)
                },
                NavDirection::ZoomIn => {
                    &&& r == TreeAction::NoOp
                    &&& inward_step(
                        *old(self),
                        *final(self),
                        old(self).state.parent_indices@.len() > 0,
                    )
                },
            },
    {
        match direction {
            NavDirection::Up => self.state.move_up(self.linear_list.as_slice()),
            NavDirection::Down => self.state.move_down(self.linear_list.as_slice()),
            NavDirection::IntoDir => self.state.move_sub_dir(self.linear_list.as_slice()),
            NavDirection::OutOfDir => self.state.move_parent_dir(self.linear_list.as_slice()),
            NavDirection::ZoomIn => {
                self.reroot_inward();
                TreeAction::NoOp
            },
        }
    }

    /// The directory whose listing `action` needs, if any.
    pub fn action_path(&self, action: &TreeAction) -> (r: Option<String>)
        ensures
            match *action {
                TreeAction::GenerateChild(i) | TreeAction::ExpandDir(i) => if i
                    < self.linear_list@.len() {
                    r is Some && r->Some_0@ == self.linear_list@[i as int].path@
                } else {
                    r is None
                },
                TreeAction::GenerateParent => match r {
                    Some(q) => outward_target(self.root_path@) == Some(q@),
                    None => outward_target(self.root_path@) == None::<Seq<char>>,
                },
                _ => r is None,
            },
    {
        match *action {
            TreeAction::GenerateChild(i) | TreeAction::ExpandDir(i) => {
                if i < self.linear_list.len() {
                    Some(self.linear_list[i].path.clone())
                } else {
                    None
                }
            },
            TreeAction::GenerateParent => self.outward_path(),
            _ => None,
        }
    }

    /// Carry out `action` with the listing of the directory it named; return
    /// whether anything changed. An action that no longer fits the tree
    /// changes nothing.
    pub fn handle_action(&mut self, action: TreeAction, listing: Vec<FileObj>) -> (r: bool)
        requires
            old(self).wf(),
        ensures
            final(self).wf(),
            match action {
                TreeAction::GenerateChild(i) => {
                    &&& r == (i == old(self).state.selected && collapsed_dir_at(
                        old(self).linear_list@,
                        i as int,
                    ))
                    &&& r ==> descend_step(*old(self), *final(self), i as int, listing@)
                    &&& !r ==> *final(self) == *old(self)
                },
                TreeAction::ExpandDir(i) => {
                    &&& r == collapsed_dir_at(old(self).linear_list@, i as int)
                    &&& r ==> expand_step(*old(self), *final(self), i as int, listing@)
                    &&& !r ==> *final(self) == *old(self)
                },
                TreeAction::GenerateParent => outward_step(*old(self), *final(self), listing@, r),
                TreeAction::ShiftIntoChild => inward_step(*old(self), *final(self), r),
                TreeAction::NoOp => !r && *final(self) == *old(self),
            },
    {
        match action {
            TreeAction::GenerateChild(i) => {
                if i != self.state.selected || i >= self.linear_list.len() {
                    return false;
                }
                match self.linear_list[i].object_type {
                    FileObjType::Directory(DirectoryStatus::Collapsed) => {},
                    _ => return false,
                }
                let ghost t0 = *self;
                let ghost items = listing@;
                proof {
                    lemma_frames_hold(t0.linear_list@, i as int, t0.state.parent_indices@);
                }
                self.expand(i, listing);
                proof {
                    let kids = level_of(items, t0.linear_list@[i as int].depth + 1);
                    assert(self.linear_list@[i as int] == head_with(
                        t0.linear_list@,
                        i as int,
                        kids.len() as int,
                        opened(t0.linear_list@[i as int], kids.len() as int),
                    )[i as int]);
                    let st = t0.state.parent_indices@;
                    assert forall|m: int| 0 <= m < st.len() implies #[trigger] st[m] < i by {
                        assert(in_block(t0.linear_list@, st[m] as int, i as int));
                    }
                    assert(self.state.parent_indices@ =~= st);
                }
                let ghost t1 = *self;
                let new_len = self.linear_list.len();
                assert(items.len() < new_len);
                self.state.move_sub_dir(self.linear_list.as_slice());
                proof {
                    if items.len() > 0 {
                        assert(t1.state.selected == i);
                        assert(t1.linear_list@[i as int].sub_items_size > 0);
                        assert(self.state.selected == i + 1);
                    }
                }
                true
            },
            TreeAction::ExpandDir(i) => {
                if i >= self.linear_list.len() {
                    return false;
                }
                match self.linear_list[i].object_type {
                    FileObjType::Directory(DirectoryStatus::Collapsed) => {
                        self.expand(i, listing);
                        true
                    },
                    _ => false,
                }
            },
            TreeAction::GenerateParent => self.reroot_outward(listing),
            TreeAction::ShiftIntoChild => self.reroot_inward(),
            TreeAction::NoOp => false,
        }
    }
}

} // verus!
