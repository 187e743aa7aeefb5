use explorer::file_tree_state::FileTreeState;
use explorer::tree::{
    into_level, DirectoryStatus, FileObj, FileObjType, FileTree, NavDirection, TreeAction,
};

fn dir(name: &str, path: &str) -> FileObj {
    FileObj::new(
        FileObjType::Directory(DirectoryStatus::Collapsed),
        name.to_string(),
        0,
        path.to_string(),
    )
}

fn file(name: &str, path: &str) -> FileObj {
    FileObj::new(FileObjType::File, name.to_string(), 0, path.to_string())
}

/// (name, kind, depth, size) of each entry.
fn rows(t: &FileTree) -> Vec<(String, FileObjType, usize, usize)> {
    t.linear_list
        .iter()
        .map(|e| (e.name.clone(), e.object_type, e.depth, e.sub_items_size))
        .collect()
}

fn row(name: &str, kind: FileObjType, depth: usize, size: usize) -> (String, FileObjType, usize, usize) {
    (name.to_string(), kind, depth, size)
}

const OPEN: FileObjType = FileObjType::Directory(DirectoryStatus::Open);
const SHUT: FileObjType = FileObjType::Directory(DirectoryStatus::Collapsed);
const FILE: FileObjType = FileObjType::File;

/// Every open entry's block holds deeper entries only, and is followed by
/// an entry no deeper; every cursor index is in bounds and a directory.
fn check_invariants(t: &FileTree) {
    let l = &t.linear_list;
    for (i, e) in l.iter().enumerate() {
        let k = e.sub_items_size;
        if e.object_type != OPEN {
            assert_eq!(k, 0);
        }
        assert!(i + k < l.len());
        for m in i + 1..=i + k {
            assert!(l[m].depth > e.depth);
        }
        if i + k + 1 < l.len() {
            assert!(l[i + k + 1].depth <= e.depth);
        }
    }
    if !l.is_empty() {
        assert!(t.state.selected < l.len());
    }
    for &p in &t.state.parent_indices {
        assert!(p < l.len());
        assert!(matches!(l[p].object_type, FileObjType::Directory(_)));
    }
}

fn root_tree() -> FileTree {
    FileTree::new(
        "/p/root".to_string(),
        vec![dir("a", "/p/root/a"), file("b.txt", "/p/root/b.txt")],
    )
}

#[test]
fn new_tree_lists_root_at_depth_zero() {
    let t = root_tree();
    assert_eq!(rows(&t), vec![row("a", SHUT, 0, 0), row("b.txt", FILE, 0, 0)]);
    assert_eq!(t.state.selected, 0);
    assert!(t.state.parent_indices.is_empty());
    assert_eq!(t.root_path, "/p/root");
    check_invariants(&t);
}

#[test]
fn descend_into_collapsed_dir_expands_and_enters() {
    let mut t = root_tree();
    let action = t.ft_move(NavDirection::IntoDir);
    assert_eq!(action, TreeAction::GenerateChild(0));
    assert_eq!(t.action_path(&action), Some("/p/root/a".to_string()));
    assert!(t.handle_action(action, vec![file("c.txt", "/p/root/a/c.txt")]));
    assert_eq!(
        rows(&t),
        vec![row("a", OPEN, 0, 1), row("c.txt", FILE, 1, 0), row("b.txt", FILE, 0, 0)]
    );
    assert_eq!(t.state.selected, 1);
    assert_eq!(t.state.parent_indices, vec![0]);
    check_invariants(&t);
}

#[test]
fn ascend_pops_parent_stack() {
    let mut t = root_tree();
    let action = t.ft_move(NavDirection::IntoDir);
    t.handle_action(action, vec![file("c.txt", "/p/root/a/c.txt")]);
    assert_eq!(t.ft_move(NavDirection::OutOfDir), TreeAction::NoOp);
    assert_eq!(t.state.selected, 0);
    assert!(t.state.parent_indices.is_empty());
    check_invariants(&t);
}

#[test]
fn ascend_at_root_reroots_outward() {
    let mut t = root_tree();
    let action = t.ft_move(NavDirection::OutOfDir);
    assert_eq!(action, TreeAction::GenerateParent);
    assert_eq!(t.action_path(&action), Some("/p".to_string()));
    assert!(t.handle_action(action, vec![dir("root", "/p/root")]));
    assert_eq!(
        rows(&t),
        vec![row("root", OPEN, 0, 2), row("a", SHUT, 1, 0), row("b.txt", FILE, 1, 0)]
    );
    assert_eq!(t.root_path, "/p");
    assert_eq!(t.state.selected, 0);
    assert!(t.state.parent_indices.is_empty());
    check_invariants(&t);
}

#[test]
fn outward_reroot_selects_old_root_among_siblings() {
    let mut t = root_tree();
    let listing = vec![dir("other", "/p/other"), dir("root", "/p/root"), file("z", "/p/z")];
    assert!(t.reroot_outward(listing));
    assert_eq!(
        rows(&t),
        vec![
            row("other", SHUT, 0, 0),
            row("root", OPEN, 0, 2),
            row("a", SHUT, 1, 0),
            row("b.txt", FILE, 1, 0),
            row("z", FILE, 0, 0),
        ]
    );
    assert_eq!(t.state.selected, 1);
    check_invariants(&t);
}

#[test]
fn outward_reroot_without_old_root_changes_nothing() {
    let mut t = root_tree();
    assert!(!t.reroot_outward(vec![dir("other", "/p/other")]));
    assert_eq!(rows(&t), vec![row("a", SHUT, 0, 0), row("b.txt", FILE, 0, 0)]);
    assert_eq!(t.root_path, "/p/root");
}

#[test]
fn outward_reroot_with_nonempty_stack_changes_nothing() {
    let mut t = root_tree();
    let action = t.ft_move(NavDirection::IntoDir);
    t.handle_action(action, vec![file("c.txt", "/p/root/a/c.txt")]);
    assert!(!t.reroot_outward(vec![dir("root", "/p/root")]));
    assert_eq!(t.root_path, "/p/root");
    assert_eq!(t.state.parent_indices, vec![0]);
}

#[test]
fn filesystem_root_has_no_outward_target() {
    let t = FileTree::new("/".to_string(), vec![dir("etc", "/etc")]);
    assert_eq!(t.outward_path(), None);
    let rel = FileTree::new("rel".to_string(), vec![]);
    assert_eq!(rel.outward_path(), None);
    let mut t2 = FileTree::new("/".to_string(), vec![dir("etc", "/etc")]);
    assert!(!t2.handle_action(TreeAction::GenerateParent, vec![dir("x", "/x")]));
    assert_eq!(t2.root_path, "/");
}

#[test]
fn outward_then_inward_round_trip() {
    let mut t = root_tree();
    let action = t.ft_move(NavDirection::IntoDir);
    t.handle_action(action, vec![file("c.txt", "/p/root/a/c.txt")]);
    t.ft_move(NavDirection::OutOfDir);
    let before = rows(&t);
    assert!(t.reroot_outward(vec![dir("q", "/p/q"), dir("root", "/p/root")]));
    assert_eq!(t.state.selected, 1);
    assert_eq!(t.ft_move(NavDirection::IntoDir), TreeAction::NoOp);
    assert_eq!(t.state.parent_indices, vec![1]);
    assert_eq!(t.ft_move(NavDirection::ZoomIn), TreeAction::NoOp);
    assert_eq!(rows(&t), before);
    assert_eq!(t.root_path, "/p/root");
    assert_eq!(t.state.selected, 0);
    assert!(t.state.parent_indices.is_empty());
    check_invariants(&t);
}

#[test]
fn inward_reroot_keeps_deeper_frames() {
    // root: d0 { d1 { f } , g }, h
    let mut t = FileTree::new(
        "/r".to_string(),
        vec![dir("x", "/r/x"), dir("d0", "/r/d0"), file("h", "/r/h")],
    );
    t.ft_move(NavDirection::Down);
    assert_eq!(t.state.selected, 1);
    let a = t.ft_move(NavDirection::IntoDir);
    t.handle_action(a, vec![dir("d1", "/r/d0/d1"), file("g", "/r/d0/g")]);
    assert_eq!(t.state.selected, 2);
    let a = t.ft_move(NavDirection::IntoDir);
    t.handle_action(a, vec![file("f", "/r/d0/d1/f")]);
    assert_eq!(t.state.selected, 3);
    assert_eq!(t.state.parent_indices, vec![1, 2]);
    check_invariants(&t);
    assert!(t.reroot_inward());
    assert_eq!(t.root_path, "/r/d0");
    assert_eq!(
        rows(&t),
        vec![row("d1", OPEN, 0, 1), row("f", FILE, 1, 0), row("g", FILE, 0, 0)]
    );
    assert_eq!(t.state.parent_indices, vec![0]);
    assert_eq!(t.state.selected, 1);
    check_invariants(&t);
}

#[test]
fn inward_reroot_with_empty_stack_changes_nothing() {
    let mut t = root_tree();
    assert!(!t.reroot_inward());
    assert_eq!(t.root_path, "/p/root");
    assert_eq!(rows(&t), vec![row("a", SHUT, 0, 0), row("b.txt", FILE, 0, 0)]);
}

#[test]
fn sibling_moves_skip_open_blocks() {
    let mut t = root_tree();
    t.expand(0, vec![file("c", "/p/root/a/c"), file("d", "/p/root/a/d")]);
    assert_eq!(t.state.selected, 0);
    t.ft_move(NavDirection::Down);
    assert_eq!(t.state.selected, 3);
    t.ft_move(NavDirection::Up);
    assert_eq!(t.state.selected, 0);
    check_invariants(&t);
}

#[test]
fn sibling_move_at_scope_edges_is_noop() {
    let mut t = root_tree();
    t.ft_move(NavDirection::Up);
    assert_eq!(t.state.selected, 0);
    t.ft_move(NavDirection::Down);
    assert_eq!(t.state.selected, 1);
    t.ft_move(NavDirection::Down);
    assert_eq!(t.state.selected, 1);
    // inside a directory: last child does not leave it
    let mut t = root_tree();
    let a = t.ft_move(NavDirection::IntoDir);
    t.handle_action(a, vec![file("c", "/p/root/a/c"), file("d", "/p/root/a/d")]);
    assert_eq!(t.state.selected, 1);
    t.ft_move(NavDirection::Up);
    assert_eq!(t.state.selected, 1);
    t.ft_move(NavDirection::Down);
    assert_eq!(t.state.selected, 2);
    t.ft_move(NavDirection::Down);
    assert_eq!(t.state.selected, 2);
}

#[test]
fn expand_then_collapse_restores_entries() {
    let mut t = root_tree();
    let before = rows(&t);
    t.expand(0, vec![dir("e", "/p/root/a/e"), file("c", "/p/root/a/c")]);
    assert_eq!(rows(&t)[0], row("a", OPEN, 0, 2));
    t.collapse(0);
    assert_eq!(rows(&t), before);
    assert_eq!(t.linear_list[0].sub_items_size, 0);
}

#[test]
fn nested_expand_grows_and_collapse_shrinks_ancestors() {
    let mut t = root_tree();
    t.expand(0, vec![dir("e", "/p/root/a/e"), file("c", "/p/root/a/c")]);
    t.expand(1, vec![file("x", "/p/root/a/e/x"), file("y", "/p/root/a/e/y")]);
    assert_eq!(
        rows(&t),
        vec![
            row("a", OPEN, 0, 4),
            row("e", OPEN, 1, 2),
            row("x", FILE, 2, 0),
            row("y", FILE, 2, 0),
            row("c", FILE, 1, 0),
            row("b.txt", FILE, 0, 0),
        ]
    );
    check_invariants(&t);
    t.collapse(1);
    assert_eq!(
        rows(&t),
        vec![
            row("a", OPEN, 0, 2),
            row("e", SHUT, 1, 0),
            row("c", FILE, 1, 0),
            row("b.txt", FILE, 0, 0),
        ]
    );
    check_invariants(&t);
}

#[test]
fn expand_shifts_cursor_after_it() {
    let mut t = root_tree();
    t.ft_move(NavDirection::Down);
    assert_eq!(t.state.selected, 1);
    t.expand(0, vec![file("c", "/p/root/a/c"), file("d", "/p/root/a/d")]);
    assert_eq!(t.state.selected, 3);
    assert_eq!(t.linear_list[3].name, "b.txt");
}

#[test]
fn collapse_with_selection_inside_moves_it_to_dir() {
    let mut t = root_tree();
    let a = t.ft_move(NavDirection::IntoDir);
    t.handle_action(a, vec![dir("e", "/p/root/a/e")]);
    let a = t.ft_move(NavDirection::IntoDir);
    t.handle_action(a, vec![file("x", "/p/root/a/e/x")]);
    assert_eq!(t.state.selected, 2);
    assert_eq!(t.state.parent_indices, vec![0, 1]);
    t.collapse(0);
    assert_eq!(t.state.selected, 0);
    assert!(t.state.parent_indices.is_empty());
    assert_eq!(rows(&t), vec![row("a", SHUT, 0, 0), row("b.txt", FILE, 0, 0)]);
    check_invariants(&t);
}

#[test]
fn collapse_before_selection_shifts_it_back() {
    let mut t = root_tree();
    t.expand(0, vec![file("c", "/p/root/a/c")]);
    t.ft_move(NavDirection::Down);
    assert_eq!(t.state.selected, 2);
    t.collapse(0);
    assert_eq!(t.state.selected, 1);
    assert_eq!(t.linear_list[1].name, "b.txt");
}

#[test]
fn toggle_collapse_opens_and_closes() {
    let mut t = root_tree();
    let a = t.try_toggle_collapse();
    assert_eq!(a, TreeAction::ExpandDir(0));
    assert!(t.handle_action(a, vec![file("c", "/p/root/a/c")]));
    assert_eq!(t.state.selected, 0);
    assert!(t.state.parent_indices.is_empty());
    assert_eq!(rows(&t)[0], row("a", OPEN, 0, 1));
    assert_eq!(t.try_toggle_collapse(), TreeAction::NoOp);
    assert_eq!(rows(&t), vec![row("a", SHUT, 0, 0), row("b.txt", FILE, 0, 0)]);
    t.ft_move(NavDirection::Down);
    assert_eq!(t.try_toggle_collapse(), TreeAction::NoOp);
    assert_eq!(rows(&t), vec![row("a", SHUT, 0, 0), row("b.txt", FILE, 0, 0)]);
}

#[test]
fn descend_into_empty_dir_stays_put() {
    let mut t = root_tree();
    let a = t.ft_move(NavDirection::IntoDir);
    assert!(t.handle_action(a, vec![]));
    assert_eq!(rows(&t)[0], row("a", OPEN, 0, 0));
    assert_eq!(t.state.selected, 0);
    assert!(t.state.parent_indices.is_empty());
    assert_eq!(t.ft_move(NavDirection::IntoDir), TreeAction::NoOp);
    assert_eq!(t.state.selected, 0);
}

#[test]
fn descend_on_file_is_noop() {
    let mut t = root_tree();
    t.ft_move(NavDirection::Down);
    assert_eq!(t.ft_move(NavDirection::IntoDir), TreeAction::NoOp);
    assert_eq!(t.state.selected, 1);
}

#[test]
fn stale_actions_change_nothing() {
    let mut t = root_tree();
    assert!(!t.handle_action(TreeAction::GenerateChild(1), vec![file("c", "/c")]));
    assert!(!t.handle_action(TreeAction::ExpandDir(1), vec![file("c", "/c")]));
    assert!(!t.handle_action(TreeAction::ExpandDir(7), vec![file("c", "/c")]));
    assert!(!t.handle_action(TreeAction::NoOp, vec![]));
    assert_eq!(t.action_path(&TreeAction::ExpandDir(7)), None);
    assert_eq!(t.action_path(&TreeAction::NoOp), None);
    assert_eq!(rows(&t), vec![row("a", SHUT, 0, 0), row("b.txt", FILE, 0, 0)]);
}

#[test]
fn empty_tree_moves_are_noops() {
    let mut t = FileTree::new("/p/empty".to_string(), vec![]);
    assert_eq!(t.ft_move(NavDirection::Down), TreeAction::NoOp);
    assert_eq!(t.ft_move(NavDirection::Up), TreeAction::NoOp);
    assert_eq!(t.ft_move(NavDirection::IntoDir), TreeAction::NoOp);
    assert_eq!(t.try_toggle_collapse(), TreeAction::NoOp);
    assert_eq!(t.state.selected, 0);
    assert!(t.reroot_outward(vec![dir("empty", "/p/empty")]));
    assert_eq!(rows(&t), vec![row("empty", OPEN, 0, 0)]);
}

#[test]
fn into_level_normalises_listing() {
    let mut odd = FileObj::new(OPEN, "d".to_string(), 9, "/x/d".to_string());
    odd.sub_items_size = 4;
    let items = into_level(vec![odd, file("f", "/x/f")], 2);
    assert_eq!(items.len(), 2);
    assert_eq!(items[0].object_type, SHUT);
    assert_eq!(items[0].depth, 2);
    assert_eq!(items[0].sub_items_size, 0);
    assert_eq!(items[0].path, "/x/d");
    assert_eq!(items[1].object_type, FILE);
    assert_eq!(items[1].name, "f");
}

#[test]
fn selected_item_follows_cursor() {
    let mut t = root_tree();
    assert_eq!(t.get_selected_item().name, "a");
    t.ft_move(NavDirection::Down);
    assert_eq!(t.get_selected_item().path, "/p/root/b.txt");
}

#[test]
fn index_changed_reports_moves_once() {
    let mut s = FileTreeState::default();
    assert!(!s.index_changed());
    s.selected = 3;
    assert!(s.index_changed());
    assert_eq!(s.prev_idx, 3);
    assert!(!s.index_changed());
}
