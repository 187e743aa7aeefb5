use explorer::app::AppAction;
use explorer::file_tree_widget::{entry_label, generate_list_items};
use explorer::preview_pane_widget::{expand_tabs, PreviewPane};
use explorer::tree::{DirectoryStatus, FileObj, FileObjType};

fn obj(kind: FileObjType, name: &str, depth: usize, path: &str) -> FileObj {
    FileObj::new(kind, name.to_string(), depth, path.to_string())
}

#[test]
fn labels_indent_mark_and_slash() {
    let d = obj(FileObjType::Directory(DirectoryStatus::Open), "src", 2, "/r/a/src");
    assert_eq!(entry_label(&d, true), "      >  src/");
    assert_eq!(entry_label(&d, false), "         src/");
    let f = obj(FileObjType::File, "main.rs", 0, "/r/main.rs");
    assert_eq!(entry_label(&f, false), "   main.rs");
}

#[test]
fn list_items_mark_only_selected() {
    let list = vec![
        obj(FileObjType::Directory(DirectoryStatus::Collapsed), "a", 0, "/r/a"),
        obj(FileObjType::File, "b", 0, "/r/b"),
    ];
    assert_eq!(generate_list_items(&list, Some(1)), vec!["   a/".to_string(), ">  b".to_string()]);
    assert_eq!(generate_list_items(&list, None), vec!["   a/".to_string(), "   b".to_string()]);
}

#[test]
fn tabs_become_four_spaces() {
    assert_eq!(expand_tabs("a\tb\t\tc"), "a    b        c");
    assert_eq!(expand_tabs(""), "");
    assert_eq!(expand_tabs("no tabs"), "no tabs");
}

#[test]
fn preview_shows_text_or_nothing() {
    let mut p = PreviewPane::default();
    assert!(!p.is_available);
    p.set_contents(Some("x\ty".to_string()));
    assert!(p.is_available);
    assert_eq!(p.preview_contents, "x    y");
    p.set_contents(None);
    assert!(!p.is_available);
    assert_eq!(p.preview_contents, "");
}

#[test]
fn paste_inside_directory_or_beside_file() {
    let picked = obj(FileObjType::File, "x.txt", 1, "/r/b/x.txt");
    let dir = obj(FileObjType::Directory(DirectoryStatus::Collapsed), "a", 0, "/r/a");
    let file = obj(FileObjType::File, "f", 0, "/r/f");
    let copy = AppAction::Copying(picked.clone());
    assert_eq!(copy.paste_destination(&dir, true), Some("/r/a/x.txt".to_string()));
    assert_eq!(copy.paste_destination(&dir, false), Some("/r/x.txt".to_string()));
    assert_eq!(copy.paste_destination(&file, true), Some("/r/x.txt".to_string()));
    let mv = AppAction::Moving(picked);
    assert_eq!(mv.paste_destination(&file, false), Some("/r/x.txt".to_string()));
    assert_eq!(AppAction::Idle.paste_destination(&file, false), None);
    let top = obj(FileObjType::File, "", 0, "/");
    assert_eq!(copy.paste_destination(&top, false), None);
}
