//! A pending copy or move, and where pasting it puts the file.
use vstd::prelude::*;
use crate::flat::is_dir;
use crate::paths::{joined, parent_of, path_join, path_parent};
use crate::tree::{FileObj, FileObjType};

verus! {

/// A file picked up to be pasted elsewhere.
#[derive(Debug, Clone)]
pub enum AppAction {
    Copying(FileObj),
    Moving(FileObj),
    Idle,
}

/// The directory a paste onto `item` goes to: `item` itself when pasting
/// inside a directory, else the directory holding `item`.
pub open spec fn paste_dir(item: FileObj, inside: bool) -> Option<Seq<char>> {
    if inside && is_dir(item) {
        Some(item.path@)
    } else {
        parent_of(item.path@)
    }
}

impl AppAction {
    /// The path the picked-up file gets when pasted onto `item`; nothing when
    /// no file is picked up, or `item` has no parent to paste beside it in.
    pub fn paste_destination(&self, item: &FileObj, inside: bool) -> (r: Option<String>)
        ensures
            match *self {
                AppAction::Copying(f) | AppAction::Moving(f) => match paste_dir(*item, inside) {
                    Some(d) => r is Some && r->Some_0@ == joined(d, f.name@),
                    None => r is None,
                },
                AppAction::Idle => r is None,
            },
    {
        let file = match self {
            AppAction::Copying(f) => f,
            AppAction::Moving(f) => f,
            AppAction::Idle => return None,
        };
        let into_dir = match item.object_type {
            FileObjType::Directory(_) => inside,
            FileObjType::File => false,
        };
        let dir = if into_dir {
            item.path.clone()
        } else {
            match path_parent(&item.path) {
                Some(p) => p,
                None => return None,
            }
        };
        Some(path_join(&dir, &file.name))
    }
}

} // verus!
