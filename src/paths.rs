//! Paths are held as text; what std's `Path` makes of them is named here.
use vstd::prelude::*;

verus! {

/// What `std::path::Path::parent` gives for a path.
pub uninterp spec fn parent_of(p: Seq<char>) -> Option<Seq<char>>;

/// What `std::path::Path::join` gives for a base path and a name.
pub uninterp spec fn joined(base: Seq<char>, name: Seq<char>) -> Seq<char>;

/// Relies on std::path::Path::parent: the path without its last component,
/// nothing for a root or an empty path. The parent of a path given as text
/// is a prefix of that text, so it converts back without loss.
#[verifier::external_body]
pub(crate) fn path_parent(p: &String) -> (r: Option<String>)
    ensures
        match r {
            Some(q) => parent_of(p@) == Some(q@),
            None => parent_of(p@) == None::<Seq<char>>,
        },
{
    match std::path::Path::new(p.as_str()).parent() {
        Some(q) => Some(q.to_string_lossy().into_owned()),
        None => None,
    }
}

/// Relies on std::path::Path::join: `name` appended to `base` as a new
/// component. Two paths given as text join into text.
#[verifier::external_body]
pub(crate) fn path_join(base: &String, name: &String) -> (r: String)
    ensures
        r@ == joined(base@, name@),
{
    std::path::Path::new(base.as_str()).join(name.as_str()).to_string_lossy().into_owned()
}

} // verus!
