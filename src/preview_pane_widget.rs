//! What the preview pane shows of the selected file.
use vstd::prelude::*;

verus! {

/// `s` with every `from` replaced by `to`.
pub open spec fn replaced(s: Seq<char>, from: char, to: Seq<char>) -> Seq<char>
    decreases s.len(),
{
    if s.len() == 0 {
        Seq::empty()
    } else {
        replaced(s.drop_last(), from, to) + if s.last() == from {
            to
        } else {
            seq![s.last()]
        }
    }
}

/// Relies on str::replace: every occurrence of the pattern, here one
/// character, is replaced by `to`.
#[verifier::external_body]
fn replace_char(s: &str, from: char, to: &str) -> (r: String)
    ensures
        r@ == replaced(s@, from, to@),
{
    s.replace(from, to)
}

/// Text with each tab widened to four spaces.
pub fn expand_tabs(text: &str) -> (r: String)
    ensures
        r@ == replaced(text@, '\t', seq![' ', ' ', ' ', ' ']),
{
    let four = "    ";
    proof {
        reveal_strlit("    ");
        assert(four@ =~= seq![' ', ' ', ' ', ' ']);
    }
    replace_char(text, '\t', four)
}

/// The preview of the selected file: its text, or a note that there is none.
#[derive(Debug)]
pub struct PreviewPane {
    pub preview_contents: String,
    pub is_available: bool,
}

impl PreviewPane {
    /// Show what reading the selected file gave: its text, tabs widened, or,
    /// where it could not be read as text, nothing.
    pub fn set_contents(&mut self, read: Option<String>)
        ensures
            match read {
                Some(text) => {
                    &&& final(self).is_available
                    &&& final(self).preview_contents@ == replaced(
                        text@,
                        '\t',
                        seq![' ', ' ', ' ', ' '],
                    )
                },
                None => !final(self).is_available && final(self).preview_contents@.len() == 0,
            },
    {
        match read {
            Some(text) => {
                self.preview_contents = expand_tabs(text.as_str());
                self.is_available = true;
            },
            None => {
                self.preview_contents = String::new();
                self.is_available = false;
            },
        }
    }
}

impl Default for PreviewPane {
    fn default() -> (r: Self)
        ensures
            r.preview_contents@.len() == 0,
            !r.is_available,
    {
        PreviewPane { preview_contents: String::new(), is_available: false }
    }
}

} // verus!
