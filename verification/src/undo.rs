//! The undo/redo model: what happened, and how it is described. Actions record
//! the exact paths involved (after conflict resolution), so undo restores things
//! where they came from rather than guessing. Permanent deletes are never
//! recorded — they can't be reversed. Carrying out an undo is the caller's.
use vstd::prelude::*;

use crate::text;
use crate::window;

verus! {

broadcast use vstd::string::group_string_axioms;

/// A reversible thing the user did.
#[derive(Debug)]
pub enum Action {
    /// Entries moved, as (from, to).
    Move { pairs: Vec<(String, String)> },
    /// Entries copied, as (source, created copy).
    Copy { pairs: Vec<(String, String)> },
    Rename { from: String, to: String },
    NewFolder { path: String },
    /// Entries sent to Trash, by their original paths.
    Trash { originals: Vec<String> },
}

/// The short past-tense description of `a`.
pub open spec fn describe_spec(a: Action) -> Seq<char> {
    match a {
        Action::Move { pairs } => "move of "@ + window::count_text(pairs@.len()),
        Action::Copy { pairs } => "copy of "@ + window::count_text(pairs@.len()),
        Action::Rename { .. } => "rename"@,
        Action::NewFolder { .. } => "new folder"@,
        Action::Trash { originals } => "trashing of "@ + window::count_text(originals@.len()),
    }
}

/// "`n` item" or "`n` items".
pub fn count(n: usize) -> (s: String)
    ensures
        s@ == window::count_text(n as nat),
{
    let mut out: Vec<char> = Vec::new();
    window::push_count(&mut out, n as u64);
    text::string_of(&out)
}

impl Action {
    /// Short past-tense description, e.g. for "Undo — renamed 'x'".
    pub fn describe(&self) -> (s: String)
        ensures
            s@ == describe_spec(*self),
    {
        let mut out: Vec<char> = Vec::new();
        match self {
            Action::Move { pairs } => {
                text::extend_str(&mut out, "move of ");
                window::push_count(&mut out, pairs.len() as u64);
            },
            Action::Copy { pairs } => {
                text::extend_str(&mut out, "copy of ");
                window::push_count(&mut out, pairs.len() as u64);
            },
            Action::Rename { .. } => {
                text::extend_str(&mut out, "rename");
            },
            Action::NewFolder { .. } => {
                text::extend_str(&mut out, "new folder");
            },
            Action::Trash { originals } => {
                text::extend_str(&mut out, "trashing of ");
                window::push_count(&mut out, originals.len() as u64);
            },
        }
        assert(out@ =~= describe_spec(*self));
        text::string_of(&out)
    }
}

} // verus!
