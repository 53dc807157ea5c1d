//! The logic of a simple, fast file manager: recognising and naming archives,
//! choosing collision-free destination names, reading and writing preferences
//! and bookmarks, reading the Trash, the decisions of the file-operation engine,
//! the undo history's descriptions, and the window's clipboard, history and
//! drag-and-drop rules.
use vstd::prelude::*;

pub mod archive;
pub mod bookmarks;
pub mod fileops;
pub mod ops;
pub mod preview;
pub mod settings;
pub mod text;
pub mod trash;
pub mod undo;
pub mod window;

verus! {

} // verus!
