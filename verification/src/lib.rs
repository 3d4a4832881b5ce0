//! Bulk file renaming by text editing.
//!
//! The library holds the logic of an interactive tool that lets a user
//! rename, move or delete a set of files by editing their paths as lines of
//! text: rendering the paths into an editable buffer, reading the edited
//! buffer back, diffing the two lists positionally into a set of pending
//! moves and deletions, and classifying the user's confirmation answer.
//! Paths are compared in canonical absolute form: joined with the working
//! directory and lexically cleaned, with no symlink resolution.

pub mod confirm;
pub mod diff;
pub mod paths;
pub mod session;
