//! Cleaning of `PATH`-like lists, with POSIX conventions: the entries of a
//! list are separated by `:`, the components of an entry by `/`.
//!
//! All paths are byte strings. A list is cleaned by expanding a leading `~` or
//! `.` of each entry, dropping every entry that is equal to an earlier one, and
//! dropping every entry that does not exist. Whether a path exists is asked of
//! a function that the caller hands in.
//!
//! `clean::clean_path` cleans a list for a home directory and a current
//! directory that are given. `lookup::clean_path_with` asks functions of the
//! caller for them, for each entry that needs one, and
//! `lookup::clean_path_for_user` looks the home directory of the user up
//! itself. `laws` states what holds of every cleaned list.

/// Byte strings.
pub mod bytes;
/// Cleaning a path list.
pub mod clean;
/// The components of a path.
pub mod component;
/// The home directory and the current directory.
pub mod environment;
/// Expansion of a leading `~` or `.`.
pub mod expand;
/// What holds of every cleaned list.
pub mod laws;
/// The syntax of a path list.
pub mod list;
/// Cleaning with directories that are looked up when they are needed.
pub mod lookup;
/// First occurrences, and the paths that exist.
pub mod select;
