//! A containment guard for file paths.
//!
//! Given a root directory and an untrusted path, the guard decides whether
//! the path may be used: the part of it that exists must lie, once its links
//! are resolved, inside the root, and the part that does not exist yet must
//! not climb with `..`.
//!
//! The library never touches the file system. It computes on byte strings and
//! asks its caller two kinds of question (does this path exist? what is its
//! canonical form?); the caller answers and the guard goes on.
//!
//! - [`syntax`] says what a path is: how its bytes divide into components,
//!   what its parent is, what joining and prefixes mean. Paths have POSIX
//!   syntax, as `std::path` reads them on such a system.
//! - [`path`] holds the operations on paths, each proved to compute what
//!   `syntax` says.
//! - [`guard`] holds the guard: its verdict as a mathematical function of
//!   root, candidate and disk, and the steps that compute it.
//! - [`laws`] holds what is proved of the verdict on every disk.
//! - [`listing`] holds the rule by which a directory is listed.

pub mod guard;
pub mod laws;
pub mod listing;
pub mod path;
pub mod syntax;
