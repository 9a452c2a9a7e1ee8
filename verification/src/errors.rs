//! The error taxonomy of the confined filesystem.

use vstd::prelude::*;

verus! {

/// Every failure an operation of this crate can report.
///
/// `PathEscape` (the security boundary) is a distinct variant from
/// `NotFound`, so a caller can never use the error kind to probe the
/// host filesystem outside the sandbox.
#[derive(Clone, Copy, Debug, PartialEq, Eq, Structural)]
pub enum FsError {
    /// The resolved path would lie outside the sandbox root.
    PathEscape,
    /// The raw path is malformed (empty, or holds a NUL byte).
    InvalidPath,
    /// The path names no entry in the tree.
    NotFound,
    /// A directory was required but the path names a file (or vice versa).
    NotADirectory,
    /// The directory still has children and cannot be removed.
    NotEmpty,
    /// The target entry already exists; nothing is overwritten silently.
    AlreadyExists,
    /// The iterator has no current entry to remove.
    NoCurrentEntry,
    /// A lower-level storage failure, reserved for hosts that back the
    /// tree with real devices; the in-memory tree never reports it.
    IoError,
}

} // verus!
