//! The errors that the engine reports.
use vstd::prelude::*;

verus! {

/// What went wrong in an operation of the engine.
#[derive(Debug, Clone, Copy, PartialEq, Eq, Structural)]
pub enum VitError {
    /// No repository was found.
    NotInitialized,
    /// A file could not be read or written.
    IoError,
    /// Stored object bytes are malformed.
    CorruptObject,
    /// Stored index bytes are malformed.
    CorruptIndex,
    /// A referenced object, branch or stash entry is absent.
    NotFound,
    /// A branch of that name exists already.
    AlreadyExists,
    /// The operation targets the active branch.
    AlreadyActive,
    /// A commit or stash was given no message.
    EmptyMessage,
}

} // verus!
