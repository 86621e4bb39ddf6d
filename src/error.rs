//! The error kinds that the library reports.
use vstd::prelude::*;

verus! {

/// What can go wrong in the engine.
#[derive(Debug, Clone, Copy, PartialEq, Eq, Structural)]
pub enum VcsError {
    /// A referenced object, commit or tree does not exist.
    NotFound,
    /// An encoding does not follow its grammar.
    FormatError,
    /// A required configuration key is absent.
    ConfigMissing,
    /// A commit was attempted with nothing staged.
    EmptyIndexError,
    /// A reset went past the root commit.
    HistoryTooShort,
    /// The underlying storage failed.
    IOError,
    /// A tree with no children cannot be encoded.
    EmptyTree,
    /// A field that the encoding needs is not set.
    UnsetField,
    /// The index names a file where a directory is needed.
    IndexCorrupt,
    /// A tree is asked for its hash while it holds children, or given one.
    TreeMode,
}

} // verus!
