//! The errors that the library reports.

use vstd::prelude::*;

verus! {

/// A payload that does not follow its kind's format.
#[derive(Debug, Clone, Copy, PartialEq, Eq, Structural)]
pub enum FormatError {
    /// A tree leaf's mode is not five or six decimal digits followed by a
    /// space.
    BadMode,
    /// A tree leaf's path has no closing NUL, a commit field's value has no
    /// closing newline, or the blank line before a commit's message is
    /// missing.
    MissingTerminator,
    /// Fewer than twenty bytes are left where a tree leaf's digest belongs.
    TruncatedDigest,
    /// Text that has to be UTF-8 is not.
    BadUtf8,
}

/// A failure to read or write a stored object.
#[derive(Debug, Clone, Copy, PartialEq, Eq, Structural)]
pub enum StoreError {
    /// Nothing is stored under the digest.
    NotFound,
    /// The stored bytes do not inflate, or the frame's header cannot be read.
    Corrupt,
    /// The length that the frame declares is not the payload's length.
    SizeMismatch,
    /// The frame names a kind other than commit, tag, tree and blob.
    UnknownKind,
    /// The file system, or the compressor, reported an error.
    Io,
    /// The frame is sound but its payload is malformed.
    Format(FormatError),
}

/// A failure to resolve a name to a digest. No name is rejected yet: the
/// variants are kept for abbreviated digests and references.
#[derive(Debug, Clone, Copy, PartialEq, Eq, Structural)]
pub enum ResolveError {
    /// Several objects match the name.
    Ambiguous,
    /// No object matches the name.
    Unknown,
}

/// A failure of a checkout.
#[derive(Debug, Clone, Copy, PartialEq, Eq, Structural)]
pub enum CheckoutError {
    /// The target directory exists and holds entries.
    TargetNotEmpty,
    /// The target exists and is not a directory.
    TargetNotDirectory,
    /// The commit has no `tree` field.
    NoTreeField,
    /// The object to check out is neither a tree nor a commit that names one.
    NotATree,
    /// More trees are nested than the checkout was told to open at once.
    TooDeep,
    /// A leaf that is to become a directory or a file has a path that is not
    /// one plain name.
    BadPath,
    /// Reading an object failed.
    Store(StoreError),
    /// The file system refused to create a directory or a file, or the
    /// caller reported something that it was not asked for.
    Io,
}

} // verus!
