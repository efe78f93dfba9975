//! The error taxonomy of the archive search.
//!
//! Every condition is fatal and propagated to the caller unchanged, except
//! `CookieNotFound`, which is the normal negative result: the history was
//! walked to its end and no commit's tree held the target file.

use vstd::prelude::*;

verus! {

/// Why a search over an archive stopped without producing a commit.
#[derive(Clone, Copy, Debug, PartialEq, Eq, Structural)]
pub enum SearchError {
    /// Iterating the tar entries failed, or an entry's byte range lies outside
    /// the archive buffer.
    ArchiveReadError,
    /// A file under the object directory does not have the two-part shape of a
    /// loose-object path (a 38-character file name below its fan-out
    /// directory).
    MalformedArchive,
    /// A hash referenced by a commit or a tree names no object in the store.
    ObjectNotFound,
    /// An object's bytes are not a valid zlib stream.
    DecompressionError,
    /// An object reachable through a parent link does not carry the commit
    /// tag.
    NotACommit,
    /// An object referenced as a tree does not carry the tree tag.
    NotATree,
    /// A commit header has no tree line.
    MissingTreeField,
    /// A commit header has no author line.
    MissingAuthorField,
    /// A tree entry's text could not be split into a mode and a name, or its
    /// mode is not a decimal number.
    MalformedTreeEntry,
    /// An object ended before a required terminator or before the twenty hash
    /// bytes of a tree entry.
    UnexpectedEof,
    /// The walk ran out of commits without finding the target: a negative
    /// answer, not a structural fault.
    CookieNotFound,
}

impl SearchError {
    /// A short description, for callers that report the failure as text.
    pub fn message(&self) -> &'static str {
        match self {
            SearchError::ArchiveReadError => "unable to read the archive entries",
            SearchError::MalformedArchive => "a loose-object path is malformed",
            SearchError::ObjectNotFound => "a referenced object is missing from the store",
            SearchError::DecompressionError => "unable to decompress an object",
            SearchError::NotACommit => "not a commit entry",
            SearchError::NotATree => "cannot process tree",
            SearchError::MissingTreeField => "error finding tree in commit",
            SearchError::MissingAuthorField => "error finding author in commit",
            SearchError::MalformedTreeEntry => "cannot parse a tree entry",
            SearchError::UnexpectedEof => "an object ended unexpectedly",
            SearchError::CookieNotFound => "cookie not found",
        }
    }
}

} // verus!
