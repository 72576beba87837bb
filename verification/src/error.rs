//! The error taxonomy: every fallible operation returns a typed error to
//! its caller; nothing in the engine panics or retries.

use vstd::prelude::*;

verus! {

/// Errors of the document engine as a whole.
#[derive(Clone, Copy, Debug, PartialEq, Eq, Structural)]
pub enum Error {
    /// An internal invariant was broken.
    Unknown,
    /// The same document was recorded twice.
    Conflict,
    /// A node, document or dialect was missing.
    NotFound,
    /// A root-only operation was given a pointer-bearing location.
    NotARoot,
    /// The same location was given two structurally different nodes.
    NotTheSame,
    ParseLocationFailed,
    ParseMethodFailed,
    ParseStatusKindFailed,
    /// The document matches no known dialect.
    DocumentTypeError,
    /// The fetched text is neither valid YAML nor valid JSON.
    InvalidYaml,
    /// The loader's document budget was exhausted before the graph
    /// closed.
    TooManyDocuments,
    /// The fetch abstraction failed on a file path.
    IoError,
    /// The fetch abstraction failed on a URL.
    HttpError,
}

/// Errors of a dialect adapter reading cached nodes.
#[derive(Clone, Copy, Debug, PartialEq, Eq, Structural)]
pub enum DocumentError {
    Unknown,
    /// A dereference target or required node was not in the cache.
    NodeNotFound,
    ParseLocationFailed,
    ParseMethodFailed,
    ParseStatusKindFailed,
}

/// How an adapter error surfaces at the engine boundary.
pub open spec fn document_error_view(e: DocumentError) -> Error {
    match e {
        DocumentError::Unknown => Error::Unknown,
        DocumentError::NodeNotFound => Error::NotFound,
        DocumentError::ParseLocationFailed => Error::ParseLocationFailed,
        DocumentError::ParseMethodFailed => Error::ParseMethodFailed,
        DocumentError::ParseStatusKindFailed => Error::ParseStatusKindFailed,
    }
}

impl DocumentError {
    /// Maps the adapter error to the engine error.
    pub fn into_error(self) -> (r: Error)
        ensures
            r == document_error_view(self),
    {
        match self {
            DocumentError::Unknown => Error::Unknown,
            DocumentError::NodeNotFound => Error::NotFound,
            DocumentError::ParseLocationFailed => Error::ParseLocationFailed,
            DocumentError::ParseMethodFailed => Error::ParseMethodFailed,
            DocumentError::ParseStatusKindFailed => Error::ParseStatusKindFailed,
        }
    }
}

} // verus!
