//! The errors that the container reports.

use vstd::prelude::*;

verus! {

/// What went wrong.
#[derive(Clone, Copy, Debug, PartialEq, Eq, Structural)]
pub enum ErrorKind {
    /// A header, cookie, redirect or content type was set after the header
    /// block had been written.
    OrderingError,
    /// A template page is too large or holds an escape that is not closed.
    InvalidRSPError,
    /// A template page names a handler whose name is not valid UTF-8.
    Utf8Error,
    /// The container was started twice, or before it was configured.
    ConfigurationError,
    /// The wall clock could not be read, or a request reached no route.
    InternalError,
}

/// The error of a failed container operation.
#[derive(Clone, Copy, Debug, PartialEq, Eq, Structural)]
pub struct Error {
    pub kind: ErrorKind,
}

impl Error {
    pub fn new(kind: ErrorKind) -> (r: Error)
        ensures
            r.kind == kind,
    {
        Error { kind }
    }

    pub fn kind(&self) -> (r: ErrorKind)
        ensures
            r == self.kind,
    {
        self.kind
    }
}

} // verus!
