use vstd::prelude::*;

verus! {

/// Category of an [`Error`].
#[derive(Debug, Clone, Copy, PartialEq, Eq, Structural)]
pub enum ErrorKind {
    /// The caller handed in a value that the operation does not accept.
    InvalidInput,
    /// Encoded data read from a byte stream is malformed.
    InvalidData,
}

/// Error returned by the fallible operations of this crate.
#[derive(Debug, Clone, Copy)]
pub struct Error {
    /// What kind of failure this is.
    pub kind: ErrorKind,
    /// Human readable reason.
    pub reason: &'static str,
}

impl Error {
    /// An [`ErrorKind::InvalidInput`] error with the given reason.
    pub fn invalid_input(reason: &'static str) -> (e: Error)
        ensures
            e.kind == ErrorKind::InvalidInput,
            e.reason == reason,
    {
        Error { kind: ErrorKind::InvalidInput, reason }
    }

    /// An [`ErrorKind::InvalidData`] error with the given reason.
    pub fn invalid_data(reason: &'static str) -> (e: Error)
        ensures
            e.kind == ErrorKind::InvalidData,
            e.reason == reason,
    {
        Error { kind: ErrorKind::InvalidData, reason }
    }
}

} // verus!
