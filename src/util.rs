//! The library's error type.

use vstd::prelude::*;
use vstd::string::StringExecFns;

verus! {

/// What went wrong, by the kind of failure.
#[derive(Clone, Copy, Debug, PartialEq, Eq, Structural)]
pub enum ErrorKind {
    /// Malformed bencoding or wire frame.
    Format,
    /// Protocol mismatch or info-hash mismatch in a handshake.
    Handshake,
    /// An unexpected or failed reply from the other side.
    Transport,
}

/// An error with its kind and a human-readable message.
#[derive(Debug)]
pub struct Error {
    pub kind: ErrorKind,
    pub message: String,
}

/// A format error carrying `msg`.
pub fn easy_err(msg: &str) -> (r: Error)
    ensures
        r.kind == ErrorKind::Format,
        r.message@ == msg@,
{
    Error { kind: ErrorKind::Format, message: String::from_str(msg) }
}

/// An error of the given kind carrying `msg`.
pub fn error_of(kind: ErrorKind, msg: &str) -> (r: Error)
    ensures
        r.kind == kind,
        r.message@ == msg@,
{
    Error { kind, message: String::from_str(msg) }
}

} // verus!
