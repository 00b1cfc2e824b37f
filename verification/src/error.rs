//! Decode errors for the block wire protocol.

use vstd::prelude::*;

verus! {

/// What went wrong while decoding a frame.
///
/// `Incomplete` means the buffer does not yet hold enough bytes to decide;
/// supplying more bytes can recover from it. `Malformed` means the frame is
/// structurally invalid (unsupported version byte, or a declared payload
/// length too small to hold the fixed header fields); it is terminal for the
/// stream that produced it. `Other` carries a description of a failure
/// outside the codec itself, such as a transport error.
#[derive(Debug, PartialEq)]
pub enum ErrorKind {
    Incomplete,
    Malformed,
    Other(String),
}

impl ErrorKind {
    pub fn into_err(self) -> (e: Error)
        ensures
            e.kind == self,
    {
        Error { kind: self }
    }
}

/// A decode or stream error, carrying its [`ErrorKind`].
#[derive(Debug, PartialEq)]
pub struct Error {
    pub kind: ErrorKind,
}

impl Error {
    pub fn incomplete_error() -> (e: Self)
        ensures
            e.kind is Incomplete,
    {
        ErrorKind::Incomplete.into_err()
    }

    pub fn malformed_error() -> (e: Self)
        ensures
            e.kind is Malformed,
    {
        ErrorKind::Malformed.into_err()
    }

    pub fn other_error(msg: String) -> (e: Self)
        ensures
            e.kind == ErrorKind::Other(msg),
    {
        ErrorKind::Other(msg).into_err()
    }

    pub fn kind(&self) -> (k: &ErrorKind)
        ensures
            *k == self.kind,
    {
        &self.kind
    }
}

} // verus!
