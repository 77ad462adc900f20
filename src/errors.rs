//! The library's error type.
use vstd::prelude::*;

verus! {

/// What went wrong: access to a file or directory, or a malformed value.
#[derive(Clone, Copy, Debug, PartialEq, Eq, Structural)]
pub enum ErrorKind {
    Io,
    Value,
}

/// An error with a message for the user.
#[derive(Debug)]
pub struct Error {
    pub msg: String,
    pub kind: ErrorKind,
}

impl Error {
    /// An error about a malformed value.
    pub fn new(msg: &str) -> (r: Error)
        ensures
            r.msg@ == msg@,
            r.kind == ErrorKind::Value,
    {
        Error { msg: msg.to_owned(), kind: ErrorKind::Value }
    }

    /// An error from file or directory access.
    pub fn io(msg: &str) -> (r: Error)
        ensures
            r.msg@ == msg@,
            r.kind == ErrorKind::Io,
    {
        Error { msg: msg.to_owned(), kind: ErrorKind::Io }
    }

    /// The message describing the error.
    pub fn description(&self) -> (r: &str)
        ensures
            r@ == self.msg@,
    {
        self.msg.as_str()
    }

    /// What kind of error this is.
    pub fn kind(&self) -> (r: ErrorKind)
        ensures
            r == self.kind,
    {
        self.kind
    }
}

} // verus!
