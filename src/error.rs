use vstd::prelude::*;

use crate::parser::ParseError;

verus! {

/// Errors that can be met when working with RESP.
#[derive(Debug)]
pub enum Error {
    /// A value could not be mapped to or from the shape asked for.
    Message(String),
    /// The transport failed.
    Io(String),
    /// The bytes are not valid RESP, or not yet a whole frame.
    Parse(ParseError),
    /// The server answered with an error line; its text.
    Redis(String),
}

impl Error {
    /// Whether the connection stays usable after this error: true only for errors that
    /// the server reported.
    pub fn is_transient(&self) -> (r: bool)
        ensures
            r == (self is Redis),
    {
        match self {
            Error::Redis(_) => true,
            _ => false,
        }
    }

    /// This error with every part owned; errors here never borrow.
    pub fn into_owned(self) -> (r: Error)
        ensures
            r == self,
    {
        self
    }
}

/// An error met while reading bytes, with the bytes left to be read.
#[derive(Debug)]
pub struct ReadError {
    /// The error which occurred.
    pub data: Error,
    /// Bytes remaining to be read.
    pub remaining: Vec<u8>,
}

impl ReadError {
    /// This error with every part owned.
    pub fn into_owned(self) -> (r: ReadError)
        ensures
            r == self,
    {
        self
    }
}

} // verus!
