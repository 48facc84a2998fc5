//! The error type of the ciphers.
use vstd::prelude::*;

verus! {

/// The kinds of error a cipher reports.
#[derive(Debug, Clone, Copy, PartialEq, Eq, Structural)]
pub enum ErrorKind {
    /// A supplied key does not fit the cipher.
    KeyError,
    /// The cryptarithm search used up its batches without a result.
    ExhaustedSearch,
    /// No quotation has the length asked for.
    NoQuote,
}

/// An error reported by a cipher: its kind and a message.
#[derive(Debug)]
pub struct CipherError {
    pub kind: ErrorKind,
    pub error: String,
}

impl CipherError {
    pub fn new(kind: ErrorKind, error: String) -> (r: Self)
        ensures
            r.kind == kind,
            r.error == error,
    {
        Self { kind, error }
    }
}

pub type CipherResult<T> = Result<T, CipherError>;

} // verus!
