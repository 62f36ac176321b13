//! The recoverable error type that every parser and evaluator returns.

use vstd::prelude::*;

verus! {

/// A recoverable failure: a syntax, conversion, calculation or dispatch
/// error, carrying its message.
#[derive(Debug)]
pub struct Error {
    pub err: String,
}

impl Error {
    pub fn new(err: String) -> (e: Self)
        ensures
            e.err == err,
    {
        Error { err }
    }

    /// Builds an error from a message literal.
    pub fn from_str(err: &str) -> (e: Self)
        ensures
            e.err@ == err@,
    {
        Error { err: err.to_owned() }
    }
}

} // verus!
