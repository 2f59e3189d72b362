//! The result of a parser step.
use vstd::prelude::*;

verus! {

/// What a parser step gives: a value, a failure with its message, or text left
/// over that it did not read.
pub enum PResult<T> {
    Success(T),
    Fail(String),
    Left(String),
}

} // verus!
