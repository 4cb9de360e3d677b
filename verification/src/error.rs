//! The ways in which an operation on a normalized string can fail.

use vstd::prelude::*;
use vstd::string::StringExecFns;

verus! {

/// Why an operation was abandoned. An operation that fails leaves the string
/// it was applied to as it was.
#[derive(Clone, Copy, Debug, PartialEq, Eq, Structural)]
pub enum NormalizedError {
    /// A negative index reaches further back than the text is long, or a
    /// slice asks for a step other than one.
    RangeError,
    /// The expression of a pattern is malformed, or could not be evaluated on
    /// the text.
    PatternError,
    /// A callback did not hand back a value of the type asked of it.
    CallbackError,
    /// A callback of `map` handed back a string that is not exactly one
    /// character long.
    ContractViolation,
    /// The handle was used after its scope had ended.
    HandleExpired,
}

impl NormalizedError {
    /// A sentence for the user of the library that describes the failure.
    pub fn message(&self) -> (s: String)
        ensures
            s@ == (match *self {
                NormalizedError::RangeError => "the index is bigger than max len"@,
                NormalizedError::PatternError => "the pattern cannot be evaluated"@,
                NormalizedError::CallbackError => (
                "the callback returned a value of the wrong type")@,
                NormalizedError::ContractViolation => (
                "`map` expect a callable with the signature: `fn(char) -> char`")@,
                NormalizedError::HandleExpired => (
                "Cannot use a NormalizedStringRefMut outside `normalize`")@,
            }),
    {
        match self {
            NormalizedError::RangeError => String::from_str("the index is bigger than max len"),
            NormalizedError::PatternError => String::from_str("the pattern cannot be evaluated"),
            NormalizedError::CallbackError => String::from_str(
                "the callback returned a value of the wrong type",
            ),
            NormalizedError::ContractViolation => String::from_str(
                "`map` expect a callable with the signature: `fn(char) -> char`",
            ),
            NormalizedError::HandleExpired => String::from_str(
                "Cannot use a NormalizedStringRefMut outside `normalize`",
            ),
        }
    }
}

} // verus!
