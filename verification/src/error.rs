//! Errors of the codec.
//!
//! Every error is terminal for the enclosing decode or encode call: there is
//! no retry and no partial result.

use vstd::prelude::*;

verus! {

/// Mathematical model of an [`Error`].
pub enum SpecError {
    Parse { key: Seq<char>, text: Seq<char> },
    MultipleValues { key: Seq<char> },
    ShapeMismatch { key: Seq<char> },
    LengthMismatch { expected: int, actual: int },
    MissingField { key: Seq<char> },
    UnsupportedValue,
}

/// What went wrong during a decode or encode call.
#[derive(Debug, PartialEq, Eq)]
pub enum Error {
    /// The value text for `key` does not match the grammar of the requested
    /// primitive or names no declared enum variant; carries the raw text.
    Parse { key: String, text: String },
    /// The key appeared more than once but the target holds a single value.
    MultipleValues { key: String },
    /// The target requested a structure that one scalar text cannot carry,
    /// or a top-level shape the flat format does not support.
    ShapeMismatch { key: String },
    /// The target is the unit shape, yet entries remain; reports how many
    /// were expected and how many are actually there.
    LengthMismatch { expected: usize, actual: usize },
    /// A required field of a record has no entry in the input.
    MissingField { key: String },
    /// The serializer met a value the flat format cannot represent, such as
    /// a sequence nested inside a sequence.
    UnsupportedValue,
}

impl DeepView for Error {
    type V = SpecError;

    open spec fn deep_view(&self) -> SpecError {
        match self {
            Error::Parse { key, text } => SpecError::Parse { key: key@, text: text@ },
            Error::MultipleValues { key } => SpecError::MultipleValues { key: key@ },
            Error::ShapeMismatch { key } => SpecError::ShapeMismatch { key: key@ },
            Error::LengthMismatch { expected, actual } => SpecError::LengthMismatch {
                expected: *expected as int,
                actual: *actual as int,
            },
            Error::MissingField { key } => SpecError::MissingField { key: key@ },
            Error::UnsupportedValue => SpecError::UnsupportedValue,
        }
    }
}

impl Error {
    /// A short description of the error, for callers that report it.
    pub fn describe(&self) -> &'static str {
        match self {
            Error::Parse { .. } => "cannot parse value text for the requested shape",
            Error::MultipleValues { .. } => "multiple values for a single-valued target",
            Error::ShapeMismatch { .. } => "the requested shape cannot be produced here",
            Error::LengthMismatch { .. } => "entries remain for a unit target",
            Error::MissingField { .. } => "missing field",
            Error::UnsupportedValue => "unsupported value",
        }
    }
}

} // verus!
