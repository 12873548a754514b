//! Decoding with empty texts treated as explicitly empty.
//!
//! Same entry points as the crate root, but under the alternate empty
//! policy: an empty value text decodes an optional text target as the empty
//! text rather than as absent. Numeric targets are unaffected at the scalar
//! level, since an empty numeric text never parses.

use vstd::prelude::*;

use crate::de::{res_view, spec_decode_top, Deserializer};
use crate::error::Error;
use crate::shape::{EmptyPolicy, Shape};
use crate::value::Value;
use vstd::string::StringSliceAdditionalSpecFns;

verus! {

/// Decode a value of the given shape from wire bytes, under the alternate
/// policy: an empty text decodes an optional text as explicitly empty.
pub fn from_bytes(input: &[u8], shape: &Shape) -> (r: Result<Value, Error>)
    ensures
        res_view(r) == spec_decode_top(
            crate::wire::form_pairs_of(input@),
            *shape,
            EmptyPolicy::EmptyIsSome,
        ),
{
    Deserializer::from_bytes(input, EmptyPolicy::EmptyIsSome).deserialize(shape)
}

/// Decode a value of the given shape from wire text, under the alternate
/// policy.
pub fn from_str(input: &str, shape: &Shape) -> (r: Result<Value, Error>)
    ensures
        res_view(r) == spec_decode_top(
            crate::wire::form_pairs_of(input.spec_bytes()),
            *shape,
            EmptyPolicy::EmptyIsSome,
        ),
{
    from_bytes(input.as_bytes(), shape)
}

} // verus!
