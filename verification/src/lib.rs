//! A verified codec between the decoded form of `application/x-www-form-urlencoded`
//! bodies (an ordered sequence of key/value text pairs, duplicate keys permitted)
//! and structured in-memory values.
//!
//! The wire format is flat and carries no type information, so every decode is
//! driven by an explicit [`shape::Shape`] describing the value under
//! construction: it decides whether a lone key means a scalar, a one-element
//! list or an optional value, and whether an empty value text means "absent".
//! Percent-decoding and percent-encoding of the raw bytes are delegated to the
//! `form_urlencoded` crate; everything between the decoded pairs and the
//! structured value is specified and proved here.

pub mod de;
pub mod empty_is_some;
pub mod error;
pub mod float;
pub mod group;
pub mod laws;
pub mod ser;
pub mod shape;
pub mod slot;
pub mod text;
pub mod value;
pub mod wire;

pub use crate::de::{from_bytes, from_str, Deserializer};
pub use crate::error::Error;
pub use crate::ser::to_string;
pub use crate::shape::{EmptyPolicy, Field, IntKind, IntWidth, Shape, VariantShape};
pub use crate::value::Value;
