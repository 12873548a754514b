//! The shape a decode is asked to produce.
//!
//! The wire format carries no type information, so the caller describes the
//! target with a `Shape` tree. Each node tells the codec what the value under
//! construction expects at that point: a primitive, verbatim text, an optional
//! value, a repeatable list, a record of named fields, and so on.

use vstd::prelude::*;

verus! {

/// Width of an integer target.
#[derive(Clone, Copy, Debug, PartialEq, Eq, Structural)]
pub enum IntWidth {
    W8,
    W16,
    W32,
    W64,
    W128,
}

/// An integer target: signedness, width, and whether zero is excluded
/// (the non-zero integer family).
#[derive(Clone, Copy, Debug, PartialEq, Eq, Structural)]
pub struct IntKind {
    pub signed: bool,
    pub width: IntWidth,
    pub nonzero: bool,
}

impl IntKind {
    /// Smallest value an integer of this kind may hold.
    pub open spec fn min_spec(self) -> int {
        if !self.signed {
            0
        } else {
            match self.width {
                IntWidth::W8 => i8::MIN as int,
                IntWidth::W16 => i16::MIN as int,
                IntWidth::W32 => i32::MIN as int,
                IntWidth::W64 => i64::MIN as int,
                IntWidth::W128 => i128::MIN as int,
            }
        }
    }

    /// Largest value an integer of this kind may hold.
    pub open spec fn max_spec(self) -> int {
        if self.signed {
            match self.width {
                IntWidth::W8 => i8::MAX as int,
                IntWidth::W16 => i16::MAX as int,
                IntWidth::W32 => i32::MAX as int,
                IntWidth::W64 => i64::MAX as int,
                IntWidth::W128 => i128::MAX as int,
            }
        } else {
            match self.width {
                IntWidth::W8 => u8::MAX as int,
                IntWidth::W16 => u16::MAX as int,
                IntWidth::W32 => u32::MAX as int,
                IntWidth::W64 => u64::MAX as int,
                IntWidth::W128 => u128::MAX as int,
            }
        }
    }

    /// Whether a mathematical integer fits this kind, including the
    /// non-zero restriction.
    pub open spec fn fits(self, n: int) -> bool {
        self.min_spec() <= n <= self.max_spec() && (self.nonzero ==> n != 0)
    }
}

/// One named field of a record shape.
#[derive(Debug, PartialEq, Eq)]
pub struct Field {
    pub name: String,
    pub shape: Shape,
}

/// One variant of an internally tagged enum shape: the tag text that selects
/// it and the fields belonging to it.
#[derive(Debug, PartialEq, Eq)]
pub struct VariantShape {
    pub name: String,
    pub fields: Vec<Field>,
}

/// What the target currently requests from the codec.
#[derive(Debug, PartialEq, Eq)]
pub enum Shape {
    /// `true` or `false`.
    Bool,
    /// A decimal integer of the given kind.
    Int(IntKind),
    /// A floating-point literal; the decoded value keeps the validated text.
    Float,
    /// The value text, verbatim.
    Text,
    /// An optional value; an empty value text may mean "absent",
    /// depending on the payload shape and the empty policy.
    Optional(Box<Shape>),
    /// A list; a repeated key contributes one element per occurrence and a
    /// lone key decodes as a one-element list.
    List(Box<Shape>),
    /// A two-element tuple; at the top level the input decodes as a list of
    /// `(key, value)` tuples in arrival order, duplicates preserved.
    Tuple2(Box<Shape>, Box<Shape>),
    /// A record with a fixed set of named fields, visited in declaration
    /// order; keys that match no field are ignored.
    Record(Vec<Field>),
    /// A mapping from key text to values of one shape, in first-occurrence
    /// key order.
    Dict(Box<Shape>),
    /// An enum of unit variants; the value text must equal one variant name.
    UnitEnum(Vec<String>),
    /// An internally tagged enum: the field named by `tag` selects the
    /// variant, the remaining keys decode as that variant's fields.
    TaggedEnum { tag: String, variants: Vec<VariantShape> },
    /// The zero-field target; decoding succeeds only on empty input.
    Unit,
    /// A transparent wrapper around the payload shape.
    Newtype(Box<Shape>),
}

/// How an empty value text is resolved when the target is an option of a
/// text-family payload.
#[derive(Clone, Copy, Debug, PartialEq, Eq, Structural)]
pub enum EmptyPolicy {
    /// An empty text decodes an optional text as absent.
    EmptyIsNone,
    /// An empty text decodes an optional text as explicitly empty.
    EmptyIsSome,
}

} // verus!
