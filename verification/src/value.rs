//! Structured values: what a decode produces and what an encode consumes.
//!
//! `Value` is the executable representation; `SpecValue` is its mathematical
//! image (text as `Seq<char>`, all integers as `int`), reached through
//! `DeepView`. Contracts throughout the crate speak of `SpecValue`.

use vstd::prelude::*;

verus! {

/// Mathematical model of a structured value.
pub enum SpecValue {
    Bool(bool),
    /// Any integer, signed or unsigned, of any width.
    Int(int),
    /// A floating-point value, kept as its validated literal text.
    Float(Seq<char>),
    Text(Seq<char>),
    /// An absent optional value.
    Null,
    List(Seq<SpecValue>),
    Tuple2(Box<SpecValue>, Box<SpecValue>),
    Record(Seq<(Seq<char>, SpecValue)>),
    Variant(Seq<char>),
    Tagged(Seq<char>, Seq<(Seq<char>, SpecValue)>),
    Unit,
}

/// A structured in-memory value.
///
/// Decoding yields a `Value` laid out by the requested
/// [`Shape`](crate::shape::Shape); encoding walks a `Value` and flattens it
/// into ordered key/value text pairs. A present optional value is represented
/// by its payload directly and an absent one by `Null`: the flat wire format
/// cannot tell a value from the same value wrapped in an option, so the
/// representation does not either.
#[derive(Debug, PartialEq, Eq)]
pub enum Value {
    Bool(bool),
    /// An integer decoded for a signed target.
    Int(i128),
    /// An integer decoded for an unsigned target.
    UInt(u128),
    /// A floating-point value, kept as its validated literal text.
    Float(String),
    Text(String),
    /// An absent optional value.
    Null,
    List(Vec<Value>),
    Tuple2(Box<Value>, Box<Value>),
    /// Named fields in order; duplicate names are allowed when encoding a
    /// repeated key.
    Record(Vec<(String, Value)>),
    /// A unit variant of an enum, by name.
    Variant(String),
    /// An internally tagged enum value: the chosen variant and its fields.
    Tagged(String, Vec<(String, Value)>),
    Unit,
}

/// Mathematical image of a `Value`.
pub open spec fn value_view(v: Value) -> SpecValue
    decreases v,
{
    match v {
        Value::Bool(b) => SpecValue::Bool(b),
        Value::Int(i) => SpecValue::Int(i as int),
        Value::UInt(u) => SpecValue::Int(u as int),
        Value::Float(t) => SpecValue::Float(t@),
        Value::Text(t) => SpecValue::Text(t@),
        Value::Null => SpecValue::Null,
        Value::List(vs) => SpecValue::List(values_view(vs@)),
        Value::Tuple2(a, b) => SpecValue::Tuple2(
            Box::new(value_view(*a)),
            Box::new(value_view(*b)),
        ),
        Value::Record(fs) => SpecValue::Record(entries_view(fs@)),
        Value::Variant(n) => SpecValue::Variant(n@),
        Value::Tagged(n, fs) => SpecValue::Tagged(n@, entries_view(fs@)),
        Value::Unit => SpecValue::Unit,
    }
}

/// Elementwise [`value_view`] of a sequence of values.
pub open spec fn values_view(vs: Seq<Value>) -> Seq<SpecValue>
    decreases vs,
{
    if vs.len() == 0 {
        Seq::empty()
    } else {
        values_view(vs.drop_last()).push(value_view(vs.last()))
    }
}

/// Elementwise view of a sequence of named entries.
pub open spec fn entries_view(fs: Seq<(String, Value)>) -> Seq<(Seq<char>, SpecValue)>
    decreases fs,
{
    if fs.len() == 0 {
        Seq::empty()
    } else {
        entries_view(fs.drop_last()).push((fs.last().0@, value_view(fs.last().1)))
    }
}

/// `values_view` is pointwise `value_view`.
pub proof fn lemma_values_view(vs: Seq<Value>)
    ensures
        values_view(vs).len() == vs.len(),
        forall|i: int| 0 <= i < vs.len() ==> values_view(vs)[i] == value_view(#[trigger] vs[i]),
    decreases vs,
{
    if vs.len() > 0 {
        lemma_values_view(vs.drop_last());
        assert forall|i: int| 0 <= i < vs.len() implies values_view(vs)[i]
            == value_view(#[trigger] vs[i]) by {
            if i < vs.len() - 1 {
                assert(vs.drop_last()[i] == vs[i]);
            } else {
                assert(vs.last() == vs[i]);
            }
        }
    }
}

/// `entries_view` is pointwise: it keeps each name and views each value.
pub proof fn lemma_entries_view(fs: Seq<(String, Value)>)
    ensures
        entries_view(fs).len() == fs.len(),
        forall|i: int| 0 <= i < fs.len() ==> entries_view(fs)[i]
            == ((#[trigger] fs[i]).0@, value_view(fs[i].1)),
    decreases fs,
{
    if fs.len() > 0 {
        lemma_entries_view(fs.drop_last());
        assert forall|i: int| 0 <= i < fs.len() implies entries_view(fs)[i]
            == ((#[trigger] fs[i]).0@, value_view(fs[i].1)) by {
            if i < fs.len() - 1 {
                assert(fs.drop_last()[i] == fs[i]);
            } else {
                assert(fs.last() == fs[i]);
            }
        }
    }
}

impl DeepView for Value {
    type V = SpecValue;

    open spec fn deep_view(&self) -> SpecValue {
        value_view(*self)
    }
}

} // verus!
