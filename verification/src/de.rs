//! Decoding: from the decoded pair sequence to a structured value.
//!
//! The driver presents the input to the requested shape in one of three
//! ways: grouped by key for records, dictionaries and tagged enums; as the
//! raw pair sequence for a top-level list; or as nothing at all for the unit
//! target. Each key's cell is decoded on demand with the shape of the field
//! that visits it, so different fields may resolve the empty-text ambiguity
//! differently.
//!
//! Every executable function mirrors a spec function of the same structure;
//! the contracts state that the two agree on the deep views.

use vstd::prelude::*;

use crate::error::{Error, SpecError};
use crate::float::is_float_text;
use crate::float::is_float_literal;
use crate::group::{
    find_in, group_entries, lemma_find_in, GroupedMap, SpecGrouped, spec_group,
};
use crate::shape::{EmptyPolicy, Field, Shape, VariantShape};
use crate::slot::ValOrVec;
use crate::text::{parse_bool, parse_bool_text, parse_int, parse_int_text, ParsedInt, str_eq};
use crate::value::{SpecValue, Value};
use vstd::string::StringSliceAdditionalSpecFns;

verus! {

/// The deep view of a decode or encode result.
pub open spec fn res_view(r: Result<Value, Error>) -> Result<SpecValue, SpecError> {
    match r {
        Ok(v) => Ok(v.deep_view()),
        Err(e) => Err(e.deep_view()),
    }
}

/// Whether an empty value text decodes an optional payload of this shape as
/// absent.
///
/// The set is closed: booleans, integers of every width and floating-point
/// targets always read empty as absent, since an empty numeric text never
/// parses. The text shape follows the empty policy. Every other payload
/// shape is out of the set: an empty text is handed to the payload decoder
/// itself.
pub open spec fn spec_empty_is_absent(payload: Shape, mode: EmptyPolicy) -> bool {
    match payload {
        Shape::Bool => true,
        Shape::Int(_) => true,
        Shape::Float => true,
        Shape::Text => mode == EmptyPolicy::EmptyIsNone,
        _ => false,
    }
}

/// Resolve the empty-text ambiguity for an optional payload of this shape.
pub fn empty_is_absent(payload: &Shape, mode: EmptyPolicy) -> (r: bool)
    ensures
        r == spec_empty_is_absent(*payload, mode),
{
    match payload {
        Shape::Bool => true,
        Shape::Int(_) => true,
        Shape::Float => true,
        Shape::Text => mode == EmptyPolicy::EmptyIsNone,
        _ => false,
    }
}

/// Whether some declared variant name equals the value text.
pub open spec fn spec_names_contain(names: Seq<String>, text: Seq<char>) -> bool {
    exists|i: int| 0 <= i < names.len() && (#[trigger] names[i])@ == text
}

/// Decode one scalar text under the requested shape.
///
/// This is the scalar codec: primitives parse under their grammar, text is
/// taken verbatim, an option resolves the empty-text ambiguity and otherwise
/// decodes its payload from the same text, a list reads the text as its one
/// element, an enum matches the text against its variant names, and a
/// newtype unwraps. Shapes that need more structure than one text can carry
/// fail with a shape mismatch.
pub open spec fn spec_decode_scalar(
    key: Seq<char>,
    text: Seq<char>,
    shape: Shape,
    mode: EmptyPolicy,
) -> Result<SpecValue, SpecError>
    decreases shape,
{
    match shape {
        Shape::Bool => match parse_bool_text(text) {
            Some(b) => Ok(SpecValue::Bool(b)),
            None => Err(SpecError::Parse { key, text }),
        },
        Shape::Int(k) => match parse_int_text(text, k) {
            Some(v) => Ok(SpecValue::Int(v)),
            None => Err(SpecError::Parse { key, text }),
        },
        Shape::Float => if is_float_text(text) {
            Ok(SpecValue::Float(text))
        } else {
            Err(SpecError::Parse { key, text })
        },
        Shape::Text => Ok(SpecValue::Text(text)),
        Shape::Optional(inner) => if text.len() == 0 && spec_empty_is_absent(*inner, mode) {
            Ok(SpecValue::Null)
        } else {
            spec_decode_scalar(key, text, *inner, mode)
        },
        Shape::List(inner) => match spec_decode_scalar(key, text, *inner, mode) {
            Ok(v) => Ok(SpecValue::List(seq![v])),
            Err(e) => Err(e),
        },
        Shape::UnitEnum(names) => if spec_names_contain(names@, text) {
            Ok(SpecValue::Variant(text))
        } else {
            Err(SpecError::Parse { key, text })
        },
        Shape::Newtype(inner) => spec_decode_scalar(key, text, *inner, mode),
        _ => Err(SpecError::ShapeMismatch { key }),
    }
}

/// Decode the texts of one key's cell under the requested shape.
///
/// An option is resolved at the cell: under the default policy a cell
/// holding one empty text is absent, whatever the payload; under the
/// alternate policy the payload decoder always runs. A list takes one
/// element per text; every other shape takes exactly one text and fails
/// with a multiple-values error when the key repeated.
pub open spec fn spec_decode_slot(
    key: Seq<char>,
    texts: Seq<Seq<char>>,
    shape: Shape,
    mode: EmptyPolicy,
) -> Result<SpecValue, SpecError>
    decreases shape,
{
    match shape {
        Shape::Optional(inner) => if texts.len() == 1 && texts[0].len() == 0
            && mode == EmptyPolicy::EmptyIsNone {
            Ok(SpecValue::Null)
        } else {
            spec_decode_slot(key, texts, *inner, mode)
        },
        Shape::List(inner) => match spec_decode_elems(key, texts, *inner, mode) {
            Ok(vs) => Ok(SpecValue::List(vs)),
            Err(e) => Err(e),
        },
        _ => if texts.len() == 1 {
            spec_decode_scalar(key, texts[0], shape, mode)
        } else {
            Err(SpecError::MultipleValues { key })
        },
    }
}

/// Decode each text as one list element; the first failure wins.
pub open spec fn spec_decode_elems(
    key: Seq<char>,
    texts: Seq<Seq<char>>,
    elem: Shape,
    mode: EmptyPolicy,
) -> Result<Seq<SpecValue>, SpecError>
    decreases texts,
{
    if texts.len() == 0 {
        Ok(Seq::empty())
    } else {
        match spec_decode_elems(key, texts.drop_last(), elem, mode) {
            Ok(vs) => match spec_decode_scalar(key, texts.last(), elem, mode) {
                Ok(v) => Ok(vs.push(v)),
                Err(e) => Err(e),
            },
            Err(e) => Err(e),
        }
    }
}

/// Decode one scalar text under `shape`.
pub fn decode_scalar(key: &String, text: &String, shape: &Shape, mode: EmptyPolicy) -> (r: Result<
    Value,
    Error,
>)
    ensures
        res_view(r) == spec_decode_scalar(key@, text@, *shape, mode),
    decreases *shape,
{
    match shape {
        Shape::Bool => match parse_bool(text.as_str()) {
            Some(b) => Ok(Value::Bool(b)),
            None => Err(Error::Parse { key: key.clone(), text: text.clone() }),
        },
        Shape::Int(k) => match parse_int(text.as_str(), *k) {
            Some(p) => match p {
                ParsedInt::Signed(v) => Ok(Value::Int(v)),
                ParsedInt::Unsigned(v) => Ok(Value::UInt(v)),
            },
            None => Err(Error::Parse { key: key.clone(), text: text.clone() }),
        },
        Shape::Float => if is_float_literal(text.as_str()) {
            Ok(Value::Float(text.clone()))
        } else {
            Err(Error::Parse { key: key.clone(), text: text.clone() })
        },
        Shape::Text => Ok(Value::Text(text.clone())),
        Shape::Optional(inner) => {
            if text.as_str().is_empty() && empty_is_absent(inner, mode) {
                Ok(Value::Null)
            } else {
                decode_scalar(key, text, inner, mode)
            }
        }
        Shape::List(inner) => match decode_scalar(key, text, inner, mode) {
            Ok(v) => {
                let mut elems: Vec<Value> = Vec::new();
                elems.push(v);
                let r = Value::List(elems);
                proof {
                    crate::value::lemma_values_view(elems@);
                    assert(r.deep_view() matches SpecValue::List(vs)
                        && vs =~= seq![elems@[0].deep_view()]);
                }
                Ok(r)
            }
            Err(e) => Err(e),
        },
        Shape::UnitEnum(names) => {
            let n = names.len();
            let mut i: usize = 0;
            while i < n
                invariant
                    *shape == Shape::UnitEnum(*names),
                    n == names@.len(),
                    0 <= i <= n,
                    forall|j: int| 0 <= j < i ==> (#[trigger] names@[j])@ != text@,
                decreases n - i,
            {
                if str_eq(names[i].as_str(), text.as_str()) {
                    proof {
                        assert(spec_names_contain(names@, text@)) by {
                            assert((names@[i as int])@ == text@);
                        }
                    }
                    return Ok(Value::Variant(text.clone()));
                }
                i = i + 1;
            }
            proof {
                assert(!spec_names_contain(names@, text@));
            }
            Err(Error::Parse { key: key.clone(), text: text.clone() })
        }
        Shape::Newtype(inner) => decode_scalar(key, text, inner, mode),
        _ => Err(Error::ShapeMismatch { key: key.clone() }),
    }
}

/// Decode the texts of one key's cell under `shape`, consuming the cell.
pub fn decode_slot(key: &String, cell: ValOrVec, shape: &Shape, mode: EmptyPolicy) -> (r: Result<
    Value,
    Error,
>)
    ensures
        res_view(r) == spec_decode_slot(key@, cell@, *shape, mode),
    decreases *shape,
{
    match shape {
        Shape::Optional(inner) => {
            let absent = match cell.single_text() {
                Some(t) => t.as_str().is_empty() && mode == EmptyPolicy::EmptyIsNone,
                None => false,
            };
            if absent {
                Ok(Value::Null)
            } else {
                decode_slot(key, cell, inner, mode)
            }
        }
        Shape::List(inner) => {
            let texts = cell.into_sequence();
            let ghost all = texts.deep_view();
            let n = texts.len();
            let mut elems: Vec<Value> = Vec::new();
            let mut i: usize = 0;
            proof {
                assert(all.take(0) =~= Seq::<Seq<char>>::empty());
                crate::value::lemma_values_view(elems@);
                assert(crate::value::values_view(elems@) =~= Seq::<SpecValue>::empty());
            }
            while i < n
                invariant
                    *shape == Shape::List(*inner),
                    all == cell@,
                    n == texts@.len(),
                    all == texts.deep_view(),
                    0 <= i <= n,
                    spec_decode_elems(key@, all.take(i as int), **inner, mode)
                        == Ok::<_, SpecError>(crate::value::values_view(elems@)),
                decreases n - i,
            {
                let ghost prior = elems@;
                match decode_scalar(key, &texts[i], inner, mode) {
                    Ok(v) => {
                        elems.push(v);
                        proof {
                            assert(all.take(i + 1).drop_last() =~= all.take(i as int));
                            assert(all.take(i + 1).last() == all[i as int]);
                            assert(all[i as int] == texts@[i as int]@);
                            assert(elems@ =~= prior.push(v));
                            assert(elems@.drop_last() =~= prior);
                        }
                    }
                    Err(e) => {
                        proof {
                            assert(all[i as int] == texts@[i as int]@);
                            lemma_elems_prefix_error(key@, all, i as int, **inner, mode,
                                e.deep_view());
                        }
                        return Err(e);
                    }
                }
                i = i + 1;
            }
            proof {
                assert(all.take(n as int) =~= all);
            }
            let r = Value::List(elems);
            proof {
                assert(r.deep_view() matches SpecValue::List(vs)
                    && vs == crate::value::values_view(elems@));
            }
            Ok(r)
        }
        _ => {
            let mut texts = cell.into_sequence();
            if texts.len() == 1 {
                let t = texts.remove(0);
                proof {
                    assert(cell@[0] == t@);
                }
                decode_scalar(key, &t, shape, mode)
            } else {
                Err(Error::MultipleValues { key: key.clone() })
            }
        }
    }
}

/// If a prefix of the texts decodes and the next text fails, the whole list
/// fails with that error.
proof fn lemma_elems_prefix_error(
    key: Seq<char>,
    texts: Seq<Seq<char>>,
    at: int,
    elem: Shape,
    mode: EmptyPolicy,
    e: SpecError,
)
    requires
        0 <= at < texts.len(),
        spec_decode_elems(key, texts.take(at), elem, mode) is Ok,
        spec_decode_scalar(key, texts[at], elem, mode) == Err::<SpecValue, _>(e),
    ensures
        spec_decode_elems(key, texts, elem, mode) == Err::<Seq<SpecValue>, _>(e),
    decreases texts.len() - at,
{
    if at == texts.len() - 1 {
        assert(texts.drop_last() =~= texts.take(at));
        assert(texts.last() == texts[at]);
    } else {
        assert(texts.take(at + 1).drop_last() =~= texts.take(at));
        assert(texts.take(at + 1).last() == texts[at]);
        lemma_elems_prefix_error_err(key, texts, at + 1, elem, mode, e);
    }
}

/// An erring prefix makes the whole list err with the same error.
proof fn lemma_elems_prefix_error_err(
    key: Seq<char>,
    texts: Seq<Seq<char>>,
    upto: int,
    elem: Shape,
    mode: EmptyPolicy,
    e: SpecError,
)
    requires
        0 <= upto <= texts.len(),
        spec_decode_elems(key, texts.take(upto), elem, mode) == Err::<Seq<SpecValue>, _>(e),
    ensures
        spec_decode_elems(key, texts, elem, mode) == Err::<Seq<SpecValue>, _>(e),
    decreases texts.len() - upto,
{
    if upto == texts.len() {
        assert(texts.take(upto) =~= texts);
    } else {
        assert(texts.take(upto + 1).drop_last() =~= texts.take(upto));
        lemma_elems_prefix_error_err(key, texts, upto + 1, elem, mode, e);
    }
}


/// Decode a record's fields, in declaration order: a field with no entry is
/// absent if optional and missing otherwise; a decoded entry is consumed.
/// Keys that match no field are ignored.
pub open spec fn spec_decode_record(
    entries: SpecGrouped,
    fields: Seq<Field>,
    mode: EmptyPolicy,
) -> Result<Seq<(Seq<char>, SpecValue)>, SpecError>
    decreases fields,
{
    if fields.len() == 0 {
        Ok(Seq::empty())
    } else {
        let field = fields[0];
        let name = field.name@;
        let at = find_in(entries, name);
        if at == -1 {
            if field.shape is Optional {
                match spec_decode_record(entries, fields.drop_first(), mode) {
                    Ok(rest) => Ok(seq![(name, SpecValue::Null)] + rest),
                    Err(e) => Err(e),
                }
            } else {
                Err(SpecError::MissingField { key: name })
            }
        } else {
            match spec_decode_slot(name, entries[at].1, field.shape, mode) {
                Ok(v) => match spec_decode_record(entries.remove(at), fields.drop_first(), mode) {
                    Ok(rest) => Ok(seq![(name, v)] + rest),
                    Err(e) => Err(e),
                },
                Err(e) => Err(e),
            }
        }
    }
}

/// Decode every entry under one value shape, in first-occurrence key order.
pub open spec fn spec_decode_dict(
    entries: SpecGrouped,
    inner: Shape,
    mode: EmptyPolicy,
) -> Result<Seq<(Seq<char>, SpecValue)>, SpecError>
    decreases entries,
{
    if entries.len() == 0 {
        Ok(Seq::empty())
    } else {
        match spec_decode_slot(entries[0].0, entries[0].1, inner, mode) {
            Ok(v) => match spec_decode_dict(entries.drop_first(), inner, mode) {
                Ok(rest) => Ok(seq![(entries[0].0, v)] + rest),
                Err(e) => Err(e),
            },
            Err(e) => Err(e),
        }
    }
}

/// Index of the variant whose name is the tag text, or `-1`.
pub open spec fn spec_find_variant(variants: Seq<VariantShape>, text: Seq<char>) -> int
    decreases variants,
{
    if variants.len() == 0 {
        -1
    } else if variants[0].name@ == text {
        0
    } else {
        let rest = spec_find_variant(variants.drop_first(), text);
        if rest < 0 {
            -1
        } else {
            rest + 1
        }
    }
}

/// `spec_find_variant` names the first match, and `-1` means none.
pub proof fn lemma_find_variant(variants: Seq<VariantShape>, text: Seq<char>)
    ensures
        spec_find_variant(variants, text) == -1 ==> forall|j: int|
            0 <= j < variants.len() ==> (#[trigger] variants[j]).name@ != text,
        spec_find_variant(variants, text) != -1 ==> {
            let f = spec_find_variant(variants, text);
            &&& 0 <= f < variants.len()
            &&& variants[f].name@ == text
            &&& forall|j: int| 0 <= j < f ==> (#[trigger] variants[j]).name@ != text
        },
    decreases variants,
{
    if variants.len() > 0 {
        lemma_find_variant(variants.drop_first(), text);
        assert forall|j: int| 1 <= j < variants.len() implies variants.drop_first()[j - 1]
            == #[trigger] variants[j] by {}
    }
}

/// Decode an internally tagged enum in two phases: remove the tag entry and
/// read its lone text as the variant discriminator, then decode the
/// remaining entries as the chosen variant's fields.
pub open spec fn spec_decode_tagged(
    entries: SpecGrouped,
    tag: Seq<char>,
    variants: Seq<VariantShape>,
    mode: EmptyPolicy,
) -> Result<SpecValue, SpecError> {
    let at = find_in(entries, tag);
    if at == -1 {
        Err(SpecError::MissingField { key: tag })
    } else if entries[at].1.len() != 1 {
        Err(SpecError::MultipleValues { key: tag })
    } else {
        let text = entries[at].1[0];
        let vi = spec_find_variant(variants, text);
        if vi == -1 {
            Err(SpecError::Parse { key: tag, text })
        } else {
            match spec_decode_record(entries.remove(at), variants[vi].fields@, mode) {
                Ok(fs) => Ok(SpecValue::Tagged(text, fs)),
                Err(e) => Err(e),
            }
        }
    }
}

/// Decode one raw pair as a two-element tuple.
pub open spec fn spec_decode_pair(
    key: Seq<char>,
    value: Seq<char>,
    first: Shape,
    second: Shape,
    mode: EmptyPolicy,
) -> Result<SpecValue, SpecError> {
    match spec_decode_scalar(key, key, first, mode) {
        Ok(kv) => match spec_decode_scalar(key, value, second, mode) {
            Ok(vv) => Ok(SpecValue::Tuple2(Box::new(kv), Box::new(vv))),
            Err(e) => Err(e),
        },
        Err(e) => Err(e),
    }
}

/// Decode the raw pairs as tuples, in arrival order; the first failure wins.
pub open spec fn spec_decode_pairs_list(
    pairs: Seq<(Seq<char>, Seq<char>)>,
    first: Shape,
    second: Shape,
    mode: EmptyPolicy,
) -> Result<Seq<SpecValue>, SpecError>
    decreases pairs,
{
    if pairs.len() == 0 {
        Ok(Seq::empty())
    } else {
        match spec_decode_pairs_list(pairs.drop_last(), first, second, mode) {
            Ok(vs) => match spec_decode_pair(pairs.last().0, pairs.last().1, first, second,
                mode) {
                Ok(v) => Ok(vs.push(v)),
                Err(e) => Err(e),
            },
            Err(e) => Err(e),
        }
    }
}

/// Decode the whole input under a top-level shape.
///
/// The unit shape asks for an empty input; a list presents the raw pairs as
/// `(key, value)` tuples in arrival order; records, dictionaries and tagged
/// enums group the pairs by key first; a newtype unwraps. Any other
/// top-level shape is a mismatch: the flat format cannot carry it.
pub open spec fn spec_decode_top(
    pairs: Seq<(Seq<char>, Seq<char>)>,
    shape: Shape,
    mode: EmptyPolicy,
) -> Result<SpecValue, SpecError>
    decreases shape,
{
    match shape {
        Shape::Unit => if pairs.len() == 0 {
            Ok(SpecValue::Unit)
        } else {
            Err(SpecError::LengthMismatch { expected: 0, actual: pairs.len() as int })
        },
        Shape::Newtype(inner) => spec_decode_top(pairs, *inner, mode),
        Shape::Record(fields) => match spec_decode_record(spec_group(pairs), fields@, mode) {
            Ok(fs) => Ok(SpecValue::Record(fs)),
            Err(e) => Err(e),
        },
        Shape::Dict(inner) => match spec_decode_dict(spec_group(pairs), *inner, mode) {
            Ok(fs) => Ok(SpecValue::Record(fs)),
            Err(e) => Err(e),
        },
        Shape::TaggedEnum { tag, variants } => spec_decode_tagged(
            spec_group(pairs),
            tag@,
            variants@,
            mode,
        ),
        Shape::List(elem) => match *elem {
            Shape::Tuple2(first, second) => match spec_decode_pairs_list(pairs, *first, *second,
                mode) {
                Ok(vs) => Ok(SpecValue::List(vs)),
                Err(e) => Err(e),
            },
            _ => if pairs.len() == 0 {
                Ok(SpecValue::List(Seq::empty()))
            } else {
                Err(SpecError::ShapeMismatch { key: pairs[0].0 })
            },
        },
        _ => Err(SpecError::ShapeMismatch { key: Seq::empty() }),
    }
}

/// Decode a record's fields from the grouped entries, consuming them.
pub fn decode_record(grouped: GroupedMap, fields: &Vec<Field>, mode: EmptyPolicy) -> (r: Result<
    Vec<(String, Value)>,
    Error,
>)
    ensures
        (match r {
            Ok(out) => Ok::<_, SpecError>(crate::value::entries_view(out@)),
            Err(e) => Err(e.deep_view()),
        }) == spec_decode_record(grouped@, fields@, mode),
{
    let ghost start = grouped@;
    let ghost all_fields = fields@;
    let mut working = grouped;
    let mut out: Vec<(String, Value)> = Vec::new();
    let n = fields.len();
    let mut i: usize = 0;
    proof {
        assert(all_fields.skip(0) =~= all_fields);
        assert(crate::value::entries_view(out@) =~= Seq::<(Seq<char>, SpecValue)>::empty());
    }
    while i < n
        invariant
            start == grouped@,
            n == fields@.len(),
            all_fields == fields@,
            0 <= i <= n,
            spec_decode_record(start, all_fields, mode) == (
                match spec_decode_record(working@, all_fields.skip(i as int), mode) {
                    Ok(rest) => Ok::<_, SpecError>(crate::value::entries_view(out@) + rest),
                    Err(e) => Err(e),
                }
            ),
        decreases n - i,
    {
        let ghost sk = all_fields.skip(i as int);
        let ghost g_prev = working@;
        let ghost out_prev = out@;
        proof {
            assert(sk[0] == all_fields[i as int]);
            assert(sk.drop_first() =~= all_fields.skip(i + 1));
        }
        let field = &fields[i];
        match working.remove(&field.name) {
            None => {
                match &field.shape {
                    Shape::Optional(_) => {
                        out.push((field.name.clone(), Value::Null));
                        proof {
                            assert(out@.last().0@ == field.name@);
                            assert(out@.last().1 == Value::Null);
                            assert(out@.drop_last() =~= out_prev);
                            assert(crate::value::entries_view(out@)
                                == crate::value::entries_view(out@.drop_last()).push(
                                (out@.last().0@, crate::value::value_view(out@.last().1))));
                            assert(crate::value::entries_view(out@)
                                =~= crate::value::entries_view(out_prev)
                                    .push((field.name@, SpecValue::Null)));
                            assert forall|rest: Seq<(Seq<char>, SpecValue)>| true implies
                                crate::value::entries_view(out_prev)
                                    + (seq![(field.name@, SpecValue::Null)] + rest)
                                =~= crate::value::entries_view(out@) + rest by {}
                        }
                    }
                    _ => {
                        return Err(Error::MissingField { key: field.name.clone() });
                    }
                }
            }
            Some(cell) => {
                match decode_slot(&field.name, cell, &field.shape, mode) {
                    Ok(v) => {
                        let ghost vv = v.deep_view();
                        out.push((field.name.clone(), v));
                        proof {
                            assert(out@.last().0@ == field.name@);
                            assert(crate::value::value_view(out@.last().1) == vv);
                            assert(out@.drop_last() =~= out_prev);
                            assert(crate::value::entries_view(out@)
                                == crate::value::entries_view(out@.drop_last()).push(
                                (out@.last().0@, crate::value::value_view(out@.last().1))));
                            assert(crate::value::entries_view(out@)
                                =~= crate::value::entries_view(out_prev)
                                    .push((field.name@, vv)));
                            assert forall|rest: Seq<(Seq<char>, SpecValue)>| true implies
                                crate::value::entries_view(out_prev)
                                    + (seq![(field.name@, vv)] + rest)
                                =~= crate::value::entries_view(out@) + rest by {}
                        }
                    }
                    Err(e) => {
                        return Err(e);
                    }
                }
            }
        }
        i = i + 1;
    }
    proof {
        assert(all_fields.skip(n as int) =~= Seq::<Field>::empty());
        assert(crate::value::entries_view(out@) + Seq::<(Seq<char>, SpecValue)>::empty()
            =~= crate::value::entries_view(out@));
    }
    Ok(out)
}

/// Decode every entry of the grouped mapping under one value shape.
pub fn decode_dict(grouped: GroupedMap, inner: &Shape, mode: EmptyPolicy) -> (r: Result<
    Vec<(String, Value)>,
    Error,
>)
    ensures
        (match r {
            Ok(out) => Ok::<_, SpecError>(crate::value::entries_view(out@)),
            Err(e) => Err(e.deep_view()),
        }) == spec_decode_dict(grouped@, *inner, mode),
{
    let ghost start = grouped@;
    let mut entries = grouped.into_entries();
    let mut out: Vec<(String, Value)> = Vec::new();
    proof {
        assert(crate::value::entries_view(out@) =~= Seq::<(Seq<char>, SpecValue)>::empty());
    }
    while entries.len() > 0
        invariant
            start == grouped@,
            spec_decode_dict(start, *inner, mode) == (
                match spec_decode_dict(crate::group::map_entries_view(entries@), *inner, mode) {
                    Ok(rest) => Ok::<_, SpecError>(crate::value::entries_view(out@) + rest),
                    Err(e) => Err(e),
                }
            ),
        decreases entries.len(),
    {
        let ghost prev = crate::group::map_entries_view(entries@);
        let ghost out_prev = out@;
        let (key, cell) = entries.remove(0);
        proof {
            assert(crate::group::map_entries_view(entries@) =~= prev.drop_first());
            assert(prev[0] == (key@, cell@));
        }
        match decode_slot(&key, cell, inner, mode) {
            Ok(v) => {
                let ghost vv = v.deep_view();
                let ghost key_chars = key@;
                out.push((key, v));
                proof {
                    assert(out@.last().0@ == key_chars);
                    assert(crate::value::value_view(out@.last().1) == vv);
                    assert(out@.drop_last() =~= out_prev);
                    assert(crate::value::entries_view(out@)
                        == crate::value::entries_view(out@.drop_last()).push(
                        (out@.last().0@, crate::value::value_view(out@.last().1))));
                    assert(crate::value::entries_view(out@)
                        =~= crate::value::entries_view(out_prev).push((key_chars, vv)));
                    assert forall|rest: Seq<(Seq<char>, SpecValue)>| true implies
                        crate::value::entries_view(out_prev) + (seq![(key_chars, vv)] + rest)
                        =~= crate::value::entries_view(out@) + rest by {}
                }
            }
            Err(e) => {
                return Err(e);
            }
        }
    }
    proof {
        assert(crate::group::map_entries_view(entries@)
            =~= Seq::<(Seq<char>, Seq<Seq<char>>)>::empty());
        assert(crate::value::entries_view(out@) + Seq::<(Seq<char>, SpecValue)>::empty()
            =~= crate::value::entries_view(out@));
    }
    Ok(out)
}

/// Index of the variant whose declared name equals the tag text.
fn find_variant_index(variants: &Vec<VariantShape>, text: &String) -> (r: Option<usize>)
    ensures
        match r {
            Some(i) => spec_find_variant(variants@, text@) == i,
            None => spec_find_variant(variants@, text@) == -1,
        },
{
    proof {
        lemma_find_variant(variants@, text@);
    }
    let n = variants.len();
    let mut i: usize = 0;
    while i < n
        invariant
            n == variants@.len(),
            0 <= i <= n,
            forall|j: int| 0 <= j < i ==> (#[trigger] variants@[j]).name@ != text@,
        decreases n - i,
    {
        if str_eq(variants[i].name.as_str(), text.as_str()) {
            proof {
                lemma_find_variant(variants@, text@);
            }
            return Some(i);
        }
        i = i + 1;
    }
    None
}

/// Decode an internally tagged enum from the grouped entries.
pub fn decode_tagged(
    grouped: GroupedMap,
    tag: &String,
    vars: &Vec<VariantShape>,
    mode: EmptyPolicy,
) -> (r: Result<
    Value,
    Error,
>)
    ensures
        res_view(r) == spec_decode_tagged(grouped@, tag@, vars@, mode),
{
    let ghost start = grouped@;
    let mut working = grouped;
    let cell = match working.remove(tag) {
        Some(cell) => cell,
        None => {
            return Err(Error::MissingField { key: tag.clone() });
        }
    };
    let mut texts = cell.into_sequence();
    if texts.len() != 1 {
        return Err(Error::MultipleValues { key: tag.clone() });
    }
    let text = texts.remove(0);
    proof {
        lemma_find_variant(vars@, text@);
        lemma_find_in(start, tag@);
    }
    let vi = match find_variant_index(vars, &text) {
        Some(vi) => vi,
        None => {
            return Err(Error::Parse { key: tag.clone(), text });
        }
    };
    match decode_record(working, &vars[vi].fields, mode) {
        Ok(fields) => {
            let r = Value::Tagged(text, fields);
            proof {
                assert(r.deep_view() matches SpecValue::Tagged(t, fs)
                    && t == text@ && fs == crate::value::entries_view(fields@));
            }
            Ok(r)
        }
        Err(e) => Err(e),
    }
}

/// If a prefix of the pairs decodes and the next pair fails, the whole list
/// fails with that error.
proof fn lemma_pairs_prefix_error(
    pairs: Seq<(Seq<char>, Seq<char>)>,
    at: int,
    first: Shape,
    second: Shape,
    mode: EmptyPolicy,
    e: SpecError,
)
    requires
        0 <= at < pairs.len(),
        spec_decode_pairs_list(pairs.take(at), first, second, mode) is Ok,
        spec_decode_pair(pairs[at].0, pairs[at].1, first, second, mode)
            == Err::<SpecValue, _>(e),
    ensures
        spec_decode_pairs_list(pairs, first, second, mode) == Err::<Seq<SpecValue>, _>(e),
    decreases pairs.len() - at,
{
    if at == pairs.len() - 1 {
        assert(pairs.drop_last() =~= pairs.take(at));
        assert(pairs.last() == pairs[at]);
    } else {
        assert(pairs.take(at + 1).drop_last() =~= pairs.take(at));
        assert(pairs.take(at + 1).last() == pairs[at]);
        lemma_pairs_prefix_error_err(pairs, at + 1, first, second, mode, e);
    }
}

/// An erring prefix makes the whole pair list err with the same error.
proof fn lemma_pairs_prefix_error_err(
    pairs: Seq<(Seq<char>, Seq<char>)>,
    upto: int,
    first: Shape,
    second: Shape,
    mode: EmptyPolicy,
    e: SpecError,
)
    requires
        0 <= upto <= pairs.len(),
        spec_decode_pairs_list(pairs.take(upto), first, second, mode)
            == Err::<Seq<SpecValue>, _>(e),
    ensures
        spec_decode_pairs_list(pairs, first, second, mode) == Err::<Seq<SpecValue>, _>(e),
    decreases pairs.len() - upto,
{
    if upto == pairs.len() {
        assert(pairs.take(upto) =~= pairs);
    } else {
        assert(pairs.take(upto + 1).drop_last() =~= pairs.take(upto));
        lemma_pairs_prefix_error_err(pairs, upto + 1, first, second, mode, e);
    }
}

/// Decode the raw pairs as a list of `(key, value)` tuples.
fn decode_pair_list(pairs: &Vec<(String, String)>, first: &Shape, second: &Shape, mode: EmptyPolicy) -> (r: Result<
    Value,
    Error,
>)
    ensures
        (match r {
            Ok(v) => Ok::<_, SpecError>(v.deep_view()),
            Err(e) => Err(e.deep_view()),
        }) == (match spec_decode_pairs_list(pairs.deep_view(), *first, *second, mode) {
            Ok(vs) => Ok::<_, SpecError>(SpecValue::List(vs)),
            Err(e) => Err(e),
        }),
{
    let ghost dv = pairs.deep_view();
    let n = pairs.len();
    let mut out: Vec<Value> = Vec::new();
    let mut i: usize = 0;
    proof {
        assert(dv.take(0) =~= Seq::<(Seq<char>, Seq<char>)>::empty());
        crate::value::lemma_values_view(out@);
        assert(crate::value::values_view(out@) =~= Seq::<SpecValue>::empty());
    }
    while i < n
        invariant
            n == pairs@.len(),
            dv == pairs.deep_view(),
            0 <= i <= n,
            spec_decode_pairs_list(dv.take(i as int), *first, *second, mode)
                == Ok::<_, SpecError>(crate::value::values_view(out@)),
        decreases n - i,
    {
        let ghost out_prev = out@;
        proof {
            assert(dv[i as int] == (pairs@[i as int].0@, pairs@[i as int].1@));
        }
        let kv = match decode_scalar(&pairs[i].0, &pairs[i].0, first, mode) {
            Ok(kv) => kv,
            Err(e) => {
                proof {
                    lemma_pairs_prefix_error(dv, i as int, *first, *second, mode, e.deep_view());
                }
                return Err(e);
            }
        };
        let vv = match decode_scalar(&pairs[i].0, &pairs[i].1, second, mode) {
            Ok(vv) => vv,
            Err(e) => {
                proof {
                    lemma_pairs_prefix_error(dv, i as int, *first, *second, mode, e.deep_view());
                }
                return Err(e);
            }
        };
        let tuple = Value::Tuple2(Box::new(kv), Box::new(vv));
        let ghost tv = tuple.deep_view();
        out.push(tuple);
        proof {
            assert(dv.take(i + 1).drop_last() =~= dv.take(i as int));
            assert(dv.take(i + 1).last() == dv[i as int]);
            assert(out@.drop_last() =~= out_prev);
            assert(crate::value::values_view(out@)
                == crate::value::values_view(out@.drop_last()).push(
                crate::value::value_view(out@.last())));
            assert(crate::value::values_view(out@)
                =~= crate::value::values_view(out_prev).push(tv));
        }
        i = i + 1;
    }
    proof {
        assert(dv.take(n as int) =~= dv);
    }
    let r = Value::List(out);
    proof {
        assert(r.deep_view() matches SpecValue::List(vs)
            && vs == crate::value::values_view(out@));
    }
    Ok(r)
}

/// Decode a whole decoded pair sequence under a top-level shape.
pub fn decode_pairs(pairs: &Vec<(String, String)>, shape: &Shape, mode: EmptyPolicy) -> (r: Result<
    Value,
    Error,
>)
    ensures
        res_view(r) == spec_decode_top(pairs.deep_view(), *shape, mode),
    decreases *shape,
{
    match shape {
        Shape::Unit => {
            if pairs.len() == 0 {
                proof {
                    assert(pairs.deep_view().len() == 0);
                }
                Ok(Value::Unit)
            } else {
                proof {
                    assert(pairs.deep_view().len() == pairs@.len());
                }
                Err(Error::LengthMismatch { expected: 0, actual: pairs.len() })
            }
        }
        Shape::Newtype(inner) => decode_pairs(pairs, inner, mode),
        Shape::Record(fields) => {
            let grouped = group_entries(pairs);
            match decode_record(grouped, fields, mode) {
                Ok(fs) => {
                    let r = Value::Record(fs);
                    proof {
                        assert(r.deep_view() matches SpecValue::Record(es)
                            && es == crate::value::entries_view(fs@));
                    }
                    Ok(r)
                }
                Err(e) => Err(e),
            }
        }
        Shape::Dict(inner) => {
            let grouped = group_entries(pairs);
            match decode_dict(grouped, inner, mode) {
                Ok(fs) => {
                    let r = Value::Record(fs);
                    proof {
                        assert(r.deep_view() matches SpecValue::Record(es)
                            && es == crate::value::entries_view(fs@));
                    }
                    Ok(r)
                }
                Err(e) => Err(e),
            }
        }
        Shape::TaggedEnum { tag, variants } => {
            let grouped = group_entries(pairs);
            decode_tagged(grouped, tag, variants, mode)
        }
        Shape::List(elem) => match &**elem {
            Shape::Tuple2(first, second) => decode_pair_list(pairs, first, second, mode),
            _ => {
                if pairs.len() == 0 {
                    let empty: Vec<Value> = Vec::new();
                    let r = Value::List(empty);
                    proof {
                        crate::value::lemma_values_view(empty@);
                        assert(r.deep_view() matches SpecValue::List(vs)
                            && vs =~= Seq::<SpecValue>::empty());
                    }
                    Ok(r)
                } else {
                    proof {
                        assert(pairs.deep_view()[0] == (pairs@[0].0@, pairs@[0].1@));
                    }
                    Err(Error::ShapeMismatch { key: pairs[0].0.clone() })
                }
            }
        },
        _ => {
            let empty_key = String::new();
            proof {
                assert(empty_key@ =~= Seq::<char>::empty());
            }
            Err(Error::ShapeMismatch { key: empty_key })
        }
    }
}

/// A decoder for one input: the decoded pair sequence and the empty policy
/// chosen at construction time.
#[derive(Debug)]
pub struct Deserializer {
    pairs: Vec<(String, String)>,
    mode: EmptyPolicy,
}

impl Deserializer {
    /// The decoded pair sequence this decoder reads.
    pub closed spec fn input(&self) -> Seq<(Seq<char>, Seq<char>)> {
        self.pairs.deep_view()
    }

    /// The empty policy this decoder applies.
    pub closed spec fn policy(&self) -> EmptyPolicy {
        self.mode
    }

    /// A decoder over an already decoded pair sequence.
    pub fn new(pairs: Vec<(String, String)>, mode: EmptyPolicy) -> (r: Deserializer)
        ensures
            r.input() == pairs.deep_view(),
            r.policy() == mode,
    {
        Deserializer { pairs, mode }
    }

    /// A decoder over the pairs parsed from the given wire bytes.
    pub fn from_bytes(input: &[u8], mode: EmptyPolicy) -> (r: Deserializer)
        ensures
            r.input() == crate::wire::form_pairs_of(input@),
            r.policy() == mode,
    {
        Deserializer::new(crate::wire::parse_form_bytes(input), mode)
    }

    /// Decode the input under a top-level shape.
    pub fn deserialize(&self, shape: &Shape) -> (r: Result<Value, Error>)
        ensures
            res_view(r) == spec_decode_top(self.input(), *shape, self.policy()),
    {
        decode_pairs(&self.pairs, shape, self.mode)
    }
}

/// Decode a value of the given shape from wire bytes, under the default
/// policy: an empty text decodes an optional text as absent.
pub fn from_bytes(input: &[u8], shape: &Shape) -> (r: Result<Value, Error>)
    ensures
        res_view(r) == spec_decode_top(
            crate::wire::form_pairs_of(input@),
            *shape,
            EmptyPolicy::EmptyIsNone,
        ),
{
    Deserializer::from_bytes(input, EmptyPolicy::EmptyIsNone).deserialize(shape)
}

/// Decode a value of the given shape from wire text, under the default
/// policy.
pub fn from_str(input: &str, shape: &Shape) -> (r: Result<Value, Error>)
    ensures
        res_view(r) == spec_decode_top(
            crate::wire::form_pairs_of(input.spec_bytes()),
            *shape,
            EmptyPolicy::EmptyIsNone,
        ),
{
    from_bytes(input.as_bytes(), shape)
}

} // verus!
