//! Encoding: from a structured value to ordered key/value text pairs and to
//! wire text.
//!
//! The serializer walks a record depth-first: one pair per scalar field in
//! declaration order, an absent optional field omitted entirely, a list
//! field one pair per element under the repeated key. A sequence nested
//! inside a sequence has no representation in a flat format and fails.
//! Scalars render canonically: booleans as `true`/`false`, integers in
//! canonical decimal, floats as their kept literal text, unit variants as
//! their declared name. Percent-encoding of the finished pairs is delegated
//! to the wire boundary.

use vstd::prelude::*;

use crate::error::{Error, SpecError};
use crate::text::{int_text, render_i128, render_u128};
use crate::value::{entries_view, SpecValue, Value};
use crate::wire::{form_encode_str, form_encoded_of};

verus! {

/// The canonical text of a scalar value; `None` for a value that is not a
/// scalar.
pub open spec fn spec_render_scalar(v: SpecValue) -> Option<Seq<char>> {
    match v {
        SpecValue::Bool(b) => Some(
            if b {
                seq!['t', 'r', 'u', 'e']
            } else {
                seq!['f', 'a', 'l', 's', 'e']
            },
        ),
        SpecValue::Int(i) => Some(int_text(i)),
        SpecValue::Float(t) => Some(t),
        SpecValue::Text(t) => Some(t),
        SpecValue::Variant(n) => Some(n),
        _ => None,
    }
}

/// Encode the elements of a list field: one pair per element under the
/// list's key, an absent element omitted; an element that is not a scalar
/// cannot stand in a flat pair and fails.
pub open spec fn spec_encode_list(key: Seq<char>, elems: Seq<SpecValue>) -> Result<
    Seq<(Seq<char>, Seq<char>)>,
    SpecError,
>
    decreases elems,
{
    if elems.len() == 0 {
        Ok(Seq::empty())
    } else {
        match spec_encode_list(key, elems.drop_last()) {
            Ok(front) => match elems.last() {
                SpecValue::Null => Ok(front),
                v => match spec_render_scalar(v) {
                    Some(text) => Ok(front.push((key, text))),
                    None => Err(SpecError::UnsupportedValue),
                },
            },
            Err(e) => Err(e),
        }
    }
}

/// Encode one named field: nothing for an absent or unit value, one pair
/// for a scalar, one pair per element for a list; any nested structure
/// fails.
pub open spec fn spec_encode_field(key: Seq<char>, v: SpecValue) -> Result<
    Seq<(Seq<char>, Seq<char>)>,
    SpecError,
> {
    match v {
        SpecValue::Null => Ok(Seq::empty()),
        SpecValue::Unit => Ok(Seq::empty()),
        SpecValue::List(elems) => spec_encode_list(key, elems),
        _ => match spec_render_scalar(v) {
            Some(text) => Ok(seq![(key, text)]),
            None => Err(SpecError::UnsupportedValue),
        },
    }
}

/// Encode a record's entries in order, concatenating their pairs.
pub open spec fn spec_encode_entries(entries: Seq<(Seq<char>, SpecValue)>) -> Result<
    Seq<(Seq<char>, Seq<char>)>,
    SpecError,
>
    decreases entries,
{
    if entries.len() == 0 {
        Ok(Seq::empty())
    } else {
        match spec_encode_entries(entries.drop_last()) {
            Ok(front) => match spec_encode_field(entries.last().0, entries.last().1) {
                Ok(ps) => Ok(front + ps),
                Err(e) => Err(e),
            },
            Err(e) => Err(e),
        }
    }
}

/// Encode a whole value: a record flattens to its fields' pairs, the unit
/// value to nothing; any other top-level value has no flat representation.
pub open spec fn spec_encode_top(v: SpecValue) -> Result<
    Seq<(Seq<char>, Seq<char>)>,
    SpecError,
> {
    match v {
        SpecValue::Unit => Ok(Seq::empty()),
        SpecValue::Record(entries) => spec_encode_entries(entries),
        _ => Err(SpecError::UnsupportedValue),
    }
}

/// The percent-encoded wire form of one pair.
pub open spec fn spec_pair_text(p: (Seq<char>, Seq<char>)) -> Seq<char> {
    form_encoded_of(p.0) + seq!['='] + form_encoded_of(p.1)
}

/// The percent-encoded wire form of a pair sequence, `&`-separated.
pub open spec fn spec_wire_text(pairs: Seq<(Seq<char>, Seq<char>)>) -> Seq<char>
    decreases pairs,
{
    if pairs.len() == 0 {
        Seq::empty()
    } else if pairs.len() == 1 {
        spec_pair_text(pairs[0])
    } else {
        spec_wire_text(pairs.drop_last()) + seq!['&'] + spec_pair_text(pairs.last())
    }
}

/// Render one scalar value canonically.
fn render_scalar(v: &Value) -> (r: Option<String>)
    ensures
        match r {
            Some(s) => spec_render_scalar(v.deep_view()) == Some(s@),
            None => spec_render_scalar(v.deep_view()) is None,
        },
{
    match v {
        Value::Bool(b) => {
            proof {
                reveal_strlit("true");
                reveal_strlit("false");
                assert("true"@ =~= seq!['t', 'r', 'u', 'e']);
                assert("false"@ =~= seq!['f', 'a', 'l', 's', 'e']);
            }
            if *b {
                Some(String::from_str("true"))
            } else {
                Some(String::from_str("false"))
            }
        }
        Value::Int(i) => Some(render_i128(*i)),
        Value::UInt(u) => {
            let s = render_u128(*u);
            proof {
                assert(int_text(*u as int) == crate::text::uint_text(*u as int));
            }
            Some(s)
        }
        Value::Float(t) => Some(t.clone()),
        Value::Text(t) => Some(t.clone()),
        Value::Variant(n) => Some(n.clone()),
        _ => None,
    }
}

/// An erring prefix of the elements makes the whole list err.
proof fn lemma_encode_list_prefix_err(
    key: Seq<char>,
    elems: Seq<SpecValue>,
    upto: int,
    e: SpecError,
)
    requires
        0 <= upto <= elems.len(),
        spec_encode_list(key, elems.take(upto)) == Err::<Seq<(Seq<char>, Seq<char>)>, _>(e),
    ensures
        spec_encode_list(key, elems) == Err::<Seq<(Seq<char>, Seq<char>)>, _>(e),
    decreases elems.len() - upto,
{
    if upto == elems.len() {
        assert(elems.take(upto) =~= elems);
    } else {
        assert(elems.take(upto + 1).drop_last() =~= elems.take(upto));
        lemma_encode_list_prefix_err(key, elems, upto + 1, e);
    }
}

/// An erring prefix of the entries makes the whole record err.
proof fn lemma_encode_entries_prefix_err(
    entries: Seq<(Seq<char>, SpecValue)>,
    upto: int,
    e: SpecError,
)
    requires
        0 <= upto <= entries.len(),
        spec_encode_entries(entries.take(upto)) == Err::<Seq<(Seq<char>, Seq<char>)>, _>(e),
    ensures
        spec_encode_entries(entries) == Err::<Seq<(Seq<char>, Seq<char>)>, _>(e),
    decreases entries.len() - upto,
{
    if upto == entries.len() {
        assert(entries.take(upto) =~= entries);
    } else {
        assert(entries.take(upto + 1).drop_last() =~= entries.take(upto));
        lemma_encode_entries_prefix_err(entries, upto + 1, e);
    }
}

/// Append the pairs of one list field to `out`.
fn encode_list_into(out: &mut Vec<(String, String)>, key: &String, elems: &Vec<Value>) -> (r:
    Result<(), Error>)
    ensures
        match r {
            Ok(_) => spec_encode_list(key@, elems.deep_view()) matches Ok(ps)
                && final(out).deep_view() == old(out).deep_view() + ps,
            Err(e) => spec_encode_list(key@, elems.deep_view()) == Err::<
                Seq<(Seq<char>, Seq<char>)>,
                _,
            >(e.deep_view()),
        },
{
    let ghost ev = elems.deep_view();
    let ghost base = out.deep_view();
    let n = elems.len();
    let mut i: usize = 0;
    proof {
        assert(ev.take(0) =~= Seq::<SpecValue>::empty());
        assert(base + Seq::<(Seq<char>, Seq<char>)>::empty() =~= base);
    }
    while i < n
        invariant
            n == elems@.len(),
            ev == elems.deep_view(),
            base == old(out).deep_view(),
            0 <= i <= n,
            spec_encode_list(key@, ev.take(i as int)) matches Ok(ps)
                && out.deep_view() == base + ps,
        decreases n - i,
    {
        let ghost out_prev = out.deep_view();
        proof {
            assert(ev.take(i + 1).drop_last() =~= ev.take(i as int));
            assert(ev.take(i + 1).last() == ev[i as int]);
            assert(ev[i as int] == crate::value::value_view(elems@[i as int]));
        }
        let skip = match &elems[i] {
            Value::Null => true,
            _ => false,
        };
        if !skip {
            match render_scalar(&elems[i]) {
                Some(text) => {
                    let ghost tv = text@;
                    out.push((key.clone(), text));
                    proof {
                        assert(out.deep_view() =~= out_prev.push((key@, tv)));
                    }
                }
                None => {
                    proof {
                        lemma_encode_list_prefix_err(key@, ev, i + 1, SpecError::UnsupportedValue);
                    }
                    return Err(Error::UnsupportedValue);
                }
            }
        }
        proof {
            match spec_encode_list(key@, ev.take(i + 1)) {
                Ok(ps) => {
                    assert(out.deep_view() =~= base + ps);
                }
                Err(_) => {
                    assert(false);
                }
            }
        }
        i = i + 1;
    }
    proof {
        assert(ev.take(n as int) =~= ev);
    }
    Ok(())
}

/// Append the pairs of one named field to `out`.
fn encode_field_into(out: &mut Vec<(String, String)>, key: &String, v: &Value) -> (r: Result<
    (),
    Error,
>)
    ensures
        match r {
            Ok(_) => spec_encode_field(key@, v.deep_view()) matches Ok(ps)
                && final(out).deep_view() == old(out).deep_view() + ps,
            Err(e) => spec_encode_field(key@, v.deep_view()) == Err::<
                Seq<(Seq<char>, Seq<char>)>,
                _,
            >(e.deep_view()),
        },
{
    match v {
        Value::Null => {
            proof {
                assert(out.deep_view() + Seq::<(Seq<char>, Seq<char>)>::empty()
                    =~= out.deep_view());
            }
            Ok(())
        }
        Value::Unit => {
            proof {
                assert(out.deep_view() + Seq::<(Seq<char>, Seq<char>)>::empty()
                    =~= out.deep_view());
            }
            Ok(())
        }
        Value::List(elems) => {
            proof {
                crate::value::lemma_values_view(elems@);
                assert(elems.deep_view() =~= crate::value::values_view(elems@));
            }
            encode_list_into(out, key, elems)
        }
        _ => {
            match render_scalar(v) {
                Some(text) => {
                    let ghost base = out.deep_view();
                    let ghost tv = text@;
                    out.push((key.clone(), text));
                    proof {
                        assert(out.deep_view() =~= base + seq![(key@, tv)]);
                    }
                    Ok(())
                }
                None => Err(Error::UnsupportedValue),
            }
        }
    }
}

/// Flatten a value into its ordered pairs of decoded key and value text.
pub fn encode_pairs(v: &Value) -> (r: Result<Vec<(String, String)>, Error>)
    ensures
        (match r {
            Ok(out) => Ok::<_, SpecError>(out.deep_view()),
            Err(e) => Err(e.deep_view()),
        }) == spec_encode_top(v.deep_view()),
{
    match v {
        Value::Unit => {
            let out: Vec<(String, String)> = Vec::new();
            proof {
                assert(out.deep_view() =~= Seq::<(Seq<char>, Seq<char>)>::empty());
            }
            Ok(out)
        }
        Value::Record(fs) => {
            let ghost ev = entries_view(fs@);
            let mut out: Vec<(String, String)> = Vec::new();
            let n = fs.len();
            let mut i: usize = 0;
            proof {
                crate::value::lemma_entries_view(fs@);
                assert(ev.take(0) =~= Seq::<(Seq<char>, SpecValue)>::empty());
                assert(out.deep_view() =~= Seq::<(Seq<char>, Seq<char>)>::empty());
            }
            while i < n
                invariant
                    *v == Value::Record(*fs),
                    n == fs@.len(),
                    ev == entries_view(fs@),
                    ev.len() == n,
                    forall|j: int| 0 <= j < n ==> ev[j]
                        == ((#[trigger] fs@[j]).0@, crate::value::value_view(fs@[j].1)),
                    0 <= i <= n,
                    spec_encode_entries(ev.take(i as int)) matches Ok(ps)
                        && out.deep_view() == ps,
                decreases n - i,
            {
                let ghost out_prev = out.deep_view();
                proof {
                    assert(ev.take(i + 1).drop_last() =~= ev.take(i as int));
                    assert(ev.take(i + 1).last() == ev[i as int]);
                }
                match encode_field_into(&mut out, &fs[i].0, &fs[i].1) {
                    Ok(_) => {
                        proof {
                            match spec_encode_entries(ev.take(i + 1)) {
                                Ok(ps) => {
                                    assert(out.deep_view() =~= ps);
                                }
                                Err(_) => {
                                    assert(false);
                                }
                            }
                        }
                    }
                    Err(e) => {
                        proof {
                            lemma_encode_entries_prefix_err(ev, i + 1, e.deep_view());
                        }
                        return Err(e);
                    }
                }
                i = i + 1;
            }
            proof {
                assert(ev.take(n as int) =~= ev);
            }
            Ok(out)
        }
        _ => Err(Error::UnsupportedValue),
    }
}

/// Encode a value as wire text: flatten it to pairs, then percent-encode
/// and join them.
pub fn to_string(v: &Value) -> (r: Result<String, Error>)
    ensures
        match r {
            Ok(s) => spec_encode_top(v.deep_view()) matches Ok(ps) && s@ == spec_wire_text(ps),
            Err(e) => spec_encode_top(v.deep_view()) == Err::<
                Seq<(Seq<char>, Seq<char>)>,
                _,
            >(e.deep_view()),
        },
{
    let pairs = match encode_pairs(v) {
        Ok(pairs) => pairs,
        Err(e) => {
            return Err(e);
        }
    };
    let ghost dv = pairs.deep_view();
    let n = pairs.len();
    let mut out = String::new();
    let mut i: usize = 0;
    proof {
        reveal_strlit("&");
        reveal_strlit("=");
        assert(out@ =~= spec_wire_text(dv.take(0)));
    }
    while i < n
        invariant
            n == pairs@.len(),
            dv == pairs.deep_view(),
            0 <= i <= n,
            out@ == spec_wire_text(dv.take(i as int)),
        decreases n - i,
    {
        let ghost before = out@;
        proof {
            reveal_strlit("&");
            reveal_strlit("=");
            assert(dv[i as int] == (pairs@[i as int].0@, pairs@[i as int].1@));
            assert(dv.take(i + 1).drop_last() =~= dv.take(i as int));
            assert(dv.take(i + 1).last() == dv[i as int]);
        }
        if i > 0 {
            out.append("&");
        }
        let encoded_key = form_encode_str(pairs[i].0.as_str());
        out.append(encoded_key.as_str());
        out.append("=");
        let encoded_value = form_encode_str(pairs[i].1.as_str());
        out.append(encoded_value.as_str());
        proof {
            if i == 0 {
                assert(out@ =~= spec_pair_text(dv[0]));
                assert(dv.take(1).len() == 1);
                assert(dv.take(1)[0] == dv[0]);
            } else {
                assert(out@ =~= spec_wire_text(dv.take(i as int)) + seq!['&']
                    + spec_pair_text(dv[i as int]));
                assert(dv.take(i + 1).len() > 1);
            }
            assert(out@ =~= spec_wire_text(dv.take(i + 1)));
        }
        i = i + 1;
    }
    proof {
        assert(dv.take(n as int) =~= dv);
    }
    Ok(out)
}

} // verus!
