//! Round-trip laws of the codec.
//!
//! Decoding is the left inverse of encoding on the unambiguous fragment of
//! the format: for a record whose fields fit their shapes and whose
//! encoding loses nothing, decoding the encoded pairs yields the record
//! back. Read the other way, any pair sequence in the image of the encoder
//! decodes to the value it was encoded from, so encoding after decoding
//! reproduces such input exactly.

use vstd::prelude::*;

use crate::de::{
    spec_decode_elems, spec_decode_record, spec_decode_scalar, spec_decode_slot,
    spec_names_contain,
};
use crate::error::SpecError;
use crate::float::is_float_text;
use crate::group::{
    find_in, first_occurrences, grouped_keys, lemma_find_in,
    lemma_group_keeps_first_occurrence_order, pair_keys, spec_group, SpecGrouped,
};
use crate::ser::{
    spec_encode_entries, spec_encode_field, spec_encode_list, spec_render_scalar,
};
use crate::shape::{EmptyPolicy, Field, Shape};
use crate::text::parse_bool_text;
use crate::value::SpecValue;

verus! {

/// A scalar value of a scalar shape whose canonical text parses back.
pub open spec fn scalar_fits(v: SpecValue, shape: Shape) -> bool {
    match shape {
        Shape::Bool => v is Bool,
        Shape::Int(k) => v matches SpecValue::Int(i) && k.fits(i),
        Shape::Float => v matches SpecValue::Float(t) && is_float_text(t),
        Shape::Text => v is Text,
        Shape::UnitEnum(names) => v matches SpecValue::Variant(n)
            && spec_names_contain(names@, n),
        _ => false,
    }
}

/// A field value the flat format represents without loss under its shape:
/// a fitting scalar; an option that is absent, or holds a fitting scalar
/// whose text the empty policy will not mistake for absence; or a nonempty
/// list of fitting scalars.
pub open spec fn field_fits(v: SpecValue, shape: Shape, mode: EmptyPolicy) -> bool {
    match shape {
        Shape::Optional(inner) => v is Null || (scalar_fits(v, *inner) && (mode
            == EmptyPolicy::EmptyIsSome || (spec_render_scalar(v) matches Some(t)
            && t.len() > 0))),
        Shape::List(elem) => v matches SpecValue::List(vs) && vs.len() > 0
            && (forall|i: int| 0 <= i < vs.len() ==> scalar_fits(#[trigger] vs[i], *elem)),
        _ => scalar_fits(v, shape),
    }
}

/// A record the flat format represents without loss: one value per field,
/// under the field's name, field names pairwise distinct, every value
/// fitting its field's shape.
pub open spec fn record_fits(
    entries: Seq<(Seq<char>, SpecValue)>,
    fields: Seq<Field>,
    mode: EmptyPolicy,
) -> bool {
    &&& entries.len() == fields.len()
    &&& forall|i: int| 0 <= i < entries.len() ==> (#[trigger] entries[i]).0
        == fields[i].name@
    &&& forall|i: int, j: int| 0 <= i < j < fields.len() ==> (#[trigger] fields[i].name@)
        != (#[trigger] fields[j].name@)
    &&& forall|i: int| 0 <= i < entries.len() ==> field_fits(
        (#[trigger] entries[i]).1,
        fields[i].shape,
        mode,
    )
}

/// A fitting scalar renders, and its canonical text decodes back to it
/// under any key and policy.
pub proof fn lemma_scalar_round_trip(key: Seq<char>, v: SpecValue, shape: Shape, mode: EmptyPolicy)
    requires
        scalar_fits(v, shape),
    ensures
        spec_render_scalar(v) is Some,
        spec_decode_scalar(key, spec_render_scalar(v)->Some_0, shape, mode) == Ok::<
            _,
            SpecError,
        >(v),
{
    match shape {
        Shape::Bool => {
            assert(parse_bool_text(seq!['t', 'r', 'u', 'e']) == Some(true));
            assert(seq!['f', 'a', 'l', 's', 'e'] != seq!['t', 'r', 'u', 'e']);
            assert(parse_bool_text(seq!['f', 'a', 'l', 's', 'e']) == Some(false));
        }
        Shape::Int(k) => {
            let i = v->Int_0;
            crate::text::lemma_int_text_round_trip(i, k);
        }
        _ => {}
    }
}

/// The value texts of a pair sequence, in order.
pub open spec fn pair_values(ps: Seq<(Seq<char>, Seq<char>)>) -> Seq<Seq<char>> {
    ps.map_values(|p: (Seq<char>, Seq<char>)| p.1)
}

/// Encoding a list of fitting scalars yields one pair per element under the
/// list's key, and decoding those texts as elements gives the list back.
proof fn lemma_list_round_trip(key: Seq<char>, vs: Seq<SpecValue>, elem: Shape, mode: EmptyPolicy)
    requires
        forall|i: int| 0 <= i < vs.len() ==> scalar_fits(#[trigger] vs[i], elem),
    ensures
        (spec_encode_list(key, vs) matches Ok(ps) && {
            &&& ps.len() == vs.len()
            &&& forall|i: int| 0 <= i < ps.len() ==> (#[trigger] ps[i]).0 == key
            &&& spec_decode_elems(key, pair_values(ps), elem, mode) == Ok::<_, SpecError>(vs)
        }),
    decreases vs,
{
    if vs.len() == 0 {
        assert(vs =~= Seq::<SpecValue>::empty());
        assert(spec_encode_list(key, vs) == Ok::<Seq<(Seq<char>, Seq<char>)>, SpecError>(
            Seq::empty()));
        assert(pair_values(Seq::<(Seq<char>, Seq<char>)>::empty())
            =~= Seq::<Seq<char>>::empty());
    } else {
        lemma_list_round_trip(key, vs.drop_last(), elem, mode);
        let front = spec_encode_list(key, vs.drop_last())->Ok_0;
        let last = vs.last();
        lemma_scalar_round_trip(key, last, elem, mode);
        let text = spec_render_scalar(last)->Some_0;
        assert(!(last is Null));
        let ps = front.push((key, text));
        assert(spec_encode_list(key, vs) == Ok::<_, SpecError>(ps));
        assert(pair_values(ps) =~= pair_values(front).push(text));
        assert(pair_values(ps).drop_last() =~= pair_values(front));
        assert(pair_values(ps).last() == text);
        assert(vs.drop_last().push(last) =~= vs);
    }
}

/// The pairs of a fitting present field decode back to its value at the
/// cell level, under the same policy.
proof fn lemma_field_slot_round_trip(key: Seq<char>, v: SpecValue, shape: Shape, mode: EmptyPolicy)
    requires
        field_fits(v, shape, mode),
        !(v is Null),
    ensures
        (spec_encode_field(key, v) matches Ok(ps) && {
            &&& ps.len() > 0
            &&& forall|i: int| 0 <= i < ps.len() ==> (#[trigger] ps[i]).0 == key
            &&& spec_decode_slot(key, pair_values(ps), shape, mode) == Ok::<_, SpecError>(v)
        }),
{
    match shape {
        Shape::Optional(inner) => {
            lemma_scalar_round_trip(key, v, *inner, mode);
            let text = spec_render_scalar(v)->Some_0;
            let ps = seq![(key, text)];
            assert(spec_encode_field(key, v) == Ok::<_, SpecError>(ps));
            assert(pair_values(ps) =~= seq![text]);
            assert(spec_decode_slot(key, seq![text], *inner, mode)
                == spec_decode_scalar(key, text, *inner, mode));
        }
        Shape::List(elem) => {
            let vs = v->List_0;
            lemma_list_round_trip(key, vs, *elem, mode);
        }
        _ => {
            lemma_scalar_round_trip(key, v, shape, mode);
            let text = spec_render_scalar(v)->Some_0;
            let ps = seq![(key, text)];
            assert(spec_encode_field(key, v) == Ok::<_, SpecError>(ps));
            assert(pair_values(ps) =~= seq![text]);
        }
    }
}

/// A key among the first occurrences occurs in the sequence.
proof fn lemma_first_occurrences_subset(keys: Seq<Seq<char>>, x: Seq<char>)
    requires
        first_occurrences(keys).contains(x),
    ensures
        keys.contains(x),
    decreases keys,
{
    if keys.len() > 0 {
        let rest = first_occurrences(keys.drop_last());
        if rest.contains(x) {
            lemma_first_occurrences_subset(keys.drop_last(), x);
            let w = choose|w: int| 0 <= w < keys.drop_last().len() && keys.drop_last()[w] == x;
            assert(keys[w] == x);
        } else {
            assert(x == keys.last());
            assert(keys[keys.len() - 1] == x);
        }
    }
}

/// A key that occurs in no pair has no entry after grouping.
proof fn lemma_absent_key_not_grouped(pairs: Seq<(Seq<char>, Seq<char>)>, key: Seq<char>)
    requires
        !pair_keys(pairs).contains(key),
    ensures
        find_in(spec_group(pairs), key) == -1,
{
    lemma_group_keeps_first_occurrence_order(pairs);
    lemma_find_in(spec_group(pairs), key);
    if find_in(spec_group(pairs), key) != -1 {
        let f = find_in(spec_group(pairs), key);
        assert(grouped_keys(spec_group(pairs))[f] == key);
        assert(first_occurrences(pair_keys(pairs)).contains(key));
        lemma_first_occurrences_subset(pair_keys(pairs), key);
    }
}

/// Appending a block of pairs that all carry one fresh key appends one
/// entry holding the block's texts.
proof fn lemma_group_append_block(
    prefix: Seq<(Seq<char>, Seq<char>)>,
    key: Seq<char>,
    texts: Seq<Seq<char>>,
)
    requires
        !pair_keys(prefix).contains(key),
        texts.len() > 0,
    ensures
        spec_group(prefix + texts.map_values(|t: Seq<char>| (key, t)))
            == spec_group(prefix).push((key, texts)),
    decreases texts,
{
    let g = spec_group(prefix);
    lemma_absent_key_not_grouped(prefix, key);
    let block = texts.map_values(|t: Seq<char>| (key, t));
    if texts.len() == 1 {
        assert(prefix + block =~= prefix.push((key, texts[0])));
        assert((prefix.push((key, texts[0]))).drop_last() =~= prefix);
        assert((prefix.push((key, texts[0]))).last() == (key, texts[0]));
        assert(spec_group(prefix + block) == crate::group::group_step(g, key, texts[0]));
        assert(seq![texts[0]] =~= texts);
    } else {
        let texts_front = texts.drop_last();
        let block_front = texts_front.map_values(|t: Seq<char>| (key, t));
        lemma_group_append_block(prefix, key, texts_front);
        assert(prefix + block =~= (prefix + block_front).push((key, texts.last())));
        assert(((prefix + block_front).push((key, texts.last()))).drop_last()
            =~= prefix + block_front);
        assert(spec_group(prefix + block)
            == crate::group::group_step(spec_group(prefix + block_front), key, texts.last()));
        let pushed = g.push((key, texts_front));
        lemma_find_in(g, key);
        lemma_find_in(pushed, key);
        assert(pushed[g.len() as int].0 == key);
        let f = find_in(pushed, key);
        if f == -1 {
            assert(false);
        }
        assert forall|j: int| 0 <= j < g.len() implies (#[trigger] pushed[j]).0 != key by {
            assert(pushed[j] == g[j]);
        }
        assert(f == g.len());
        assert(crate::group::group_step(pushed, key, texts.last())
            == pushed.update(f, (key, texts_front.push(texts.last()))));
        assert(texts_front.push(texts.last()) =~= texts);
        assert(pushed.update(g.len() as int, (key, texts)) =~= g.push((key, texts)));
    }
}

/// The names of a record's entries, in order.
pub open spec fn entry_names(entries: Seq<(Seq<char>, SpecValue)>) -> Seq<Seq<char>> {
    entries.map_values(|e: (Seq<char>, SpecValue)| e.0)
}

/// The grouped image a fitting record's encoding must have: one entry per
/// present field, in order, holding the field's value texts.
pub open spec fn grouped_of(entries: Seq<(Seq<char>, SpecValue)>) -> SpecGrouped
    decreases entries,
{
    if entries.len() == 0 {
        Seq::empty()
    } else {
        let rest = grouped_of(entries.drop_last());
        let last = entries.last();
        if last.1 is Null {
            rest
        } else {
            rest.push((last.0, pair_values(spec_encode_field(last.0, last.1)->Ok_0)))
        }
    }
}

/// Every key of the grouped image is the name of some entry.
proof fn lemma_grouped_of_keys(entries: Seq<(Seq<char>, SpecValue)>)
    ensures
        forall|j: int| 0 <= j < grouped_of(entries).len()
            ==> entry_names(entries).contains((#[trigger] grouped_of(entries)[j]).0),
    decreases entries,
{
    if entries.len() > 0 {
        lemma_grouped_of_keys(entries.drop_last());
        assert forall|j: int| 0 <= j < grouped_of(entries).len() implies entry_names(
            entries,
        ).contains((#[trigger] grouped_of(entries)[j]).0) by {
            let g = grouped_of(entries);
            let rest = grouped_of(entries.drop_last());
            if j < rest.len() {
                assert(g[j] == rest[j]);
                let w = choose|w: int| 0 <= w < entries.drop_last().len()
                    && entry_names(entries.drop_last())[w] == rest[j].0;
                assert(entry_names(entries)[w] == rest[j].0);
            } else {
                assert(g[j].0 == entries.last().0);
                assert(entry_names(entries)[entries.len() - 1] == entries.last().0);
            }
        }
    }
}

/// Encoding a fitting record succeeds, its pair keys are entry names, and
/// grouping its pairs yields exactly the grouped image of the record.
proof fn lemma_record_encode_group(
    entries: Seq<(Seq<char>, SpecValue)>,
    fields: Seq<Field>,
    mode: EmptyPolicy,
)
    requires
        record_fits(entries, fields, mode),
    ensures
        (spec_encode_entries(entries) matches Ok(ps) && {
            &&& forall|j: int| 0 <= j < ps.len() ==> entry_names(entries).contains(
                (#[trigger] ps[j]).0,
            )
            &&& spec_group(ps) == grouped_of(entries)
        }),
    decreases entries,
{
    if entries.len() == 0 {
        assert(spec_group(Seq::<(Seq<char>, Seq<char>)>::empty())
            =~= Seq::<(Seq<char>, Seq<Seq<char>>)>::empty());
        assert(grouped_of(entries) =~= Seq::<(Seq<char>, Seq<Seq<char>>)>::empty());
    } else {
        let front_entries = entries.drop_last();
        let front_fields = fields.drop_last();
        assert(record_fits(front_entries, front_fields, mode)) by {
            assert forall|i: int| 0 <= i < front_entries.len() implies (
            #[trigger] front_entries[i]).0 == front_fields[i].name@ by {
                assert(front_entries[i] == entries[i]);
                assert(front_fields[i] == fields[i]);
            }
            assert forall|i: int, j: int| 0 <= i < j < front_fields.len() implies (
            #[trigger] front_fields[i].name@) != (#[trigger] front_fields[j].name@) by {
                assert(front_fields[i] == fields[i]);
                assert(front_fields[j] == fields[j]);
            }
            assert forall|i: int| 0 <= i < front_entries.len() implies field_fits(
                (#[trigger] front_entries[i]).1,
                front_fields[i].shape,
                mode,
            ) by {
                assert(front_entries[i] == entries[i]);
                assert(front_fields[i] == fields[i]);
            }
        }
        lemma_record_encode_group(front_entries, front_fields, mode);
        let front_ps = spec_encode_entries(front_entries)->Ok_0;
        let last = entries.last();
        let name = last.0;
        assert(last == entries[entries.len() - 1]);
        assert(name == fields[entries.len() - 1].name@);
        assert(field_fits(last.1, fields[entries.len() - 1].shape, mode));
        if last.1 is Null {
            assert(fields[entries.len() - 1].shape is Optional);
            assert(spec_encode_field(name, last.1) == Ok::<Seq<(Seq<char>, Seq<char>)>,
                SpecError>(Seq::empty()));
            let ps = front_ps + Seq::<(Seq<char>, Seq<char>)>::empty();
            assert(ps =~= front_ps);
            assert(spec_encode_entries(entries) == Ok::<_, SpecError>(ps));
            assert forall|j: int| 0 <= j < ps.len() implies entry_names(entries).contains(
                (#[trigger] ps[j]).0,
            ) by {
                let w = choose|w: int| 0 <= w < front_entries.len()
                    && entry_names(front_entries)[w] == ps[j].0;
                assert(entry_names(entries)[w] == ps[j].0);
            }
        } else {
            lemma_field_slot_round_trip(name, last.1, fields[entries.len() - 1].shape, mode);
            let block = spec_encode_field(name, last.1)->Ok_0;
            let texts = pair_values(block);
            let ps = front_ps + block;
            assert(spec_encode_entries(entries) == Ok::<_, SpecError>(ps));
            assert(block =~= texts.map_values(|t: Seq<char>| (name, t)));
            assert(!pair_keys(front_ps).contains(name)) by {
                if pair_keys(front_ps).contains(name) {
                    let w = choose|w: int| 0 <= w < front_ps.len()
                        && pair_keys(front_ps)[w] == name;
                    assert(front_ps[w].0 == name);
                    assert(entry_names(front_entries).contains(name));
                    let u = choose|u: int| 0 <= u < front_entries.len()
                        && entry_names(front_entries)[u] == name;
                    assert(front_entries[u].0 == name);
                    assert(fields[u].name@ == name);
                    assert(fields[u].name@ != fields[entries.len() - 1].name@);
                }
            }
            lemma_group_append_block(front_ps, name, texts);
            assert(spec_group(ps) == spec_group(front_ps).push((name, texts)));
            assert(grouped_of(entries) == grouped_of(front_entries).push((name, texts)));
            assert forall|j: int| 0 <= j < ps.len() implies entry_names(entries).contains(
                (#[trigger] ps[j]).0,
            ) by {
                if j < front_ps.len() {
                    assert(ps[j] == front_ps[j]);
                    let w = choose|w: int| 0 <= w < front_entries.len()
                        && entry_names(front_entries)[w] == front_ps[j].0;
                    assert(entry_names(entries)[w] == ps[j].0);
                } else {
                    assert(ps[j] == block[j - front_ps.len()]);
                    assert(ps[j].0 == name);
                    assert(entry_names(entries)[entries.len() - 1] == name);
                }
            }
        }
    }
}

/// The grouped image, read from the front: an absent first field
/// contributes nothing, a present one contributes the leading entry.
proof fn lemma_grouped_of_head(entries: Seq<(Seq<char>, SpecValue)>)
    requires
        entries.len() > 0,
    ensures
        grouped_of(entries) == (if entries[0].1 is Null {
            grouped_of(entries.drop_first())
        } else {
            seq![
                (entries[0].0, pair_values(spec_encode_field(entries[0].0, entries[0].1)->Ok_0)),
            ] + grouped_of(entries.drop_first())
        }),
    decreases entries,
{
    let rest = entries.drop_first();
    if entries.len() == 1 {
        assert(entries.last() == entries[0]);
        assert(entries.drop_last() =~= Seq::<(Seq<char>, SpecValue)>::empty());
        assert(rest =~= Seq::<(Seq<char>, SpecValue)>::empty());
        if !(entries[0].1 is Null) {
            assert(grouped_of(entries) =~= seq![
                (entries[0].0, pair_values(spec_encode_field(entries[0].0, entries[0].1)->Ok_0)),
            ] + grouped_of(rest));
        }
    } else {
        let front = entries.drop_last();
        lemma_grouped_of_head(front);
        assert(front[0] == entries[0]);
        assert(front.drop_first() =~= rest.drop_last());
        assert(rest.last() == entries.last());
        let head = seq![
            (entries[0].0, pair_values(spec_encode_field(entries[0].0, entries[0].1)->Ok_0)),
        ];
        if entries.last().1 is Null {
            assert(grouped_of(entries) == grouped_of(front));
            assert(grouped_of(rest) == grouped_of(rest.drop_last()));
        } else {
            let tail_entry = (entries.last().0, pair_values(spec_encode_field(
                entries.last().0,
                entries.last().1,
            )->Ok_0));
            assert(grouped_of(entries) == grouped_of(front).push(tail_entry));
            assert(grouped_of(rest) == grouped_of(rest.drop_last()).push(tail_entry));
            if !(entries[0].1 is Null) {
                assert((head + grouped_of(rest.drop_last())).push(tail_entry)
                    =~= head + grouped_of(rest.drop_last()).push(tail_entry));
            }
        }
    }
}

/// Decoding the grouped image of a fitting record under its fields gives
/// the record back.
proof fn lemma_decode_grouped(
    entries: Seq<(Seq<char>, SpecValue)>,
    fields: Seq<Field>,
    mode: EmptyPolicy,
)
    requires
        record_fits(entries, fields, mode),
    ensures
        spec_decode_record(grouped_of(entries), fields, mode) == Ok::<_, SpecError>(entries),
    decreases fields,
{
    let g = grouped_of(entries);
    if fields.len() == 0 {
        assert(entries =~= Seq::<(Seq<char>, SpecValue)>::empty());
        assert(g =~= Seq::<(Seq<char>, Seq<Seq<char>>)>::empty());
    } else {
        let e0 = entries[0];
        let name0 = e0.0;
        let rest_e = entries.drop_first();
        let rest_f = fields.drop_first();
        assert(record_fits(rest_e, rest_f, mode)) by {
            assert forall|i: int| 0 <= i < rest_e.len() implies (#[trigger] rest_e[i]).0
                == rest_f[i].name@ by {
                assert(rest_e[i] == entries[i + 1]);
                assert(rest_f[i] == fields[i + 1]);
            }
            assert forall|i: int, j: int| 0 <= i < j < rest_f.len() implies (
            #[trigger] rest_f[i].name@) != (#[trigger] rest_f[j].name@) by {
                assert(rest_f[i] == fields[i + 1]);
                assert(rest_f[j] == fields[j + 1]);
            }
            assert forall|i: int| 0 <= i < rest_e.len() implies field_fits(
                (#[trigger] rest_e[i]).1,
                rest_f[i].shape,
                mode,
            ) by {
                assert(rest_e[i] == entries[i + 1]);
                assert(rest_f[i] == fields[i + 1]);
            }
        }
        lemma_decode_grouped(rest_e, rest_f, mode);
        lemma_grouped_of_head(entries);
        lemma_grouped_of_keys(rest_e);
        let g_rest = grouped_of(rest_e);
        assert(fields[0].name@ == name0);
        assert forall|j: int| 0 <= j < g_rest.len() implies (#[trigger] g_rest[j]).0
            != name0 by {
            let w = choose|w: int| 0 <= w < rest_e.len() && entry_names(rest_e)[w]
                == g_rest[j].0;
            assert(rest_e[w].0 == g_rest[j].0);
            assert(rest_e[w] == entries[w + 1]);
            assert(entries[w + 1].0 == fields[w + 1].name@);
            assert(fields[0].name@ != fields[w + 1].name@);
        }
        if e0.1 is Null {
            assert(fields[0].shape is Optional) by {
                assert(field_fits(e0.1, fields[0].shape, mode));
            }
            assert(g == g_rest);
            lemma_find_in(g, name0);
            if find_in(g, name0) != -1 {
                let f = find_in(g, name0);
                assert(g[f].0 == name0);
            }
            assert(find_in(g, name0) == -1);
            assert(fields.drop_first() =~= rest_f);
            assert(seq![(name0, SpecValue::Null)] + rest_e =~= entries);
        } else {
            assert(field_fits(e0.1, fields[0].shape, mode));
            lemma_field_slot_round_trip(name0, e0.1, fields[0].shape, mode);
            let texts0 = pair_values(spec_encode_field(name0, e0.1)->Ok_0);
            assert(g == seq![(name0, texts0)] + g_rest);
            assert(g[0] == (name0, texts0));
            assert(find_in(g, name0) == 0);
            assert(g.remove(0) =~= g_rest);
            assert(fields.drop_first() =~= rest_f);
            assert(seq![(name0, e0.1)] + rest_e =~= entries);
        }
    }
}

/// Round trip of the codec on its unambiguous fragment.
///
/// Encoding a record whose values fit their fields' shapes succeeds, and
/// decoding the encoded pairs under those fields yields exactly the record
/// back: decoding is the left inverse of encoding.
pub proof fn lemma_record_round_trip(
    entries: Seq<(Seq<char>, SpecValue)>,
    fields: Seq<Field>,
    mode: EmptyPolicy,
)
    requires
        record_fits(entries, fields, mode),
    ensures
        (spec_encode_entries(entries) matches Ok(ps) && spec_decode_record(
            spec_group(ps),
            fields,
            mode,
        ) == Ok::<_, SpecError>(entries)),
{
    lemma_record_encode_group(entries, fields, mode);
    lemma_decode_grouped(entries, fields, mode);
}

/// Round trip at the whole-value level, in both readings.
///
/// For a fitting record value and its record shape: encoding succeeds,
/// decoding the encoded pairs gives the value back, and therefore encoding
/// what was decoded reproduces the pair sequence exactly — on the image of
/// the encoder, encode after decode is the identity on pairs.
pub proof fn lemma_codec_round_trip(
    entries: Seq<(Seq<char>, SpecValue)>,
    fields: Vec<Field>,
    mode: EmptyPolicy,
)
    requires
        record_fits(entries, fields@, mode),
    ensures
        (crate::ser::spec_encode_top(SpecValue::Record(entries)) matches Ok(ps) && {
            &&& crate::de::spec_decode_top(ps, Shape::Record(fields), mode) == Ok::<
                _,
                SpecError,
            >(SpecValue::Record(entries))
            &&& crate::ser::spec_encode_top(
                crate::de::spec_decode_top(ps, Shape::Record(fields), mode)->Ok_0,
            ) == Ok::<_, SpecError>(ps)
        }),
{
    lemma_record_round_trip(entries, fields@, mode);
}

} // verus!
