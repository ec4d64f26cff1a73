//! Encodings of a page's values.
//!
//! Four layouts are provided: plain, run-length, delta and dictionary.
//! A decoder is given the number of values to read, not their type, so the
//! integer layouts come back as 64-bit integers and a dictionary comes back
//! as byte strings.

use crate::common::OlapError;
use crate::field_type::{EncodingType, Value, ValueView, views};
use crate::wire::{
    i64_le, lemma_i64_le_round_trip, lemma_u32_le_round_trip, u32_from_le, u32_le,
};
use vstd::prelude::*;
use vstd::wrapping::i64_specs::wrapping_sub;

pub mod delta;
pub mod dict;
pub mod plain;
pub mod rle;

verus! {

/// The layout of a sequence of values under an encoding.
pub open spec fn encoded(values: Seq<ValueView>, enc: EncodingType) -> Seq<u8> {
    match enc {
        EncodingType::Plain => plain::encoded(values),
        EncodingType::RunLength => rle::encoded(values),
        EncodingType::DeltaBinary => delta::encoded(values),
        EncodingType::Dictionary => dict::encoded(values),
    }
}

/// What a decoder reads from `data` under an encoding when asked for `count`
/// values, or `None` where it rejects the data.
pub open spec fn decoded(data: Seq<u8>, enc: EncodingType, count: nat) -> Option<Seq<ValueView>> {
    match enc {
        EncodingType::Plain => Some(plain::decoded(data, count)),
        EncodingType::RunLength => Some(rle::decoded(data)),
        EncodingType::DeltaBinary => Some(delta::decoded(data, count)),
        EncodingType::Dictionary => dict::decoded(data, count),
    }
}

/// A sequence of values with each replaced by its integer projection.
pub open spec fn as_int64s(values: Seq<ValueView>) -> Seq<ValueView> {
    values.map_values(|v: ValueView| ValueView::Int64(v.i64_projection()))
}

/// A sequence of values with each replaced by its dictionary key.
pub open spec fn as_keys(values: Seq<ValueView>) -> Seq<ValueView> {
    values.map_values(|v: ValueView| ValueView::Bytes(dict::key(v)))
}

/// Encodes `values` under `enc`.
pub fn encode(values: &[Value], enc: EncodingType) -> (r: Result<Vec<u8>, OlapError>)
    requires
        enc is RunLength ==> values@.len() <= u32::MAX,
    ensures
        r is Ok,
        r->Ok_0@ == encoded(views(values@), enc),
{
    match enc {
        EncodingType::Plain => plain::encode(values),
        EncodingType::RunLength => rle::encode(values),
        EncodingType::DeltaBinary => delta::encode(values),
        EncodingType::Dictionary => dict::encode(values),
    }
}

/// Decodes up to `count` values from `data` under `enc`.
///
/// Only the dictionary decoder can fail: with `Encoding`, on data shorter
/// than four bytes.
pub fn decode(data: &[u8], enc: EncodingType, count: usize) -> (r: Result<Vec<Value>, OlapError>)
    ensures
        match decoded(data@, enc, count as nat) {
            Some(values) => r is Ok && views(r->Ok_0@) == values,
            None => r is Err && r->Err_0 is Encoding && r->Err_0->Encoding_0@
                == "dict: data too short"@,
        },
{
    match enc {
        EncodingType::Plain => plain::decode(data, count),
        EncodingType::RunLength => rle::decode(data),
        EncodingType::DeltaBinary => delta::decode(data, count),
        EncodingType::Dictionary => dict::decode(data, count),
    }
}

proof fn lemma_plain_int64_layout(values: Seq<ValueView>)
    requires
        forall|i: int| 0 <= i < values.len() ==> values[i] is Int64,
    ensures
        plain::encoded(values).len() == 8 * values.len(),
        forall|i: int|
            0 <= i < values.len() ==> #[trigger] plain::encoded(values).subrange(8 * i, 8 * i + 8)
                == i64_le(values[i]->Int64_0),
    decreases values.len(),
{
    if values.len() > 0 {
        let front = values.drop_last();
        lemma_plain_int64_layout(front);
        let e = plain::encoded(values);
        let p = plain::encoded(front);
        assert(values.last() is Int64);
        assert(e == p + i64_le(values.last()->Int64_0));
        assert forall|i: int| 0 <= i < values.len() implies #[trigger] e.subrange(8 * i, 8 * i + 8)
            == i64_le(values[i]->Int64_0) by {
            if i < values.len() - 1 {
                assert(e.subrange(8 * i, 8 * i + 8) =~= p.subrange(8 * i, 8 * i + 8));
                assert(front[i] == values[i]);
            } else {
                assert(e.subrange(8 * i, 8 * i + 8) =~= i64_le(values.last()->Int64_0));
            }
        }
    }
}

/// Plain encoding gives back every sequence of 64-bit integers when the
/// decoder is asked for as many values as were written.
pub proof fn lemma_plain_round_trip(values: Seq<ValueView>)
    requires
        forall|i: int| 0 <= i < values.len() ==> values[i] is Int64,
    ensures
        plain::decoded(plain::encoded(values), values.len()) == values,
        decoded(encoded(values, EncodingType::Plain), EncodingType::Plain, values.len()) == Some(
            values,
        ),
{
    lemma_plain_int64_layout(values);
    let e = plain::encoded(values);
    let d = plain::decoded(e, values.len());
    assert(d.len() == values.len());
    assert forall|i: int| 0 <= i < values.len() implies d[i] == values[i] by {
        lemma_i64_le_round_trip(values[i]->Int64_0);
        assert(e.subrange(8 * i, 8 * i + 8) == i64_le(values[i]->Int64_0));
    }
    assert(d =~= values);
}

proof fn lemma_delta_layout(values: Seq<ValueView>)
    ensures
        delta::encoded(values).len() == 8 * values.len(),
        values.len() > 0 ==> delta::encoded(values).subrange(0, 8) == i64_le(
            values[0].i64_projection(),
        ),
        forall|i: int|
            1 <= i < values.len() ==> #[trigger] delta::encoded(values).subrange(8 * i, 8 * i + 8)
                == i64_le(
                wrapping_sub(values[i].i64_projection(), values[i - 1].i64_projection()),
            ),
    decreases values.len(),
{
    if values.len() == 1 {
        assert(delta::encoded(values).subrange(0, 8) =~= delta::encoded(values));
    } else if values.len() > 1 {
        let front = values.drop_last();
        lemma_delta_layout(front);
        let e = delta::encoded(values);
        let p = delta::encoded(front);
        let n = values.len() as int;
        let last = i64_le(
            wrapping_sub(values[n - 1].i64_projection(), values[n - 2].i64_projection()),
        );
        assert(e == p + last);
        assert(e.subrange(0, 8) =~= p.subrange(0, 8));
        assert(front[0] == values[0]);
        assert forall|i: int| 1 <= i < values.len() implies #[trigger] e.subrange(8 * i, 8 * i + 8)
            == i64_le(
            wrapping_sub(values[i].i64_projection(), values[i - 1].i64_projection()),
        ) by {
            if i < n - 1 {
                assert(e.subrange(8 * i, 8 * i + 8) =~= p.subrange(8 * i, 8 * i + 8));
                assert(front[i] == values[i]);
                assert(front[i - 1] == values[i - 1]);
            } else {
                assert(e.subrange(8 * i, 8 * i + 8) =~= last);
            }
        }
    }
}

proof fn lemma_delta_value_at(values: Seq<ValueView>, i: nat)
    requires
        i < values.len(),
    ensures
        delta::value_at(delta::encoded(values), i) == values[i as int].i64_projection(),
    decreases i,
{
    lemma_delta_layout(values);
    let e = delta::encoded(values);
    if i == 0 {
        lemma_i64_le_round_trip(values[0].i64_projection());
    } else {
        lemma_delta_value_at(values, (i - 1) as nat);
        let d = wrapping_sub(
            values[i as int].i64_projection(),
            values[i - 1].i64_projection(),
        );
        lemma_i64_le_round_trip(d);
        assert(e.subrange(8 * (i as int), 8 * (i as int) + 8) == i64_le(d));
    }
}

/// Delta encoding gives back the integer projection of every sequence of
/// values, monotone or not, when the decoder is asked for as many values as
/// were written.
pub proof fn lemma_delta_round_trip(values: Seq<ValueView>)
    ensures
        delta::decoded(delta::encoded(values), values.len()) == as_int64s(values),
        decoded(encoded(values, EncodingType::DeltaBinary), EncodingType::DeltaBinary, values.len())
            == Some(as_int64s(values)),
{
    lemma_delta_layout(values);
    let e = delta::encoded(values);
    let d = delta::decoded(e, values.len());
    assert(d.len() == values.len());
    assert forall|i: int| 0 <= i < values.len() implies d[i] == as_int64s(values)[i] by {
        lemma_delta_value_at(values, i as nat);
    }
    assert(d =~= as_int64s(values));
}

proof fn lemma_parsed_entries(data: Seq<u8>, pos: int, entries: Seq<Seq<u8>>)
    requires
        0 <= pos,
        pos + dict::entries_bytes(entries).len() <= data.len(),
        data.subrange(pos, pos + dict::entries_bytes(entries).len()) == dict::entries_bytes(
            entries,
        ),
        forall|i: int| 0 <= i < entries.len() ==> entries[i].len() <= u32::MAX,
    ensures
        dict::parsed_entries(data, pos, entries.len()) == (
            entries,
            pos + dict::entries_bytes(entries).len(),
        ),
    decreases entries.len(),
{
    if entries.len() > 0 {
        let eb = dict::entries_bytes(entries);
        let first = entries[0];
        let rest = entries.drop_first();
        let rb = dict::entries_bytes(rest);
        let window = data.subrange(pos, pos + eb.len());
        assert(eb == u32_le(first.len() as u32) + first + rb);
        lemma_u32_le_round_trip(first.len() as u32);
        assert(data.subrange(pos, pos + 4) =~= window.subrange(0, 4));
        assert(window.subrange(0, 4) =~= u32_le(first.len() as u32));
        let len = first.len() as int;
        assert(data.subrange(pos + 4, pos + 4 + len) =~= window.subrange(4, 4 + len));
        assert(window.subrange(4, 4 + len) =~= first);
        assert(data.subrange(pos + 4 + len, pos + 4 + len + rb.len()) =~= window.subrange(
            4 + len,
            4 + len + rb.len(),
        ));
        assert(window.subrange(4 + len, 4 + len + rb.len()) =~= rb);
        assert forall|i: int| 0 <= i < rest.len() implies rest[i].len() <= u32::MAX by {
            assert(rest[i] == entries[i + 1]);
        }
        lemma_parsed_entries(data, pos + 4 + len, rest);
        assert(seq![first] + rest =~= entries);
    }
}

proof fn lemma_codes_layout(values: Seq<ValueView>, entries: Seq<Seq<u8>>)
    ensures
        dict::codes_bytes(values, entries).len() == 4 * values.len(),
        forall|i: int|
            0 <= i < values.len() ==> #[trigger] dict::codes_bytes(values, entries).subrange(
                4 * i,
                4 * i + 4,
            ) == u32_le(entries.index_of(dict::key(values[i])) as u32),
    decreases values.len(),
{
    if values.len() > 0 {
        let front = values.drop_last();
        lemma_codes_layout(front, entries);
        let c = dict::codes_bytes(values, entries);
        let p = dict::codes_bytes(front, entries);
        let last = u32_le(entries.index_of(dict::key(values.last())) as u32);
        assert(c == p + last);
        assert forall|i: int| 0 <= i < values.len() implies #[trigger] c.subrange(4 * i, 4 * i + 4)
            == u32_le(entries.index_of(dict::key(values[i])) as u32) by {
            if i < values.len() - 1 {
                assert(c.subrange(4 * i, 4 * i + 4) =~= p.subrange(4 * i, 4 * i + 4));
                assert(front[i] == values[i]);
            } else {
                assert(c.subrange(4 * i, 4 * i + 4) =~= last);
            }
        }
    }
}

/// The dictionary of a sequence of values has as many entries as the values
/// have distinct keys.
pub proof fn lemma_dictionary_cardinality(values: Seq<ValueView>)
    ensures
        dict::dictionary(values).len() == values.map_values(
            |v: ValueView| dict::key(v),
        ).to_set().len(),
{
    let d = dict::dictionary(values);
    let keys = values.map_values(|v: ValueView| dict::key(v));
    dict::lemma_dictionary_distinct(values);
    assert forall|k: Seq<u8>| d.to_set().contains(k) <==> keys.to_set().contains(k) by {
        if d.contains(k) {
            let j = d.index_of(k);
            dict::lemma_dictionary_entries_are_keys(values, j);
            let i = choose|i: int| 0 <= i < values.len() && dict::key(values[i]) == d[j];
            assert(keys[i] == k);
        }
        if keys.contains(k) {
            let i = keys.index_of(k);
            assert(dict::key(values[i]) == k);
            assert(d.contains(dict::key(values[i])));
        }
    }
    assert(d.to_set() =~= keys.to_set());
    d.unique_seq_to_set();
}

proof fn lemma_dictionary_entry_lengths(values: Seq<ValueView>)
    requires
        forall|i: int| 0 <= i < values.len() ==> dict::key(values[i]).len() <= u32::MAX,
    ensures
        forall|j: int|
            0 <= j < dict::dictionary(values).len() ==> (#[trigger] dict::dictionary(
                values,
            )[j]).len() <= u32::MAX,
{
    let d = dict::dictionary(values);
    assert forall|j: int| 0 <= j < d.len() implies (#[trigger] d[j]).len() <= u32::MAX by {
        dict::lemma_dictionary_entries_are_keys(values, j);
        let i = choose|i: int| 0 <= i < values.len() && dict::key(values[i]) == d[j];
        assert(dict::key(values[i]).len() <= u32::MAX);
    }
}

proof fn lemma_dictionary_parts(values: Seq<ValueView>)
    requires
        values.len() <= u32::MAX,
        forall|i: int| 0 <= i < values.len() ==> dict::key(values[i]).len() <= u32::MAX,
    ensures
        dict::encoded(values).len() == 4 + dict::entries_bytes(dict::dictionary(values)).len() + 4
            * values.len(),
        u32_from_le(dict::encoded(values).subrange(0, 4)) == dict::dictionary(values).len(),
        dict::parsed_entries(
            dict::encoded(values),
            4,
            dict::dictionary(values).len(),
        ) == (
            dict::dictionary(values),
            4 + dict::entries_bytes(dict::dictionary(values)).len() as int,
        ),
{
    let d = dict::dictionary(values);
    dict::lemma_dictionary_distinct(values);
    lemma_dictionary_entry_lengths(values);
    let head = u32_le(d.len() as u32);
    let eb = dict::entries_bytes(d);
    let cb = dict::codes_bytes(values, d);
    let data = dict::encoded(values);
    assert(data == head + eb + cb);
    lemma_codes_layout(values, d);
    assert(data.subrange(0, 4) =~= head);
    lemma_u32_le_round_trip(d.len() as u32);
    assert(data.subrange(4, 4 + eb.len() as int) =~= eb);
    lemma_parsed_entries(data, 4, d);
}

proof fn lemma_tail_window(front: Seq<u8>, back: Seq<u8>, from: int, to: int)
    requires
        0 <= from <= to <= back.len(),
    ensures
        (front + back).subrange(front.len() + from, front.len() + to) == back.subrange(from, to),
{
    assert((front + back).subrange(front.len() + from, front.len() + to) =~= back.subrange(
        from,
        to,
    ));
}

proof fn lemma_dictionary_code(values: Seq<ValueView>, i: int)
    requires
        values.len() <= u32::MAX,
        0 <= i < values.len(),
    ensures
        dict::entry_of(
            dict::dictionary(values),
            u32_from_le(
                dict::encoded(values).subrange(
                    4 + dict::entries_bytes(dict::dictionary(values)).len() + 4 * i,
                    4 + dict::entries_bytes(dict::dictionary(values)).len() + 4 * i + 4,
                ),
            ),
        ) == dict::key(values[i]),
{
    let d = dict::dictionary(values);
    let front = u32_le(d.len() as u32) + dict::entries_bytes(d);
    let cb = dict::codes_bytes(values, d);
    let k = dict::key(values[i]);
    let code = d.index_of(k);
    assert(0 <= code < d.len() && d[code] == k && d.len() <= u32::MAX) by {
        dict::lemma_dictionary_distinct(values);
        assert(d.contains(dict::key(values[i])));
    }
    assert(cb.len() == 4 * values.len() && cb.subrange(4 * i, 4 * i + 4) == u32_le(code as u32))
        by {
        lemma_codes_layout(values, d);
    }
    assert(u32_from_le(u32_le(code as u32)) == code as u32) by {
        lemma_u32_le_round_trip(code as u32);
    }
    lemma_tail_window(front, cb, 4 * i, 4 * i + 4);
    assert(front.len() == 4 + dict::entries_bytes(d).len());
}

/// Dictionary encoding gives back the key of every value, in order, when
/// the decoder is asked for as many values as were written, and its header
/// holds the number of distinct keys. Lengths are written as 32-bit
/// integers, so the number of values and the length of each key must fit.
pub proof fn lemma_dictionary_round_trip(values: Seq<ValueView>)
    requires
        values.len() <= u32::MAX,
        forall|i: int| 0 <= i < values.len() ==> dict::key(values[i]).len() <= u32::MAX,
    ensures
        dict::decoded(dict::encoded(values), values.len()) == Some(as_keys(values)),
        decoded(encoded(values, EncodingType::Dictionary), EncodingType::Dictionary, values.len())
            == Some(as_keys(values)),
        u32_from_le(dict::encoded(values).subrange(0, 4)) == dict::dictionary(values).len(),
{
    lemma_dictionary_parts(values);
    let d = dict::dictionary(values);
    let data = dict::encoded(values);
    let start = 4 + dict::entries_bytes(d).len();
    let out = dict::decoded(data, values.len())->0;
    assert(dict::codes_len(data.len(), start as int, values.len()) == values.len());
    assert(out.len() == values.len());
    assert forall|i: int| 0 <= i < values.len() implies out[i] == as_keys(values)[i] by {
        lemma_dictionary_code(values, i);
    }
    assert(out =~= as_keys(values));
}

} // verus!
