//! Dictionary encoding: the distinct byte strings of the values in order of
//! first appearance, then one 32-bit code per value.

use crate::common::OlapError;
use crate::field_type::{bytes_equal, copy_bytes, views, Value, ValueView};
use crate::text::{push_signed_decimal_bytes, signed_decimal_bytes};
use crate::wire::{copy_range, push_bytes, push_u32_le, read_u32_le, u32_be, u32_from_le, u32_le, u64_be};
use vstd::prelude::*;
use vstd::string::StringExecFns;

verus! {

/// The byte string that stands for a value in a dictionary: the bytes of a
/// `Bytes` value, the text `NULL` for `Null`, the decimal text of an
/// integer, and the big-endian bit pattern of a floating-point number.
pub open spec fn key(v: ValueView) -> Seq<u8> {
    match v {
        ValueView::Null => seq![78u8, 85u8, 76u8, 76u8],
        ValueView::Int8(x) => signed_decimal_bytes(x as int),
        ValueView::Int16(x) => signed_decimal_bytes(x as int),
        ValueView::Int32(x) => signed_decimal_bytes(x as int),
        ValueView::Int64(x) => signed_decimal_bytes(x as int),
        ValueView::Float32(bits) => u32_be(bits),
        ValueView::Float64(bits) => u64_be(bits),
        ValueView::Bytes(b) => b,
    }
}

/// The distinct keys of a sequence of values, in order of first appearance.
pub open spec fn dictionary(values: Seq<ValueView>) -> Seq<Seq<u8>>
    decreases values.len(),
{
    if values.len() == 0 {
        Seq::<Seq<u8>>::empty()
    } else {
        let before = dictionary(values.drop_last());
        if before.contains(key(values.last())) {
            before
        } else {
            before.push(key(values.last()))
        }
    }
}

/// The layout of the entries of a dictionary: for each, a 32-bit length and
/// the bytes.
pub open spec fn entries_bytes(entries: Seq<Seq<u8>>) -> Seq<u8>
    decreases entries.len(),
{
    if entries.len() == 0 {
        Seq::<u8>::empty()
    } else {
        u32_le(entries[0].len() as u32) + entries[0] + entries_bytes(entries.drop_first())
    }
}

/// The layout of the codes of a sequence of values: for each, the position
/// of its key in `entries` as a 32-bit integer.
pub open spec fn codes_bytes(values: Seq<ValueView>, entries: Seq<Seq<u8>>) -> Seq<u8>
    decreases values.len(),
{
    if values.len() == 0 {
        Seq::<u8>::empty()
    } else {
        codes_bytes(values.drop_last(), entries) + u32_le(
            entries.index_of(key(values.last())) as u32,
        )
    }
}

/// The dictionary layout of a sequence of values: the number of entries,
/// the entries, the codes.
pub open spec fn encoded(values: Seq<ValueView>) -> Seq<u8> {
    u32_le(dictionary(values).len() as u32) + entries_bytes(dictionary(values)) + codes_bytes(
        values,
        dictionary(values),
    )
}

/// The entries that a decoder reads from `pos` on, at most `remaining` of
/// them, and the position at which it stops. It stops early where a length
/// or the bytes of an entry are cut off; a length that was read stays
/// consumed.
pub open spec fn parsed_entries(data: Seq<u8>, pos: int, remaining: nat) -> (Seq<Seq<u8>>, int)
    decreases remaining,
{
    if remaining == 0 || pos + 4 > data.len() {
        (Seq::<Seq<u8>>::empty(), pos)
    } else {
        let len = u32_from_le(data.subrange(pos, pos + 4)) as int;
        if pos + 4 + len > data.len() {
            (Seq::<Seq<u8>>::empty(), pos + 4)
        } else {
            let rest = parsed_entries(data, pos + 4 + len, (remaining - 1) as nat);
            (seq![data.subrange(pos + 4, pos + 4 + len)] + rest.0, rest.1)
        }
    }
}

/// The entry that a code stands for: the entry at that position, or the
/// empty string where the dictionary has no such position.
pub open spec fn entry_of(entries: Seq<Seq<u8>>, code: u32) -> Seq<u8> {
    if code < entries.len() {
        entries[code as int]
    } else {
        Seq::<u8>::empty()
    }
}

/// How many codes a decoder reads from `pos` on: one per whole group of four
/// bytes, and no more than `count`.
pub open spec fn codes_len(data_len: nat, pos: int, count: nat) -> nat {
    if count <= (data_len - pos) / 4 {
        count
    } else {
        ((data_len - pos) / 4) as nat
    }
}

/// What a dictionary decoder reads, or `None` where the data is too short to
/// hold the number of entries.
pub open spec fn decoded(data: Seq<u8>, count: nat) -> Option<Seq<ValueView>> {
    if data.len() < 4 {
        None
    } else {
        let parsed = parsed_entries(data, 4, u32_from_le(data.subrange(0, 4)) as nat);
        Some(
            Seq::new(
                codes_len(data.len(), parsed.1, count),
                |i: int|
                    ValueView::Bytes(
                        entry_of(
                            parsed.0,
                            u32_from_le(data.subrange(parsed.1 + 4 * i, parsed.1 + 4 * i + 4)),
                        ),
                    ),
            ),
        )
    }
}

/// The contents of a vector of byte strings.
pub open spec fn entry_views(entries: Seq<Vec<u8>>) -> Seq<Seq<u8>> {
    entries.map_values(|e: Vec<u8>| e@)
}

/// The dictionary of a sequence of values holds no key twice, and holds the
/// key of every value.
pub proof fn lemma_dictionary_distinct(values: Seq<ValueView>)
    ensures
        dictionary(values).no_duplicates(),
        forall|i: int|
            0 <= i < values.len() ==> dictionary(values).contains(#[trigger] key(values[i])),
        dictionary(values).len() <= values.len(),
    decreases values.len(),
{
    if values.len() > 0 {
        let before = dictionary(values.drop_last());
        let k = key(values.last());
        lemma_dictionary_distinct(values.drop_last());
        let d = dictionary(values);
        if !before.contains(k) {
            assert(d == before.push(k));
            assert(d[before.len() as int] == k);
        }
        assert forall|i: int| 0 <= i < values.len() implies d.contains(
            #[trigger] key(values[i]),
        ) by {
            if i < values.len() - 1 {
                assert(values.drop_last()[i] == values[i]);
                assert(before.contains(key(values.drop_last()[i])));
                let j = before.index_of(key(values[i]));
                assert(d[j] == key(values[i]));
            }
        }
    }
}

/// Every entry of the dictionary of a sequence of values is the key of one
/// of the values.
pub proof fn lemma_dictionary_entries_are_keys(values: Seq<ValueView>, j: int)
    requires
        0 <= j < dictionary(values).len(),
    ensures
        exists|i: int| 0 <= i < values.len() && key(values[i]) == dictionary(values)[j],
    decreases values.len(),
{
    if values.len() > 0 {
        let before = dictionary(values.drop_last());
        let k = key(values.last());
        if j < before.len() {
            lemma_dictionary_entries_are_keys(values.drop_last(), j);
            let i = choose|i: int|
                0 <= i < values.drop_last().len() && key(values.drop_last()[i]) == before[j];
            assert(values.drop_last()[i] == values[i]);
            assert(key(values[i]) == dictionary(values)[j]);
        } else {
            assert(key(values[values.len() - 1]) == dictionary(values)[j]);
        }
    }
}

/// The byte string that stands for `v` in a dictionary.
pub fn dict_key(v: &Value) -> (k: Vec<u8>)
    ensures
        k@ == key(v@),
{
    match v {
        Value::Null => {
            let mut k: Vec<u8> = Vec::new();
            k.push(78u8);
            k.push(85u8);
            k.push(76u8);
            k.push(76u8);
            assert(k@ =~= key(v@));
            k
        },
        Value::Int8(x) => {
            let mut k: Vec<u8> = Vec::new();
            push_signed_decimal_bytes(&mut k, *x as i64);
            assert(k@ =~= key(v@));
            k
        },
        Value::Int16(x) => {
            let mut k: Vec<u8> = Vec::new();
            push_signed_decimal_bytes(&mut k, *x as i64);
            assert(k@ =~= key(v@));
            k
        },
        Value::Int32(x) => {
            let mut k: Vec<u8> = Vec::new();
            push_signed_decimal_bytes(&mut k, *x as i64);
            assert(k@ =~= key(v@));
            k
        },
        Value::Int64(x) => {
            let mut k: Vec<u8> = Vec::new();
            push_signed_decimal_bytes(&mut k, *x);
            assert(k@ =~= key(v@));
            k
        },
        Value::Float32(_) => v.to_sort_key(),
        Value::Float64(_) => v.to_sort_key(),
        Value::Bytes(b) => copy_bytes(b.as_slice()),
    }
}

fn find_entry(entries: &Vec<Vec<u8>>, k: &[u8]) -> (r: Option<usize>)
    ensures
        match r {
            Some(j) => j < entries.len() && entries@[j as int]@ == k@,
            None => !entry_views(entries@).contains(k@),
        },
{
    let mut j: usize = 0;
    while j < entries.len()
        invariant
            j <= entries.len(),
            forall|m: int| 0 <= m < j ==> (#[trigger] entries@[m])@ != k@,
        decreases entries.len() - j,
    {
        if bytes_equal(entries[j].as_slice(), k) {
            return Some(j);
        }
        j += 1;
    }
    assert forall|m: int| 0 <= m < entry_views(entries@).len() implies entry_views(entries@)[m]
        != k@ by {
        assert(entry_views(entries@)[m] == entries@[m]@);
    }
    None
}

/// Builds the dictionary and writes it, then the codes.
pub fn encode(values: &[Value]) -> (r: Result<Vec<u8>, OlapError>)
    ensures
        r is Ok,
        r->Ok_0@ == encoded(views(values@)),
{
    let mut entries: Vec<Vec<u8>> = Vec::new();
    let mut codes: Vec<u32> = Vec::new();
    let ghost vs = views(values@);
    let mut i: usize = 0;
    assert(entry_views(entries@) =~= dictionary(vs.subrange(0, 0)));
    while i < values.len()
        invariant
            i <= values.len(),
            vs == views(values@),
            entry_views(entries@) == dictionary(vs.subrange(0, i as int)),
            codes@.len() == i,
            forall|j: int|
                0 <= j < i ==> codes@[j] == entry_views(entries@).index_of(key(#[trigger] vs[j]))
                    as u32,
        decreases values.len() - i,
    {
        let k = dict_key(&values[i]);
        let ghost before = entry_views(entries@);
        proof {
            let next = vs.subrange(0, i + 1);
            assert(next.drop_last() =~= vs.subrange(0, i as int));
            assert(next.last() == vs[i as int]);
            lemma_dictionary_distinct(vs.subrange(0, i as int));
            lemma_dictionary_distinct(next);
        }
        let idx: usize = match find_entry(&entries, k.as_slice()) {
            Some(j) => {
                assert(before[j as int] == k@);
                j
            },
            None => {
                entries.push(k);
                assert(entry_views(entries@) =~= before.push(key(vs[i as int])));
                entries.len() - 1
            },
        };
        codes.push(#[verifier::truncate] (idx as u32));
        proof {
            let after = entry_views(entries@);
            assert(after[idx as int] == key(vs[i as int]));
            assert(after.contains(key(vs[i as int])));
            assert forall|j: int| 0 <= j < i + 1 implies codes@[j] == after.index_of(
                key(#[trigger] vs[j]),
            ) as u32 by {
                let kj = key(vs[j]);
                if j < i {
                    assert(vs.subrange(0, i as int)[j] == vs[j]);
                    assert(before.contains(kj));
                    let m = before.index_of(kj);
                    assert(after[m] == kj);
                    assert(after.contains(kj));
                    assert(after.index_of(kj) == m);
                } else {
                    assert(after.index_of(kj) == idx);
                }
            }
        }
        i += 1;
    }
    assert(vs.subrange(0, i as int) =~= vs);
    let ghost d = entry_views(entries@);
    let mut out: Vec<u8> = Vec::new();
    push_u32_le(&mut out, #[verifier::truncate] (entries.len() as u32));
    let mut e: usize = 0;
    assert(d.subrange(0, d.len() as int) =~= d);
    assert(out@ =~= u32_le(d.len() as u32));
    while e < entries.len()
        invariant
            e <= entries.len(),
            d == entry_views(entries@),
            out@ + entries_bytes(d.subrange(e as int, d.len() as int)) == u32_le(d.len() as u32)
                + entries_bytes(d),
        decreases entries.len() - e,
    {
        let ghost start = out@;
        push_u32_le(&mut out, #[verifier::truncate] (entries[e].len() as u32));
        push_bytes(&mut out, entries[e].as_slice());
        proof {
            let tail = d.subrange(e as int, d.len() as int);
            assert(tail[0] == entries@[e as int]@);
            assert(tail.drop_first() =~= d.subrange(e + 1, d.len() as int));
            assert(out@ + entries_bytes(d.subrange(e + 1, d.len() as int)) =~= start
                + entries_bytes(tail));
        }
        e += 1;
    }
    assert(d.subrange(e as int, d.len() as int) =~= Seq::<Seq<u8>>::empty());
    assert(out@ =~= u32_le(d.len() as u32) + entries_bytes(d));
    let ghost head = out@;
    let mut c: usize = 0;
    assert(vs.subrange(0, 0) =~= Seq::<ValueView>::empty());
    assert(out@ =~= head + codes_bytes(vs.subrange(0, 0), d));
    while c < codes.len()
        invariant
            c <= codes.len(),
            codes@.len() == vs.len(),
            forall|j: int|
                0 <= j < vs.len() ==> codes@[j] == d.index_of(key(#[trigger] vs[j])) as u32,
            out@ == head + codes_bytes(vs.subrange(0, c as int), d),
        decreases codes.len() - c,
    {
        push_u32_le(&mut out, codes[c]);
        proof {
            let next = vs.subrange(0, c + 1);
            assert(next.drop_last() =~= vs.subrange(0, c as int));
            assert(next.last() == vs[c as int]);
            assert(out@ =~= head + codes_bytes(next, d));
        }
        c += 1;
    }
    assert(vs.subrange(0, c as int) =~= vs);
    Ok(out)
}

/// Reads the dictionary and then up to `count` codes, each giving the entry
/// it stands for.
///
/// Fails with `Encoding` where the data cannot hold the number of entries.
pub fn decode(data: &[u8], count: usize) -> (r: Result<Vec<Value>, OlapError>)
    ensures
        match decoded(data@, count as nat) {
            Some(values) => r is Ok && views(r->Ok_0@) == values,
            None => r is Err && r->Err_0 is Encoding && r->Err_0->Encoding_0@
                == "dict: data too short"@,
        },
{
    if data.len() < 4 {
        return Err(OlapError::Encoding(String::from_str("dict: data too short")));
    }
    let dict_len = read_u32_le(data, 0);
    let mut pos: usize = 4;
    let mut entries: Vec<Vec<u8>> = Vec::new();
    let ghost total = parsed_entries(data@, 4, dict_len as nat);
    let mut n: u32 = 0;
    let mut stopped = false;
    assert(entry_views(entries@) + total.0 =~= total.0);
    while n < dict_len && !stopped
        invariant
            n <= dict_len,
            4 <= pos <= data.len(),
            total == parsed_entries(data@, 4, dict_len as nat),
            !stopped ==> total.0 == entry_views(entries@) + parsed_entries(
                data@,
                pos as int,
                (dict_len - n) as nat,
            ).0,
            !stopped ==> total.1 == parsed_entries(data@, pos as int, (dict_len - n) as nat).1,
            stopped ==> total == (entry_views(entries@), pos as int),
        decreases dict_len - n, if stopped { 0int } else { 1int },
    {
        if data.len() - pos < 4 {
            stopped = true;
            assert(entry_views(entries@) + Seq::<Seq<u8>>::empty() =~= entry_views(entries@));
        } else {
            let slen = read_u32_le(data, pos) as usize;
            pos += 4;
            if data.len() - pos < slen {
                stopped = true;
                assert(entry_views(entries@) + Seq::<Seq<u8>>::empty() =~= entry_views(
                    entries@,
                ));
            } else {
                let ghost before = entry_views(entries@);
                let entry = copy_range(data, pos, slen);
                entries.push(entry);
                pos += slen;
                n += 1;
                proof {
                    let rest = parsed_entries(data@, pos as int, (dict_len - n) as nat);
                    assert(entry_views(entries@) + rest.0 =~= before + (seq![
                        data@.subrange(pos - slen, pos as int),
                    ] + rest.0));
                }
            }
        }
    }
    proof {
        if !stopped {
            assert(entry_views(entries@) + Seq::<Seq<u8>>::empty() =~= entry_views(entries@));
        }
    }
    let mut out: Vec<Value> = Vec::new();
    let start: usize = pos;
    while out.len() < count && data.len() - pos >= 4
        invariant
            4 <= start <= pos <= data.len(),
            pos == start + 4 * out.len(),
            out.len() <= count,
            forall|i: int|
                0 <= i < out.len() ==> (#[trigger] out@[i])@ == ValueView::Bytes(
                    entry_of(
                        entry_views(entries@),
                        u32_from_le(data@.subrange(start + 4 * i, start + 4 * i + 4)),
                    ),
                ),
        decreases data.len() - pos,
    {
        let code = read_u32_le(data, pos) as usize;
        pos += 4;
        let bytes: Vec<u8> = if code < entries.len() {
            assert(entry_views(entries@)[code as int] == entries@[code as int]@);
            copy_bytes(entries[code].as_slice())
        } else {
            Vec::new()
        };
        assert(bytes@ =~= entry_of(
            entry_views(entries@),
            u32_from_le(data@.subrange(pos - 4, pos as int)),
        ));
        out.push(Value::Bytes(bytes));
    }
    assert(views(out@) =~= decoded(data@, count as nat)->0);
    Ok(out)
}

} // verus!
