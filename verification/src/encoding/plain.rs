//! Plain encoding: the little-endian layout of each value, one after another.

use crate::common::OlapError;
use crate::field_type::{views, Value, ValueView};
use crate::wire::{
    i64_from_le, i64_le, push_bytes, push_i64_le, push_u16_le, push_u32_le, push_u64_le,
    read_i64_le, u16_le, u32_le, u64_le,
};
use vstd::prelude::*;

verus! {

/// The plain layout of one value: its fixed-width little-endian bytes, a
/// single zero byte for `Null`, a 32-bit length and the bytes for `Bytes`.
pub open spec fn value_bytes(v: ValueView) -> Seq<u8> {
    match v {
        ValueView::Null => seq![0u8],
        ValueView::Int8(x) => seq![x as u8],
        ValueView::Int16(x) => u16_le(x as u16),
        ValueView::Int32(x) => u32_le(x as u32),
        ValueView::Int64(x) => i64_le(x),
        ValueView::Float32(bits) => u32_le(bits),
        ValueView::Float64(bits) => u64_le(bits),
        ValueView::Bytes(b) => u32_le(b.len() as u32) + b,
    }
}

/// The plain layout of a sequence of values.
pub open spec fn encoded(values: Seq<ValueView>) -> Seq<u8>
    decreases values.len(),
{
    if values.len() == 0 {
        Seq::<u8>::empty()
    } else {
        encoded(values.drop_last()) + value_bytes(values.last())
    }
}

/// How many values a plain decoder reads: one per whole group of eight
/// bytes, and no more than `count`.
pub open spec fn decoded_len(data_len: nat, count: nat) -> nat {
    if count <= data_len / 8 {
        count
    } else {
        data_len / 8
    }
}

/// What a plain decoder reads: every group of eight bytes as a 64-bit
/// integer, whatever was written.
pub open spec fn decoded(data: Seq<u8>, count: nat) -> Seq<ValueView> {
    Seq::new(
        decoded_len(data.len(), count),
        |i: int| ValueView::Int64(i64_from_le(data.subrange(8 * i, 8 * i + 8))),
    )
}

/// Lays the values out one after another.
pub fn encode(values: &[Value]) -> (r: Result<Vec<u8>, OlapError>)
    ensures
        r is Ok,
        r->Ok_0@ == encoded(views(values@)),
{
    let mut out: Vec<u8> = Vec::new();
    let mut i: usize = 0;
    while i < values.len()
        invariant
            i <= values.len(),
            out@ == encoded(views(values@).subrange(0, i as int)),
        decreases values.len() - i,
    {
        match &values[i] {
            Value::Null => out.push(0u8),
            Value::Int8(x) => out.push(*x as u8),
            Value::Int16(x) => push_u16_le(&mut out, *x as u16),
            Value::Int32(x) => push_u32_le(&mut out, *x as u32),
            Value::Int64(x) => push_i64_le(&mut out, *x),
            Value::Float32(bits) => push_u32_le(&mut out, *bits),
            Value::Float64(bits) => push_u64_le(&mut out, *bits),
            Value::Bytes(b) => {
                push_u32_le(&mut out, #[verifier::truncate] (b.len() as u32));
                push_bytes(&mut out, b.as_slice());
            },
        }
        proof {
            let vs = views(values@);
            assert(vs.subrange(0, i + 1).drop_last() =~= vs.subrange(0, i as int));
            assert(vs.subrange(0, i + 1).last() == values@[i as int]@);
            assert(out@ =~= encoded(vs.subrange(0, i as int)) + value_bytes(values@[i as int]@));
        }
        i += 1;
    }
    assert(views(values@).subrange(0, i as int) =~= views(values@));
    Ok(out)
}

/// Reads up to `count` 64-bit integers.
pub fn decode(data: &[u8], count: usize) -> (r: Result<Vec<Value>, OlapError>)
    ensures
        r is Ok,
        views(r->Ok_0@) == decoded(data@, count as nat),
{
    let mut out: Vec<Value> = Vec::new();
    let mut pos: usize = 0;
    while out.len() < count && data.len() - pos >= 8
        invariant
            pos == 8 * out.len(),
            pos <= data.len(),
            out.len() <= count,
            forall|i: int|
                0 <= i < out.len() ==> (#[trigger] out@[i])@ == ValueView::Int64(
                    i64_from_le(data@.subrange(8 * i, 8 * i + 8)),
                ),
        decreases data.len() - pos,
    {
        let v = read_i64_le(data, pos);
        out.push(Value::Int64(v));
        pos += 8;
    }
    assert(views(out@) =~= decoded(data@, count as nat));
    Ok(out)
}

} // verus!
