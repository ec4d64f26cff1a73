//! Delta encoding: the first value, then the difference of each value from
//! the one before it, all as little-endian 64-bit integers.
//!
//! Differences are taken and added back modulo 2^64, so every sequence of
//! integers comes back as it was written.

use crate::common::OlapError;
use crate::field_type::{views, Value, ValueView};
use crate::wire::{i64_from_le, i64_le, push_i64_le, read_i64_le};
use vstd::prelude::*;
use vstd::wrapping::i64_specs::{wrapping_add, wrapping_sub};

verus! {

/// The delta layout of a sequence of values, each taken by its integer
/// projection.
pub open spec fn encoded(values: Seq<ValueView>) -> Seq<u8>
    decreases values.len(),
{
    if values.len() == 0 {
        Seq::<u8>::empty()
    } else if values.len() == 1 {
        i64_le(values[0].i64_projection())
    } else {
        encoded(values.drop_last()) + i64_le(
            wrapping_sub(
                values.last().i64_projection(),
                values[values.len() - 2].i64_projection(),
            ),
        )
    }
}

/// The value at index `i` of a delta layout: the base plus the first `i`
/// differences.
pub open spec fn value_at(data: Seq<u8>, i: nat) -> i64
    decreases i,
{
    if i == 0 {
        i64_from_le(data.subrange(0, 8))
    } else {
        wrapping_add(
            value_at(data, (i - 1) as nat),
            i64_from_le(data.subrange(8 * (i as int), 8 * (i as int) + 8)),
        )
    }
}

/// How many values a delta decoder reads: none from fewer than eight
/// bytes; otherwise the base, and then differences while fewer than `count`
/// values are read and a whole difference is left.
pub open spec fn decoded_len(data_len: nat, count: nat) -> nat {
    if data_len < 8 {
        0
    } else if count <= 1 {
        1
    } else if count <= data_len / 8 {
        count
    } else {
        data_len / 8
    }
}

/// What a delta decoder reads.
pub open spec fn decoded(data: Seq<u8>, count: nat) -> Seq<ValueView> {
    Seq::new(decoded_len(data.len(), count), |i: int| ValueView::Int64(value_at(data, i as nat)))
}

fn projection(v: &Value) -> (x: i64)
    ensures
        x == v@.i64_projection(),
{
    match v.as_i64() {
        Some(x) => x,
        None => 0,
    }
}

/// Writes the first value and then the differences.
pub fn encode(values: &[Value]) -> (r: Result<Vec<u8>, OlapError>)
    ensures
        r is Ok,
        r->Ok_0@ == encoded(views(values@)),
{
    let mut out: Vec<u8> = Vec::new();
    if values.len() == 0 {
        return Ok(out);
    }
    let mut prev: i64 = projection(&values[0]);
    push_i64_le(&mut out, prev);
    assert(views(values@).subrange(0, 1) =~= seq![values@[0]@]);
    let mut i: usize = 1;
    while i < values.len()
        invariant
            1 <= i <= values.len(),
            prev == values@[i - 1]@.i64_projection(),
            out@ == encoded(views(values@).subrange(0, i as int)),
        decreases values.len() - i,
    {
        let x = projection(&values[i]);
        push_i64_le(&mut out, x.wrapping_sub(prev));
        proof {
            let vs = views(values@);
            let next = vs.subrange(0, i + 1);
            assert(next.drop_last() =~= vs.subrange(0, i as int));
            assert(next.last() == values@[i as int]@);
            assert(next[next.len() - 2] == values@[i - 1]@);
        }
        prev = x;
        i += 1;
    }
    assert(views(values@).subrange(0, i as int) =~= views(values@));
    Ok(out)
}

/// Reads the base and up to `count - 1` differences.
pub fn decode(data: &[u8], count: usize) -> (r: Result<Vec<Value>, OlapError>)
    ensures
        r is Ok,
        views(r->Ok_0@) == decoded(data@, count as nat),
{
    let mut out: Vec<Value> = Vec::new();
    if data.len() < 8 {
        assert(views(out@) =~= decoded(data@, count as nat));
        return Ok(out);
    }
    let base = read_i64_le(data, 0);
    out.push(Value::Int64(base));
    let mut prev: i64 = base;
    let mut pos: usize = 8;
    while out.len() < count && data.len() - pos >= 8
        invariant
            pos == 8 * out.len(),
            pos <= data.len(),
            1 <= out.len(),
            out.len() <= count || out.len() == 1,
            prev == value_at(data@, (out.len() - 1) as nat),
            forall|i: int|
                0 <= i < out.len() ==> (#[trigger] out@[i])@ == ValueView::Int64(
                    value_at(data@, i as nat),
                ),
        decreases data.len() - pos,
    {
        let delta = read_i64_le(data, pos);
        prev = prev.wrapping_add(delta);
        out.push(Value::Int64(prev));
        pos += 8;
    }
    assert(views(out@) =~= decoded(data@, count as nat));
    Ok(out)
}

} // verus!
