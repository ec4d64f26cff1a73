//! Run-length encoding: one `(run, value)` pair per stretch of equal
//! neighbours, the run as a 32-bit count and the value as a 64-bit integer.

use crate::common::OlapError;
use crate::field_type::{views, Value, ValueView};
use crate::wire::{
    i64_from_le, i64_le, push_i64_le, push_u32_le, read_i64_le, read_u32_le, u32_from_le, u32_le,
};
use vstd::prelude::*;

verus! {

/// The stretches of equal neighbours of a sequence: for each, its length and
/// its first value.
pub open spec fn runs(values: Seq<ValueView>) -> Seq<(nat, ValueView)>
    decreases values.len(),
{
    if values.len() == 0 {
        Seq::<(nat, ValueView)>::empty()
    } else {
        let before = runs(values.drop_last());
        if before.len() > 0 && values.last().same_as(before.last().1) {
            before.drop_last().push((before.last().0 + 1, before.last().1))
        } else {
            before.push((1nat, values.last()))
        }
    }
}

/// The layout of one run: the count, then the integer projection of the
/// value.
pub open spec fn run_bytes(run: (nat, ValueView)) -> Seq<u8> {
    u32_le(run.0 as u32) + i64_le(run.1.i64_projection())
}

/// The layout of a sequence of runs.
pub open spec fn runs_bytes(rs: Seq<(nat, ValueView)>) -> Seq<u8>
    decreases rs.len(),
{
    if rs.len() == 0 {
        Seq::<u8>::empty()
    } else {
        runs_bytes(rs.drop_last()) + run_bytes(rs.last())
    }
}

/// The run-length layout of a sequence of values.
pub open spec fn encoded(values: Seq<ValueView>) -> Seq<u8> {
    runs_bytes(runs(values))
}

/// What a run-length decoder reads from the first `pairs` pairs of twelve
/// bytes: each value, repeated as often as its run says.
pub open spec fn decoded_pairs(data: Seq<u8>, pairs: nat) -> Seq<ValueView>
    decreases pairs,
{
    if pairs == 0 {
        Seq::<ValueView>::empty()
    } else {
        let at = 12 * (pairs - 1);
        decoded_pairs(data, (pairs - 1) as nat) + Seq::new(
            u32_from_le(data.subrange(at, at + 4)) as nat,
            |j: int| ValueView::Int64(i64_from_le(data.subrange(at + 4, at + 12))),
        )
    }
}

/// What a run-length decoder reads: every whole pair of the data.
pub open spec fn decoded(data: Seq<u8>) -> Seq<ValueView> {
    decoded_pairs(data, data.len() / 12)
}

fn write_run(out: &mut Vec<u8>, run: u32, v: &Value)
    ensures
        final(out)@ == old(out)@ + run_bytes((run as nat, v@)),
{
    push_u32_le(out, run);
    let x: i64 = match v.as_i64() {
        Some(x) => x,
        None => 0,
    };
    push_i64_le(out, x);
    assert(out@ =~= old(out)@ + run_bytes((run as nat, v@)));
}

/// Writes one pair per stretch of equal neighbours.
pub fn encode(values: &[Value]) -> (r: Result<Vec<u8>, OlapError>)
    requires
        values@.len() <= u32::MAX,
    ensures
        r is Ok,
        r->Ok_0@ == encoded(views(values@)),
{
    let mut out: Vec<u8> = Vec::new();
    if values.len() == 0 {
        return Ok(out);
    }
    let mut cur: usize = 0;
    let mut run: u32 = 1;
    let mut i: usize = 1;
    let ghost vs = views(values@);
    let ghost mut closed: Seq<(nat, ValueView)> = Seq::empty();
    proof {
        let one = vs.subrange(0, 1);
        assert(one.drop_last() =~= Seq::<ValueView>::empty());
        assert(runs(one.drop_last()) =~= Seq::<(nat, ValueView)>::empty());
        assert(one.last() == vs[0]);
        assert(runs(one) =~= closed.push((1nat, vs[0])));
    }
    while i < values.len()
        invariant
            1 <= i <= values.len(),
            values@.len() <= u32::MAX,
            vs == views(values@),
            cur < i,
            1 <= run <= i,
            runs(vs.subrange(0, i as int)) == closed.push((run as nat, vs[cur as int])),
            out@ == runs_bytes(closed),
        decreases values.len() - i,
    {
        proof {
            let next = vs.subrange(0, i + 1);
            assert(next.drop_last() =~= vs.subrange(0, i as int));
            assert(next.last() == vs[i as int]);
            let before = closed.push((run as nat, vs[cur as int]));
            assert(before.drop_last() =~= closed);
        }
        if values[i].equals(&values[cur]) {
            run += 1;
        } else {
            write_run(&mut out, run, &values[cur]);
            proof {
                let done = closed.push((run as nat, vs[cur as int]));
                assert(done.drop_last() =~= closed);
                closed = done;
            }
            cur = i;
            run = 1;
        }
        i += 1;
    }
    write_run(&mut out, run, &values[cur]);
    proof {
        assert(vs.subrange(0, i as int) =~= vs);
        let done = closed.push((run as nat, vs[cur as int]));
        assert(done.drop_last() =~= closed);
    }
    Ok(out)
}

/// Reads every whole pair and repeats its value.
pub fn decode(data: &[u8]) -> (r: Result<Vec<Value>, OlapError>)
    ensures
        r is Ok,
        views(r->Ok_0@) == decoded(data@),
{
    let mut out: Vec<Value> = Vec::new();
    let mut pos: usize = 0;
    let ghost mut pairs: nat = 0;
    assert(views(out@) =~= decoded_pairs(data@, 0));
    while data.len() - pos >= 12
        invariant
            pos == 12 * pairs,
            pos <= data.len(),
            views(out@) == decoded_pairs(data@, pairs),
        decreases data.len() - pos,
    {
        let run = read_u32_le(data, pos);
        let val = read_i64_le(data, pos + 4);
        let ghost start = views(out@);
        let mut j: u32 = 0;
        while j < run
            invariant
                j <= run,
                out@.len() == start.len() + j,
                forall|k: int| 0 <= k < start.len() ==> (#[trigger] out@[k])@ == start[k],
                forall|k: int|
                    start.len() <= k < out@.len() ==> (#[trigger] out@[k])@ == ValueView::Int64(
                        val,
                    ),
            decreases run - j,
        {
            out.push(Value::Int64(val));
            j += 1;
        }
        proof {
            pairs = pairs + 1;
            assert(views(out@) =~= start + Seq::new(
                run as nat,
                |k: int| ValueView::Int64(val),
            ));
            assert(data@.subrange(pos as int, pos + 4) =~= data@.subrange(
                12 * (pairs - 1),
                12 * (pairs - 1) + 4,
            ));
            assert(data@.subrange(pos + 4, pos + 4 + 8) =~= data@.subrange(
                12 * (pairs - 1) + 4,
                12 * (pairs - 1) + 12,
            ));
            assert(views(out@) =~= decoded_pairs(data@, pairs));
        }
        pos += 12;
    }
    assert(pairs == data@.len() / 12);
    Ok(out)
}

} // verus!
