//! Fixed-width integer layouts used by every binary format of the engine.
//!
//! Little-endian layouts are used inside segment files; big-endian layouts
//! are used for sort keys, so that the byte order of a key follows the
//! numeric order of an unsigned value.

use vstd::prelude::*;

verus! {

/// Little-endian layout of a 16-bit value.
pub open spec fn u16_le(x: u16) -> Seq<u8> {
    seq![x as u8, (x >> 8) as u8]
}

/// Little-endian layout of a 32-bit value.
pub open spec fn u32_le(x: u32) -> Seq<u8> {
    seq![x as u8, (x >> 8) as u8, (x >> 16) as u8, (x >> 24) as u8]
}

/// Little-endian layout of a 64-bit value.
pub open spec fn u64_le(x: u64) -> Seq<u8> {
    seq![
        x as u8,
        (x >> 8) as u8,
        (x >> 16) as u8,
        (x >> 24) as u8,
        (x >> 32) as u8,
        (x >> 40) as u8,
        (x >> 48) as u8,
        (x >> 56) as u8,
    ]
}

/// Little-endian two's complement layout of a signed 64-bit value.
pub open spec fn i64_le(x: i64) -> Seq<u8> {
    u64_le(x as u64)
}

/// Value of the first four bytes of `b` read as little-endian.
pub open spec fn u32_from_le(b: Seq<u8>) -> u32
    recommends
        b.len() >= 4,
{
    (b[0] as u32) | ((b[1] as u32) << 8) | ((b[2] as u32) << 16) | ((b[3] as u32) << 24)
}

/// Value of the first eight bytes of `b` read as little-endian.
pub open spec fn u64_from_le(b: Seq<u8>) -> u64
    recommends
        b.len() >= 8,
{
    (b[0] as u64) | ((b[1] as u64) << 8) | ((b[2] as u64) << 16) | ((b[3] as u64) << 24) | ((
    b[4] as u64) << 32) | ((b[5] as u64) << 40) | ((b[6] as u64) << 48) | ((b[7] as u64) << 56)
}

/// Value of the first eight bytes of `b` read as a little-endian signed integer.
pub open spec fn i64_from_le(b: Seq<u8>) -> i64
    recommends
        b.len() >= 8,
{
    u64_from_le(b) as i64
}

/// Big-endian layout of a 16-bit value.
pub open spec fn u16_be(x: u16) -> Seq<u8> {
    seq![(x >> 8) as u8, x as u8]
}

/// Big-endian layout of a 32-bit value.
pub open spec fn u32_be(x: u32) -> Seq<u8> {
    seq![(x >> 24) as u8, (x >> 16) as u8, (x >> 8) as u8, x as u8]
}

/// Big-endian layout of a 64-bit value.
pub open spec fn u64_be(x: u64) -> Seq<u8> {
    seq![
        (x >> 56) as u8,
        (x >> 48) as u8,
        (x >> 40) as u8,
        (x >> 32) as u8,
        (x >> 24) as u8,
        (x >> 16) as u8,
        (x >> 8) as u8,
        x as u8,
    ]
}

/// Reading back a little-endian 32-bit layout gives the value written.
pub proof fn lemma_u32_le_round_trip(x: u32)
    ensures
        u32_from_le(u32_le(x)) == x,
        u32_le(x).len() == 4,
{
    let b = u32_le(x);
    assert((x as u8 as u32) | (((x >> 8) as u8 as u32) << 8) | (((x >> 16) as u8 as u32) << 16) | (((x
        >> 24) as u8 as u32) << 24) == x) by (bit_vector);
    assert(b[0] == x as u8 && b[1] == (x >> 8) as u8 && b[2] == (x >> 16) as u8 && b[3] == (x
        >> 24) as u8);
}

/// Reading back a little-endian 64-bit layout gives the value written.
pub proof fn lemma_u64_le_round_trip(x: u64)
    ensures
        u64_from_le(u64_le(x)) == x,
        u64_le(x).len() == 8,
{
    let b = u64_le(x);
    assert((x as u8 as u64) | (((x >> 8) as u8 as u64) << 8) | (((x >> 16) as u8 as u64) << 16) | (((x
        >> 24) as u8 as u64) << 24) | (((x >> 32) as u8 as u64) << 32) | (((x >> 40) as u8 as u64)
        << 40) | (((x >> 48) as u8 as u64) << 48) | (((x >> 56) as u8 as u64) << 56) == x)
        by (bit_vector);
    assert(b[0] == x as u8 && b[1] == (x >> 8) as u8 && b[2] == (x >> 16) as u8 && b[3] == (x
        >> 24) as u8 && b[4] == (x >> 32) as u8 && b[5] == (x >> 40) as u8 && b[6] == (x
        >> 48) as u8 && b[7] == (x >> 56) as u8);
}

/// Reading back a little-endian signed layout gives the value written.
pub proof fn lemma_i64_le_round_trip(x: i64)
    ensures
        i64_from_le(i64_le(x)) == x,
        i64_le(x).len() == 8,
{
    lemma_u64_le_round_trip(x as u64);
    assert((x as u64) as i64 == x) by (bit_vector);
}

/// Appends the little-endian layout of `x` to `out`.
pub fn push_u16_le(out: &mut Vec<u8>, x: u16)
    ensures
        final(out)@ == old(out)@ + u16_le(x),
{
    out.push(x as u8);
    out.push((x >> 8) as u8);
    assert(out@ =~= old(out)@ + u16_le(x));
}

/// Appends the little-endian layout of `x` to `out`.
pub fn push_u32_le(out: &mut Vec<u8>, x: u32)
    ensures
        final(out)@ == old(out)@ + u32_le(x),
{
    out.push(x as u8);
    out.push((x >> 8) as u8);
    out.push((x >> 16) as u8);
    out.push((x >> 24) as u8);
    assert(out@ =~= old(out)@ + u32_le(x));
}

/// Appends the little-endian layout of `x` to `out`.
pub fn push_u64_le(out: &mut Vec<u8>, x: u64)
    ensures
        final(out)@ == old(out)@ + u64_le(x),
{
    out.push(x as u8);
    out.push((x >> 8) as u8);
    out.push((x >> 16) as u8);
    out.push((x >> 24) as u8);
    out.push((x >> 32) as u8);
    out.push((x >> 40) as u8);
    out.push((x >> 48) as u8);
    out.push((x >> 56) as u8);
    assert(out@ =~= old(out)@ + u64_le(x));
}

/// Appends the little-endian two's complement layout of `x` to `out`.
pub fn push_i64_le(out: &mut Vec<u8>, x: i64)
    ensures
        final(out)@ == old(out)@ + i64_le(x),
{
    push_u64_le(out, x as u64);
}

/// Appends every byte of `bytes` to `out`.
pub fn push_bytes(out: &mut Vec<u8>, bytes: &[u8])
    ensures
        final(out)@ == old(out)@ + bytes@,
{
    let mut i: usize = 0;
    while i < bytes.len()
        invariant
            i <= bytes.len(),
            out@ == old(out)@ + bytes@.subrange(0, i as int),
        decreases bytes.len() - i,
    {
        out.push(bytes[i]);
        i += 1;
        assert(out@ =~= old(out)@ + bytes@.subrange(0, i as int));
    }
    assert(bytes@.subrange(0, i as int) =~= bytes@);
}

/// Reads a little-endian 32-bit value at `pos`.
pub fn read_u32_le(data: &[u8], pos: usize) -> (r: u32)
    requires
        pos + 4 <= data.len(),
    ensures
        r == u32_from_le(data@.subrange(pos as int, pos + 4)),
{
    let b0: u32 = data[pos] as u32;
    let b1: u32 = data[pos + 1] as u32;
    let b2: u32 = data[pos + 2] as u32;
    let b3: u32 = data[pos + 3] as u32;
    b0 | (b1 << 8) | (b2 << 16) | (b3 << 24)
}

/// Reads a little-endian 64-bit value at `pos`.
pub fn read_u64_le(data: &[u8], pos: usize) -> (r: u64)
    requires
        pos + 8 <= data.len(),
    ensures
        r == u64_from_le(data@.subrange(pos as int, pos + 8)),
{
    let b0: u64 = data[pos] as u64;
    let b1: u64 = data[pos + 1] as u64;
    let b2: u64 = data[pos + 2] as u64;
    let b3: u64 = data[pos + 3] as u64;
    let b4: u64 = data[pos + 4] as u64;
    let b5: u64 = data[pos + 5] as u64;
    let b6: u64 = data[pos + 6] as u64;
    let b7: u64 = data[pos + 7] as u64;
    b0 | (b1 << 8) | (b2 << 16) | (b3 << 24) | (b4 << 32) | (b5 << 40) | (b6 << 48) | (b7 << 56)
}

/// Reads a little-endian signed 64-bit value at `pos`.
pub fn read_i64_le(data: &[u8], pos: usize) -> (r: i64)
    requires
        pos + 8 <= data.len(),
    ensures
        r == i64_from_le(data@.subrange(pos as int, pos + 8)),
{
    read_u64_le(data, pos) as i64
}

/// A copy of `len` bytes of `data`, from `pos` on.
pub fn copy_range(data: &[u8], pos: usize, len: usize) -> (r: Vec<u8>)
    requires
        pos + len <= data.len(),
    ensures
        r@ == data@.subrange(pos as int, pos + len),
{
    let mut r: Vec<u8> = Vec::new();
    let mut i: usize = 0;
    while i < len
        invariant
            i <= len,
            pos + len <= data.len(),
            r@ == data@.subrange(pos as int, pos + i),
        decreases len - i,
    {
        r.push(data[pos + i]);
        i += 1;
        assert(r@ =~= data@.subrange(pos as int, pos + i));
    }
    r
}

} // verus!
