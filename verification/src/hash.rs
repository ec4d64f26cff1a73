//! The FNV-1a hash over 64 bits, used for bucketing and by the Bloom filter.

use vstd::prelude::*;
use vstd::wrapping::u64_specs::wrapping_mul;

verus! {

/// The 64-bit FNV prime.
pub const FNV_PRIME: u64 = 0x0000_0100_0000_01b3;

/// The 64-bit FNV offset basis.
pub const FNV_OFFSET_BASIS: u64 = 0xcbf2_9ce4_8422_2325;

/// FNV-1a of `bytes` from a starting value: for each byte, exclusive-or it
/// in and multiply by the prime modulo 2^64.
pub open spec fn fnv1a(seed: u64, bytes: Seq<u8>) -> u64
    decreases bytes.len(),
{
    if bytes.len() == 0 {
        seed
    } else {
        wrapping_mul(fnv1a(seed, bytes.drop_last()) ^ (bytes.last() as u64), FNV_PRIME)
    }
}

/// Computes FNV-1a of `bytes` from `seed`.
pub fn fnv1a_hash(seed: u64, bytes: &[u8]) -> (h: u64)
    ensures
        h == fnv1a(seed, bytes@),
{
    let mut h: u64 = seed;
    let mut i: usize = 0;
    assert(bytes@.subrange(0, 0) =~= Seq::<u8>::empty());
    while i < bytes.len()
        invariant
            i <= bytes.len(),
            h == fnv1a(seed, bytes@.subrange(0, i as int)),
        decreases bytes.len() - i,
    {
        proof {
            let next = bytes@.subrange(0, i + 1);
            assert(next.drop_last() =~= bytes@.subrange(0, i as int));
            assert(next.last() == bytes@[i as int]);
        }
        h = (h ^ (bytes[i] as u64)).wrapping_mul(FNV_PRIME);
        i += 1;
    }
    assert(bytes@.subrange(0, i as int) =~= bytes@);
    h
}

} // verus!
