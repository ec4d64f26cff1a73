//! The CRC-32 checksum that protects pages and segment footers.
//!
//! The checksum is the IEEE CRC-32 of zlib: reflected polynomial
//! `0xEDB88320`, initial register of all ones, final complement.

use vstd::prelude::*;

verus! {

/// One step of the checksum register: shift right by one bit and fold the
/// polynomial in when the bit shifted out is set.
pub open spec fn crc32_shift(c: u32) -> u32 {
    if c & 1 == 1 {
        (c >> 1) ^ 0xEDB8_8320
    } else {
        c >> 1
    }
}

/// `k` steps of the checksum register.
pub open spec fn crc32_shifts(c: u32, k: nat) -> u32
    decreases k,
{
    if k == 0 {
        c
    } else {
        crc32_shifts(crc32_shift(c), (k - 1) as nat)
    }
}

/// The register after one more byte.
pub open spec fn crc32_byte(c: u32, b: u8) -> u32 {
    crc32_shifts(c ^ (b as u32), 8)
}

/// The register after all of `bytes`, starting from all ones.
pub open spec fn crc32_register(bytes: Seq<u8>) -> u32
    decreases bytes.len(),
{
    if bytes.len() == 0 {
        0xFFFF_FFFF
    } else {
        crc32_byte(crc32_register(bytes.drop_last()), bytes.last())
    }
}

/// The IEEE CRC-32 of `bytes`.
pub open spec fn crc32(bytes: Seq<u8>) -> u32 {
    crc32_register(bytes) ^ 0xFFFF_FFFF
}

/// Calls `crc32fast::hash`. The crate documents its result as the IEEE
/// CRC-32 of the slice; the contract states that checksum by its bitwise
/// definition. Nothing here proves that the crate computes it.
#[verifier::external_body]
pub(crate) fn crc32_of(bytes: &[u8]) -> (c: u32)
    ensures
        c == crc32(bytes@),
{
    crc32fast::hash(bytes)
}

proof fn lemma_shift_injective(a: u32, b: u32)
    requires
        a != b,
    ensures
        crc32_shift(a) != crc32_shift(b),
{
    if a & 1 == 1 {
        if b & 1 == 1 {
            assert((a >> 1) ^ 0xEDB8_8320 != (b >> 1) ^ 0xEDB8_8320) by (bit_vector)
                requires
                    a != b,
                    a & 1 == 1,
                    b & 1 == 1,
            ;
        } else {
            assert((a >> 1) ^ 0xEDB8_8320 != (b >> 1)) by (bit_vector);
        }
    } else {
        if b & 1 == 1 {
            assert((a >> 1) != (b >> 1) ^ 0xEDB8_8320) by (bit_vector);
        } else {
            assert((a >> 1) != (b >> 1)) by (bit_vector)
                requires
                    a != b,
                    a & 1 != 1,
                    b & 1 != 1,
            ;
        }
    }
}

proof fn lemma_shifts_injective(a: u32, b: u32, k: nat)
    requires
        a != b,
    ensures
        crc32_shifts(a, k) != crc32_shifts(b, k),
    decreases k,
{
    if k > 0 {
        lemma_shift_injective(a, b);
        lemma_shifts_injective(crc32_shift(a), crc32_shift(b), (k - 1) as nat);
    }
}

proof fn lemma_register_detects_byte_change(a: Seq<u8>, b: Seq<u8>, i: int)
    requires
        a.len() == b.len(),
        0 <= i < a.len(),
        a[i] != b[i],
        forall|j: int| 0 <= j < a.len() && j != i ==> a[j] == b[j],
    ensures
        crc32_register(a) != crc32_register(b),
    decreases a.len(),
{
    let ra = crc32_register(a.drop_last());
    let rb = crc32_register(b.drop_last());
    let x = a.last();
    let y = b.last();
    if i == a.len() - 1 {
        assert(a.drop_last() =~= b.drop_last());
        assert(ra ^ (x as u32) != ra ^ (y as u32)) by (bit_vector)
            requires
                x != y,
        ;
        lemma_shifts_injective(ra ^ (x as u32), rb ^ (y as u32), 8);
    } else {
        lemma_register_detects_byte_change(a.drop_last(), b.drop_last(), i);
        assert(x == y);
        assert(ra ^ (x as u32) != rb ^ (x as u32)) by (bit_vector)
            requires
                ra != rb,
        ;
        lemma_shifts_injective(ra ^ (x as u32), rb ^ (y as u32), 8);
    }
}

/// Two byte strings of one length that differ in exactly one byte, by
/// one bit or by more, have different checksums.
pub proof fn lemma_crc32_detects_byte_change(a: Seq<u8>, b: Seq<u8>, i: int)
    requires
        a.len() == b.len(),
        0 <= i < a.len(),
        a[i] != b[i],
        forall|j: int| 0 <= j < a.len() && j != i ==> a[j] == b[j],
    ensures
        crc32(a) != crc32(b),
{
    lemma_register_detects_byte_change(a, b, i);
    let ra = crc32_register(a);
    let rb = crc32_register(b);
    assert(ra ^ 0xFFFF_FFFF != rb ^ 0xFFFF_FFFF) by (bit_vector)
        requires
            ra != rb,
    ;
}

} // verus!
