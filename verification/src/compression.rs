//! Compression of encoded pages: none, or LZ4 in block mode.

use crate::common::OlapError;
use crate::field_type::{copy_bytes, CompressionType};
use vstd::prelude::*;

verus! {

/// The largest input, in bytes, that LZ4 block mode accepts.
pub const LZ4_MAX_INPUT_SIZE: usize = 0x7E00_0000;

/// Makes `std::io::Error`, the error type of the LZ4 calls, known as an
/// opaque type.
#[verifier::external_type_specification]
#[verifier::external_body]
pub struct ExIoError(std::io::Error);

/// What `lz4::block::decompress` gives for a block and a stated size of the
/// uncompressed data: the bytes, or `None` where it reports an error.
pub uninterp spec fn lz4_block_decoded(block: Seq<u8>, size: i32) -> Option<Seq<u8>>;

/// Calls `lz4::block::compress` in its default mode, without a size prefix.
/// The crate's source rejects inputs longer than `LZ4_MAX_INPUT_SIZE` and
/// sizes the output by the library's bound, for which the library documents
/// that compression succeeds; its documentation shows that the block
/// decompresses to the input when the input's length is given as the size.
#[verifier::external_body]
fn lz4_block_compress(data: &[u8]) -> (r: Result<Vec<u8>, std::io::Error>)
    ensures
        r is Ok <==> data@.len() <= LZ4_MAX_INPUT_SIZE,
        r is Ok ==> lz4_block_decoded(r->Ok_0@, data@.len() as i32) == Some(data@),
{
    lz4::block::compress(data, None, false)
}

/// Calls `lz4::block::decompress` with the stated size of the uncompressed
/// data.
/// The result is what the name `lz4_block_decoded` stands for; the crate's
/// source rejects a negative size.
#[verifier::external_body]
fn lz4_block_decompress(block: &[u8], size: i32) -> (r: Result<Vec<u8>, std::io::Error>)
    ensures
        r is Ok <==> lz4_block_decoded(block@, size) is Some,
        r is Ok ==> r->Ok_0@ == lz4_block_decoded(block@, size)->0,
        size < 0 ==> r is Err,
{
    lz4::block::decompress(block, Some(size))
}

/// The bytes that decompression gives back for `data` under `codec`, or
/// `None` where it fails. A length that does not fit the signed 32-bit size
/// of an LZ4 block is handed on as a negative size.
pub open spec fn decompressed(
    data: Seq<u8>,
    codec: CompressionType,
    uncompressed_len: usize,
) -> Option<Seq<u8>> {
    match codec {
        CompressionType::Uncompressed => Some(data),
        CompressionType::Lz4 => lz4_block_decoded(data, lz4_size(uncompressed_len)),
    }
}

/// The size handed to LZ4 for a stated length: the length itself, or `-1`
/// where it exceeds `i32::MAX`.
pub open spec fn lz4_size(uncompressed_len: usize) -> i32 {
    if uncompressed_len <= i32::MAX {
        uncompressed_len as i32
    } else {
        -1i32
    }
}

/// Compresses `data`.
///
/// Without compression the bytes come back unchanged. Under LZ4 the call
/// succeeds exactly for inputs of at most `LZ4_MAX_INPUT_SIZE` bytes, and the
/// block decompresses to `data` when the length of `data` is stated.
pub fn compress(data: &[u8], codec: CompressionType) -> (r: Result<Vec<u8>, OlapError>)
    ensures
        codec is Uncompressed ==> r is Ok && r->Ok_0@ == data@,
        codec is Lz4 ==> (r is Ok <==> data@.len() <= LZ4_MAX_INPUT_SIZE),
        r is Ok ==> decompressed(r->Ok_0@, codec, data@.len() as usize) == Some(data@),
        r is Err ==> r->Err_0 is Compression,
{
    match codec {
        CompressionType::Uncompressed => Ok(copy_bytes(data)),
        CompressionType::Lz4 => match lz4_block_compress(data) {
            Ok(block) => Ok(block),
            Err(e) => Err(OlapError::Compression(e.to_string())),
        },
    }
}

/// Decompresses `data`, given the length of the uncompressed data.
pub fn decompress(data: &[u8], codec: CompressionType, uncompressed_len: usize) -> (r: Result<
    Vec<u8>,
    OlapError,
>)
    ensures
        r is Ok <==> decompressed(data@, codec, uncompressed_len) is Some,
        r is Ok ==> r->Ok_0@ == decompressed(data@, codec, uncompressed_len)->0,
        r is Err ==> r->Err_0 is Compression,
        codec is Lz4 && uncompressed_len > i32::MAX ==> r is Err,
{
    match codec {
        CompressionType::Uncompressed => Ok(copy_bytes(data)),
        CompressionType::Lz4 => {
            let size: i32 = if uncompressed_len <= i32::MAX as usize {
                uncompressed_len as i32
            } else {
                -1
            };
            match lz4_block_decompress(data, size) {
                Ok(bytes) => Ok(bytes),
                Err(e) => Err(OlapError::Compression(e.to_string())),
            }
        },
    }
}

} // verus!
