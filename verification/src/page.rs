//! Pages: framed, checksummed blocks of encoded and compressed values.
//!
//! A page is laid out as
//!
//! ```text
//! value_count   u32, little-endian
//! first_row_id  u32, little-endian
//! uncompressed  u32, little-endian: size of the encoded values
//! has_nulls     u8, always zero
//! payload       the encoded values, compressed
//! checksum      u32, little-endian: CRC-32 of everything before it
//! ```

use crate::checksum::{crc32, crc32_of, lemma_crc32_detects_byte_change};
use crate::common::OlapError;
use crate::compression::{compress, decompress, decompressed, LZ4_MAX_INPUT_SIZE};
use crate::encoding::{
    as_int64s, decode, decoded, encode, encoded, lemma_delta_round_trip, lemma_plain_round_trip,
};
use crate::field_type::{views, CompressionType, EncodingType, Value, ValueView};
use crate::wire::{
    lemma_u32_le_round_trip, push_bytes, push_u32_le, read_u32_le, u32_from_le, u32_le,
};
use vstd::prelude::*;
use vstd::string::StringExecFns;

verus! {

/// The number of rows after which a page counts as full.
pub const PAGE_MAX_ROWS: usize = 1024;

/// The length of a page without its payload: the header and the checksum.
pub const PAGE_OVERHEAD: usize = 17;

/// A page before its checksum: the header and the payload.
pub open spec fn page_body(
    count: u32,
    first_row_id: u32,
    uncompressed_size: u32,
    payload: Seq<u8>,
) -> Seq<u8> {
    u32_le(count) + u32_le(first_row_id) + u32_le(uncompressed_size) + seq![0u8] + payload
}

/// The bytes of a page: its body, then the checksum of the body.
pub open spec fn framed(
    count: u32,
    first_row_id: u32,
    uncompressed_size: u32,
    payload: Seq<u8>,
) -> Seq<u8> {
    page_body(count, first_row_id, uncompressed_size, payload) + u32_le(
        crc32(page_body(count, first_row_id, uncompressed_size, payload)),
    )
}

/// The payload of a page of at least `PAGE_OVERHEAD` bytes.
pub open spec fn payload_of(page: Seq<u8>) -> Seq<u8> {
    page.subrange(13, page.len() - 4)
}

/// Whether the trailing checksum of a page matches the bytes before it.
pub open spec fn checksum_ok(page: Seq<u8>) -> bool {
    u32_from_le(page.subrange(page.len() - 4, page.len() as int)) == crc32(
        page.subrange(0, page.len() - 4),
    )
}

/// Why a page cannot be decoded.
pub enum PageFault {
    /// The page is shorter than its header and checksum.
    TooShort,
    /// The checksum does not match.
    Checksum,
    /// The payload cannot be decompressed.
    Compression,
    /// The decompressed payload cannot be decoded.
    Encoding,
}

/// What is read from a page.
pub struct PageContent {
    pub value_count: nat,
    pub first_row_id: u32,
    pub values: Seq<ValueView>,
}

/// What decoding `page` gives: its content, or the first fault found. The
/// length is checked first, then the checksum; the payload is decompressed
/// to the size the header states and decoded for the count it states.
pub open spec fn decoded_page(
    page: Seq<u8>,
    encoding: EncodingType,
    compression: CompressionType,
) -> Result<PageContent, PageFault> {
    if page.len() < PAGE_OVERHEAD {
        Err(PageFault::TooShort)
    } else if !checksum_ok(page) {
        Err(PageFault::Checksum)
    } else {
        let count = u32_from_le(page.subrange(0, 4));
        let first_row_id = u32_from_le(page.subrange(4, 8));
        let size = u32_from_le(page.subrange(8, 12));
        match decompressed(payload_of(page), compression, size as usize) {
            None => Err(PageFault::Compression),
            Some(raw) => match decoded(raw, encoding, count as nat) {
                None => Err(PageFault::Encoding),
                Some(values) => Ok(
                    PageContent { value_count: count as nat, first_row_id, values },
                ),
            },
        }
    }
}

/// Whether `page` is a page built from `contents`: the frame of their
/// number, the first row id and the size of their encoding, around a payload
/// that decompresses to their encoding. Without compression the payload is
/// the encoding itself.
pub open spec fn is_built_page(
    page: Seq<u8>,
    contents: Seq<ValueView>,
    first_row_id: u32,
    encoding: EncodingType,
    compression: CompressionType,
) -> bool {
    let raw = encoded(contents, encoding);
    &&& page == framed(contents.len() as u32, first_row_id, raw.len() as u32, payload_of(page))
    &&& decompressed(payload_of(page), compression, (raw.len() as u32) as usize) == Some(raw)
    &&& compression is Uncompressed ==> payload_of(page) == raw
}

/// Frames a payload as a page: writes the header, the payload and the
/// checksum of both.
pub fn frame_page(count: u32, first_row_id: u32, uncompressed_size: u32, payload: &[u8]) -> (page:
    Vec<u8>)
    ensures
        page@ == framed(count, first_row_id, uncompressed_size, payload@),
{
    let mut page: Vec<u8> = Vec::new();
    push_u32_le(&mut page, count);
    push_u32_le(&mut page, first_row_id);
    push_u32_le(&mut page, uncompressed_size);
    page.push(0u8);
    push_bytes(&mut page, payload);
    assert(page@ =~= page_body(count, first_row_id, uncompressed_size, payload@));
    let crc = crc32_of(page.as_slice());
    push_u32_le(&mut page, crc);
    page
}

/// Collects the values of one page.
pub struct PageBuilder {
    pub first_row_id: u32,
    encoding: EncodingType,
    compression: CompressionType,
    values: Vec<Value>,
}

impl PageBuilder {
    /// The row id of the first value of the page.
    pub closed spec fn first_row(&self) -> u32 {
        self.first_row_id
    }

    /// The values collected so far.
    pub closed spec fn contents(&self) -> Seq<ValueView> {
        views(self.values@)
    }

    /// The encoding the page will be built with.
    pub closed spec fn encoding_used(&self) -> EncodingType {
        self.encoding
    }

    /// The compression the page will be built with.
    pub closed spec fn compression_used(&self) -> CompressionType {
        self.compression
    }

    pub fn new(first_row_id: u32, encoding: EncodingType, compression: CompressionType) -> (b:
        Self)
        ensures
            b.first_row() == first_row_id,
            b.encoding_used() == encoding,
            b.compression_used() == compression,
            b.contents() == Seq::<ValueView>::empty(),
    {
        let b = Self { first_row_id, encoding, compression, values: Vec::new() };
        assert(b.contents() =~= Seq::<ValueView>::empty());
        b
    }

    /// Appends a value.
    pub fn add(&mut self, v: Value)
        ensures
            final(self).contents() == old(self).contents().push(v@),
            final(self).first_row() == old(self).first_row(),
            final(self).encoding_used() == old(self).encoding_used(),
            final(self).compression_used() == old(self).compression_used(),
    {
        self.values.push(v);
        assert(self.contents() =~= old(self).contents().push(v@));
    }

    /// The row id of the first value of the page.
    pub fn first_row_id(&self) -> (id: u32)
        ensures
            id == self.first_row(),
    {
        self.first_row_id
    }

    pub fn len(&self) -> (n: usize)
        ensures
            n == self.contents().len(),
    {
        self.values.len()
    }

    pub fn is_empty(&self) -> (r: bool)
        ensures
            r == (self.contents().len() == 0),
    {
        self.values.len() == 0
    }

    pub fn is_full(&self) -> (r: bool)
        ensures
            r == (self.contents().len() >= PAGE_MAX_ROWS),
    {
        self.values.len() >= PAGE_MAX_ROWS
    }

    /// Encodes, compresses and frames the collected values.
    ///
    /// The call succeeds unless the encoded values are too long for LZ4, and
    /// then gives a page built from the collected values.
    pub fn build(self) -> (r: Result<Vec<u8>, OlapError>)
        requires
            self.encoding_used() is RunLength ==> self.contents().len() <= u32::MAX,
        ensures
            r is Ok <==> (self.compression_used() is Lz4 ==> encoded(
                self.contents(),
                self.encoding_used(),
            ).len() <= LZ4_MAX_INPUT_SIZE),
            r is Ok ==> is_built_page(
                r->Ok_0@,
                self.contents(),
                self.first_row(),
                self.encoding_used(),
                self.compression_used(),
            ),
            r is Err ==> r->Err_0 is Compression,
    {
        let count = #[verifier::truncate] (self.values.len() as u32);
        let raw = match encode(self.values.as_slice(), self.encoding) {
            Ok(raw) => raw,
            Err(e) => {
                return Err(e);
            },
        };
        let uncompressed_size = #[verifier::truncate] (raw.len() as u32);
        let payload = match compress(raw.as_slice(), self.compression) {
            Ok(payload) => payload,
            Err(e) => {
                return Err(e);
            },
        };
        let page = frame_page(count, self.first_row_id, uncompressed_size, payload.as_slice());
        proof {
            lemma_frame_parts(count, self.first_row_id, uncompressed_size, payload@);
            assert(raw@.len() as usize == raw@.len());
            if self.compression is Lz4 {
                assert(raw@.len() <= LZ4_MAX_INPUT_SIZE);
                assert((raw@.len() as u32) as usize == raw@.len());
            }
        }
        Ok(page)
    }
}

/// The parts of a framed page: its length, its header fields, its payload
/// and its checksum.
pub proof fn lemma_frame_parts(count: u32, first_row_id: u32, size: u32, payload: Seq<u8>)
    ensures
        framed(count, first_row_id, size, payload).len() == PAGE_OVERHEAD + payload.len(),
        payload_of(framed(count, first_row_id, size, payload)) == payload,
        u32_from_le(framed(count, first_row_id, size, payload).subrange(0, 4)) == count,
        u32_from_le(framed(count, first_row_id, size, payload).subrange(4, 8)) == first_row_id,
        u32_from_le(framed(count, first_row_id, size, payload).subrange(8, 12)) == size,
        checksum_ok(framed(count, first_row_id, size, payload)),
{
    let body = page_body(count, first_row_id, size, payload);
    let page = framed(count, first_row_id, size, payload);
    assert(body.len() == 13 + payload.len());
    assert(page.len() == 17 + payload.len());
    assert(payload_of(page) =~= payload);
    assert(page.subrange(0, 4) =~= u32_le(count));
    assert(page.subrange(4, 8) =~= u32_le(first_row_id));
    assert(page.subrange(8, 12) =~= u32_le(size));
    assert(page.subrange(page.len() - 4, page.len() as int) =~= u32_le(crc32(body)));
    assert(page.subrange(0, page.len() - 4) =~= body);
    lemma_u32_le_round_trip(count);
    lemma_u32_le_round_trip(first_row_id);
    lemma_u32_le_round_trip(size);
    lemma_u32_le_round_trip(crc32(body));
}

/// A framed page decodes to what its payload holds: the values that the
/// decoder reads from the decompressed payload, under the count and the
/// first row id of the frame.
pub proof fn lemma_page_round_trip(
    count: u32,
    first_row_id: u32,
    raw: Seq<u8>,
    payload: Seq<u8>,
    encoding: EncodingType,
    compression: CompressionType,
)
    requires
        decompressed(payload, compression, (raw.len() as u32) as usize) == Some(raw),
    ensures
        decoded_page(
            framed(count, first_row_id, raw.len() as u32, payload),
            encoding,
            compression,
        ) == (match decoded(raw, encoding, count as nat) {
            Some(values) => Ok(PageContent { value_count: count as nat, first_row_id, values }),
            None => Err(PageFault::Encoding),
        }),
{
    lemma_frame_parts(count, first_row_id, raw.len() as u32, payload);
}

/// Whether values under an encoding are read back as the 64-bit integers
/// they project to: under delta encoding always, under plain encoding where
/// every value is a 64-bit integer.
#[verifier::opaque]
pub open spec fn reads_back(contents: Seq<ValueView>, encoding: EncodingType) -> bool {
    encoding is DeltaBinary || (encoding is Plain && forall|i: int|
        0 <= i < contents.len() ==> #[trigger] contents[i] is Int64)
}

/// A page built from values that are read back decodes to their integer
/// projections, under the count and the first row id it was built with.
pub proof fn lemma_built_page_decodes(
    page: Seq<u8>,
    contents: Seq<ValueView>,
    first_row_id: u32,
    encoding: EncodingType,
    compression: CompressionType,
)
    requires
        is_built_page(page, contents, first_row_id, encoding, compression),
        contents.len() <= u32::MAX,
        reads_back(contents, encoding),
    ensures
        page.len() >= PAGE_OVERHEAD,
        decoded_page(page, encoding, compression) == Ok::<PageContent, PageFault>(
            PageContent { value_count: contents.len(), first_row_id, values: as_int64s(contents) },
        ),
{
    reveal(reads_back);
    let raw = encoded(contents, encoding);
    lemma_frame_parts(contents.len() as u32, first_row_id, raw.len() as u32, payload_of(page));
    lemma_page_round_trip(
        contents.len() as u32,
        first_row_id,
        raw,
        payload_of(page),
        encoding,
        compression,
    );
    if encoding is DeltaBinary {
        lemma_delta_round_trip(contents);
    } else {
        lemma_plain_round_trip(contents);
        assert(as_int64s(contents) =~= contents);
    }
}

proof fn lemma_u32_from_le_injective(a: Seq<u8>, b: Seq<u8>)
    requires
        a.len() == 4,
        b.len() == 4,
        u32_from_le(a) == u32_from_le(b),
    ensures
        a == b,
{
    let (a0, a1, a2, a3) = (a[0], a[1], a[2], a[3]);
    let (b0, b1, b2, b3) = (b[0], b[1], b[2], b[3]);
    assert(a0 == b0 && a1 == b1 && a2 == b2 && a3 == b3) by (bit_vector)
        requires
            (a0 as u32) | ((a1 as u32) << 8) | ((a2 as u32) << 16) | ((a3 as u32) << 24) == (b0 as u32)
                | ((b1 as u32) << 8) | ((b2 as u32) << 16) | ((b3 as u32) << 24),
    ;
    assert(a =~= b);
}

/// A page whose checksum matches stops matching when any one of its bytes
/// is changed, by one bit or by more: decoding the changed page reports a
/// checksum fault.
pub proof fn lemma_page_detects_corruption(
    page: Seq<u8>,
    changed: Seq<u8>,
    i: int,
    encoding: EncodingType,
    compression: CompressionType,
)
    requires
        page.len() >= PAGE_OVERHEAD,
        checksum_ok(page),
        changed.len() == page.len(),
        0 <= i < page.len(),
        changed[i] != page[i],
        forall|j: int| 0 <= j < page.len() && j != i ==> changed[j] == page[j],
    ensures
        decoded_page(changed, encoding, compression) == Err::<PageContent, PageFault>(
            PageFault::Checksum,
        ),
{
    let n = page.len() as int;
    let body = page.subrange(0, n - 4);
    let body2 = changed.subrange(0, n - 4);
    let tail = page.subrange(n - 4, n);
    let tail2 = changed.subrange(n - 4, n);
    if i < n - 4 {
        assert(tail2 =~= tail);
        lemma_crc32_detects_byte_change(body, body2, i);
    } else {
        assert(body2 =~= body);
        assert(tail2[i - (n - 4)] != tail[i - (n - 4)]);
        if u32_from_le(tail2) == u32_from_le(tail) {
            lemma_u32_from_le_injective(tail2, tail);
        }
    }
}

/// The values read from a page.
pub struct PageDecoder {
    pub value_count: usize,
    pub first_row_id: u32,
    pub values: Vec<Value>,
}

impl PageDecoder {
    /// Checks and decodes a page.
    ///
    /// Fails with `SegmentIo` on a page shorter than `PAGE_OVERHEAD` bytes,
    /// with `ChecksumMismatch` where the checksum does not match, with
    /// `Compression` where the payload cannot be decompressed and with
    /// `Encoding` where the decompressed payload cannot be decoded.
    pub fn decode(data: &[u8], encoding: EncodingType, compression: CompressionType) -> (r: Result<
        Self,
        OlapError,
    >)
        ensures
            match decoded_page(data@, encoding, compression) {
                Ok(content) => r is Ok && r->Ok_0.value_count == content.value_count
                    && r->Ok_0.first_row_id == content.first_row_id && views(r->Ok_0.values@)
                    == content.values,
                Err(PageFault::TooShort) => r is Err && r->Err_0 is SegmentIo
                    && r->Err_0->SegmentIo_0@ == "page data too short"@,
                Err(PageFault::Checksum) => r is Err && r->Err_0 is ChecksumMismatch,
                Err(PageFault::Compression) => r is Err && r->Err_0 is Compression,
                Err(PageFault::Encoding) => r is Err && r->Err_0 is Encoding
                    && r->Err_0->Encoding_0@ == "dict: data too short"@,
            },
    {
        if data.len() < PAGE_OVERHEAD {
            return Err(OlapError::SegmentIo(String::from_str("page data too short")));
        }
        let value_count = read_u32_le(data, 0);
        let first_row_id = read_u32_le(data, 4);
        let uncompressed_size = read_u32_le(data, 8);
        let payload_end: usize = data.len() - 4;
        let payload = vstd::slice::slice_subrange(data, 13, payload_end);
        let stored = read_u32_le(data, payload_end);
        let actual = crc32_of(vstd::slice::slice_subrange(data, 0, payload_end));
        if stored != actual {
            return Err(OlapError::ChecksumMismatch);
        }
        let raw = match decompress(payload, compression, uncompressed_size as usize) {
            Ok(raw) => raw,
            Err(e) => {
                return Err(e);
            },
        };
        let values = match decode(raw.as_slice(), encoding, value_count as usize) {
            Ok(values) => values,
            Err(e) => {
                return Err(e);
            },
        };
        Ok(Self { value_count: value_count as usize, first_row_id, values })
    }
}

} // verus!
