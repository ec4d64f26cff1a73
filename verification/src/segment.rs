//! Segment files: the data of every column, the indexes and a footer.
//!
//! ```text
//! magic "OLAPSEG\0"        8 bytes
//! version 2                u32
//! data region              the pages of column 0, of column 1, ...
//! index region             for each column: ordinal index, zone map,
//!                          Bloom filter; then the short key index
//! footer                   SegmentFooter
//! footer checksum          u32, CRC-32 of the footer
//! footer length            u32
//! magic                    8 bytes
//! ```
//!
//! All integers are little-endian. Page offsets in an ordinal index count
//! from the start of the file.

use crate::checksum::{crc32, crc32_of};
use crate::column_writer::{
    all_rows, key_prefix, ColumnState, ColumnWriter, ShortKeyIndexBuilder,
};
use crate::common::OlapError;
use crate::encoding::as_int64s;
use crate::field_type::{
    views, ColumnMeta, CompressionType, EncodingType, Value, ValueView,
};
use crate::index::{BloomFilter, OrdinalIndex, ShortKeyIndex, ZoneMapIndex, SHORT_KEY_INTERVAL};
use crate::page::{
    decoded_page, is_built_page, lemma_built_page_decodes, reads_back, PageDecoder,
};
use crate::text::{decimal, push_decimal};
use crate::wire::{
    push_bytes,
    lemma_u32_le_round_trip, lemma_u64_le_round_trip, push_u32_le, push_u64_le, read_u32_le,
    read_u64_le, u32_from_le, u32_le, u64_from_le, u64_le,
};
use vstd::prelude::*;
use vstd::string::StringExecFns;

verus! {

/// Where the indexes of one column lie in a segment.
#[derive(Debug, Clone, Copy, PartialEq, Eq, Structural)]
pub struct ColumnIndexMeta {
    pub ordinal_offset: u64,
    pub ordinal_size: u64,
    pub zonemap_offset: u64,
    pub zonemap_size: u64,
    pub bf_offset: u64,
    pub bf_size: u64,
}

impl ColumnIndexMeta {
    /// The layout of the entry: six 64-bit integers.
    pub open spec fn bytes(self) -> Seq<u8> {
        u64_le(self.ordinal_offset) + u64_le(self.ordinal_size) + u64_le(self.zonemap_offset)
            + u64_le(self.zonemap_size) + u64_le(self.bf_offset) + u64_le(self.bf_size)
    }

    /// The entry read from 48 bytes.
    pub open spec fn parsed(b: Seq<u8>) -> ColumnIndexMeta {
        ColumnIndexMeta {
            ordinal_offset: u64_from_le(b.subrange(0, 8)),
            ordinal_size: u64_from_le(b.subrange(8, 16)),
            zonemap_offset: u64_from_le(b.subrange(16, 24)),
            zonemap_size: u64_from_le(b.subrange(24, 32)),
            bf_offset: u64_from_le(b.subrange(32, 40)),
            bf_size: u64_from_le(b.subrange(40, 48)),
        }
    }

    /// An entry is read back from its layout as it was written.
    pub proof fn lemma_round_trip(self)
        ensures
            self.bytes().len() == 48,
            Self::parsed(self.bytes()) == self,
    {
        let b = self.bytes();
        lemma_u64_le_round_trip(self.ordinal_offset);
        lemma_u64_le_round_trip(self.ordinal_size);
        lemma_u64_le_round_trip(self.zonemap_offset);
        lemma_u64_le_round_trip(self.zonemap_size);
        lemma_u64_le_round_trip(self.bf_offset);
        lemma_u64_le_round_trip(self.bf_size);
        assert(b.subrange(0, 8) =~= u64_le(self.ordinal_offset));
        assert(b.subrange(8, 16) =~= u64_le(self.ordinal_size));
        assert(b.subrange(16, 24) =~= u64_le(self.zonemap_offset));
        assert(b.subrange(24, 32) =~= u64_le(self.zonemap_size));
        assert(b.subrange(32, 40) =~= u64_le(self.bf_offset));
        assert(b.subrange(40, 48) =~= u64_le(self.bf_size));
    }
}

/// The footer of a segment: the number of rows and columns and the place of
/// every index.
#[derive(Debug)]
pub struct SegmentFooter {
    pub num_rows: u32,
    pub num_columns: u32,
    pub short_key_offset: u64,
    pub short_key_size: u64,
    pub column_metas: Vec<ColumnIndexMeta>,
}

/// The mathematical content of a [`SegmentFooter`].
pub struct FooterView {
    pub num_rows: u32,
    pub num_columns: u32,
    pub short_key_offset: u64,
    pub short_key_size: u64,
    pub column_metas: Seq<ColumnIndexMeta>,
}

impl View for SegmentFooter {
    type V = FooterView;

    open spec fn view(&self) -> FooterView {
        FooterView {
            num_rows: self.num_rows,
            num_columns: self.num_columns,
            short_key_offset: self.short_key_offset,
            short_key_size: self.short_key_size,
            column_metas: self.column_metas@,
        }
    }
}

/// The length of a footer before its column entries.
pub const FOOTER_HEAD: usize = 24;

/// The length of one column entry of a footer.
pub const FOOTER_ENTRY: usize = 48;

impl FooterView {
    /// The layout of the column entries.
    pub open spec fn metas_bytes(metas: Seq<ColumnIndexMeta>) -> Seq<u8>
        decreases metas.len(),
    {
        if metas.len() == 0 {
            Seq::<u8>::empty()
        } else {
            Self::metas_bytes(metas.drop_last()) + metas.last().bytes()
        }
    }

    /// The layout of a footer: rows and columns as 32-bit integers, offset
    /// and size of the short key index, then the column entries.
    pub open spec fn bytes(self) -> Seq<u8> {
        u32_le(self.num_rows) + u32_le(self.num_columns) + u64_le(self.short_key_offset) + u64_le(
            self.short_key_size,
        ) + Self::metas_bytes(self.column_metas)
    }

    /// How many column entries are read from `data_len` bytes that announce
    /// `n` columns: those that are there in full.
    pub open spec fn parsed_len(data_len: nat, n: nat) -> nat {
        if n <= (data_len - FOOTER_HEAD) / (FOOTER_ENTRY as int) {
            n
        } else {
            ((data_len - FOOTER_HEAD) / (FOOTER_ENTRY as int)) as nat
        }
    }

    /// The footer read from `data`, or `None` where the data is shorter than
    /// the head of a footer.
    #[verifier::opaque]
    pub open spec fn parsed(data: Seq<u8>) -> Option<FooterView> {
        if data.len() < FOOTER_HEAD {
            None
        } else {
            let num_columns = u32_from_le(data.subrange(4, 8));
            Some(
                FooterView {
                    num_rows: u32_from_le(data.subrange(0, 4)),
                    num_columns,
                    short_key_offset: u64_from_le(data.subrange(8, 16)),
                    short_key_size: u64_from_le(data.subrange(16, 24)),
                    column_metas: Seq::new(
                        Self::parsed_len(data.len(), num_columns as nat),
                        |i: int|
                            ColumnIndexMeta::parsed(data.subrange(24 + 48 * i, 24 + 48 * i + 48)),
                    ),
                },
            )
        }
    }

    proof fn lemma_metas_layout(metas: Seq<ColumnIndexMeta>)
        ensures
            Self::metas_bytes(metas).len() == 48 * metas.len(),
            forall|i: int|
                0 <= i < metas.len() ==> #[trigger] Self::metas_bytes(metas).subrange(
                    48 * i,
                    48 * i + 48,
                ) == metas[i].bytes(),
        decreases metas.len(),
    {
        if metas.len() > 0 {
            let front = metas.drop_last();
            Self::lemma_metas_layout(front);
            metas.last().lemma_round_trip();
            let e = Self::metas_bytes(metas);
            let p = Self::metas_bytes(front);
            assert(e == p + metas.last().bytes());
            assert forall|i: int| 0 <= i < metas.len() implies #[trigger] e.subrange(
                48 * i,
                48 * i + 48,
            ) == metas[i].bytes() by {
                if i < metas.len() - 1 {
                    assert(e.subrange(48 * i, 48 * i + 48) =~= p.subrange(48 * i, 48 * i + 48));
                    assert(front[i] == metas[i]);
                } else {
                    assert(e.subrange(48 * i, 48 * i + 48) =~= metas.last().bytes());
                }
            }
        }
    }

    /// A footer whose number of columns is the number of its column entries
    /// is read back from its layout as it was written.
    pub proof fn lemma_round_trip(self)
        requires
            self.num_columns == self.column_metas.len(),
        ensures
            self.bytes().len() == FOOTER_HEAD + FOOTER_ENTRY * self.column_metas.len(),
            Self::parsed(self.bytes()) == Some(self),
    {
        reveal(FooterView::parsed);
        let b = self.bytes();
        let mb = Self::metas_bytes(self.column_metas);
        Self::lemma_metas_layout(self.column_metas);
        lemma_u32_le_round_trip(self.num_rows);
        lemma_u32_le_round_trip(self.num_columns);
        lemma_u64_le_round_trip(self.short_key_offset);
        lemma_u64_le_round_trip(self.short_key_size);
        assert(b.subrange(0, 4) =~= u32_le(self.num_rows));
        assert(b.subrange(4, 8) =~= u32_le(self.num_columns));
        assert(b.subrange(8, 16) =~= u64_le(self.short_key_offset));
        assert(b.subrange(16, 24) =~= u64_le(self.short_key_size));
        let back = Self::parsed(b)->0;
        assert(back.column_metas.len() == self.column_metas.len());
        assert forall|i: int| 0 <= i < self.column_metas.len() implies back.column_metas[i]
            == self.column_metas[i] by {
            assert(b.subrange(24 + 48 * i, 24 + 48 * i + 48) =~= mb.subrange(48 * i, 48 * i + 48));
            self.column_metas[i].lemma_round_trip();
        }
        assert(back.column_metas =~= self.column_metas);
    }
}

impl SegmentFooter {
    pub fn serialize(&self) -> (out: Vec<u8>)
        ensures
            out@ == self@.bytes(),
    {
        let mut out: Vec<u8> = Vec::new();
        push_u32_le(&mut out, self.num_rows);
        push_u32_le(&mut out, self.num_columns);
        push_u64_le(&mut out, self.short_key_offset);
        push_u64_le(&mut out, self.short_key_size);
        let ghost head = out@;
        let ghost metas = self.column_metas@;
        let mut i: usize = 0;
        assert(metas.subrange(0, 0) =~= Seq::<ColumnIndexMeta>::empty());
        assert(out@ =~= head + FooterView::metas_bytes(metas.subrange(0, 0)));
        while i < self.column_metas.len()
            invariant
                i <= self.column_metas.len(),
                metas == self.column_metas@,
                out@ == head + FooterView::metas_bytes(metas.subrange(0, i as int)),
            decreases self.column_metas.len() - i,
        {
            let cm = self.column_metas[i];
            let ghost start = out@;
            push_u64_le(&mut out, cm.ordinal_offset);
            push_u64_le(&mut out, cm.ordinal_size);
            push_u64_le(&mut out, cm.zonemap_offset);
            push_u64_le(&mut out, cm.zonemap_size);
            push_u64_le(&mut out, cm.bf_offset);
            push_u64_le(&mut out, cm.bf_size);
            proof {
                let next = metas.subrange(0, i + 1);
                assert(next.drop_last() =~= metas.subrange(0, i as int));
                assert(next.last() == cm);
                assert(out@ =~= start + cm.bytes());
                assert(out@ =~= head + FooterView::metas_bytes(next));
            }
            i += 1;
        }
        assert(metas.subrange(0, i as int) =~= metas);
        out
    }

    /// Reads a footer; `None` where the data is shorter than the head of a
    /// footer. Column entries that are cut off are left out.
    pub fn deserialize(data: &[u8]) -> (r: Option<Self>)
        ensures
            match FooterView::parsed(data@) {
                Some(f) => r is Some && r->0@ == f,
                None => r is None,
            },
    {
        proof {
            reveal(FooterView::parsed);
        }
        if data.len() < FOOTER_HEAD {
            return None;
        }
        let num_rows = read_u32_le(data, 0);
        let num_columns = read_u32_le(data, 4);
        let short_key_offset = read_u64_le(data, 8);
        let short_key_size = read_u64_le(data, 16);
        let mut pos: usize = FOOTER_HEAD;
        let mut column_metas: Vec<ColumnIndexMeta> = Vec::new();
        let mut i: u32 = 0;
        while i < num_columns && data.len() - pos >= FOOTER_ENTRY
            invariant
                i <= num_columns,
                pos == 24 + 48 * i,
                pos <= data.len(),
                column_metas@.len() == i,
                forall|k: int|
                    0 <= k < i ==> #[trigger] column_metas@[k] == ColumnIndexMeta::parsed(
                        data@.subrange(24 + 48 * k, 24 + 48 * k + 48),
                    ),
            decreases num_columns - i,
        {
            let cm = ColumnIndexMeta {
                ordinal_offset: read_u64_le(data, pos),
                ordinal_size: read_u64_le(data, pos + 8),
                zonemap_offset: read_u64_le(data, pos + 16),
                zonemap_size: read_u64_le(data, pos + 24),
                bf_offset: read_u64_le(data, pos + 32),
                bf_size: read_u64_le(data, pos + 40),
            };
            proof {
                let b = data@.subrange(pos as int, pos + 48);
                assert(b.subrange(0, 8) =~= data@.subrange(pos as int, pos + 8));
                assert(b.subrange(8, 16) =~= data@.subrange(pos + 8, pos + 8 + 8));
                assert(b.subrange(16, 24) =~= data@.subrange(pos + 16, pos + 16 + 8));
                assert(b.subrange(24, 32) =~= data@.subrange(pos + 24, pos + 24 + 8));
                assert(b.subrange(32, 40) =~= data@.subrange(pos + 32, pos + 32 + 8));
                assert(b.subrange(40, 48) =~= data@.subrange(pos + 40, pos + 40 + 8));
            }
            column_metas.push(cm);
            pos += FOOTER_ENTRY;
            i += 1;
        }
        let footer = Self { num_rows, num_columns, short_key_offset, short_key_size, column_metas };
        assert(footer@.column_metas =~= FooterView::parsed(data@)->0.column_metas);
        Some(footer)
    }
}

/// The version written after the leading magic.
pub const SEGMENT_VERSION: u32 = 2;

/// The length of the header: the magic and the version.
pub const SEGMENT_HEADER: usize = 12;

/// The eight bytes `OLAPSEG\0` that open and close a segment.
pub open spec fn magic() -> Seq<u8> {
    seq![79u8, 76u8, 65u8, 80u8, 83u8, 69u8, 71u8, 0u8]
}

/// The state of a segment writer.
pub struct SegmentState {
    pub columns: Seq<ColumnState>,
    pub short_keys: Seq<(u32, Seq<u8>)>,
    pub num_rows: u32,
}

/// The data of the first `upto` columns, one after another.
pub open spec fn data_region(columns: Seq<ColumnState>, upto: int) -> Seq<u8>
    decreases upto,
{
    if upto <= 0 {
        Seq::<u8>::empty()
    } else {
        data_region(columns, upto - 1) + columns[upto - 1].data
    }
}

/// The offset in the file at which the data of column `i` starts.
pub open spec fn column_start(columns: Seq<ColumnState>, i: int) -> int {
    SEGMENT_HEADER + data_region(columns, i).len()
}

/// The ordinal index of column `i` as it is written: with offsets that count
/// from the start of the file.
pub open spec fn ordinal_bytes(columns: Seq<ColumnState>, i: int) -> Seq<u8> {
    OrdinalIndex::serialized(
        OrdinalIndex::shifted(columns[i].ordinal, column_start(columns, i) as u64),
    )
}

/// The three indexes of column `i` as they are written.
pub open spec fn column_index_bytes(columns: Seq<ColumnState>, i: int) -> Seq<u8> {
    ordinal_bytes(columns, i) + ZoneMapIndex::serialized(columns[i].zones) + BloomFilter::layout(
        columns[i].bloom_num_bits,
        columns[i].bloom_bits,
    )
}

/// The indexes of the first `upto` columns, one after another.
pub open spec fn index_region(columns: Seq<ColumnState>, upto: int) -> Seq<u8>
    decreases upto,
{
    if upto <= 0 {
        Seq::<u8>::empty()
    } else {
        index_region(columns, upto - 1) + column_index_bytes(columns, upto - 1)
    }
}

/// The offset in the file at which the indexes of column `i` start.
pub open spec fn index_start(columns: Seq<ColumnState>, i: int) -> int {
    column_start(columns, columns.len() as int) + index_region(columns, i).len()
}

/// The footer entry of column `i`.
pub open spec fn column_index_meta(columns: Seq<ColumnState>, i: int) -> ColumnIndexMeta {
    let at = index_start(columns, i);
    let ordinal = ordinal_bytes(columns, i).len();
    let zones = ZoneMapIndex::serialized(columns[i].zones).len();
    let bloom = BloomFilter::layout(columns[i].bloom_num_bits, columns[i].bloom_bits).len();
    ColumnIndexMeta {
        ordinal_offset: at as u64,
        ordinal_size: ordinal as u64,
        zonemap_offset: (at + ordinal) as u64,
        zonemap_size: zones as u64,
        bf_offset: (at + ordinal + zones) as u64,
        bf_size: bloom as u64,
    }
}

impl SegmentState {
    /// The footer of the segment.
    pub open spec fn footer(self) -> FooterView {
        FooterView {
            num_rows: self.num_rows,
            num_columns: self.columns.len() as u32,
            short_key_offset: index_start(self.columns, self.columns.len() as int) as u64,
            short_key_size: ShortKeyIndex::serialized(self.short_keys).len() as u64,
            column_metas: Seq::new(
                self.columns.len(),
                |i: int| column_index_meta(self.columns, i),
            ),
        }
    }

    /// Everything before the footer: header, data region, index region.
    pub open spec fn body(self) -> Seq<u8> {
        magic() + u32_le(SEGMENT_VERSION) + data_region(self.columns, self.columns.len() as int)
            + index_region(self.columns, self.columns.len() as int) + ShortKeyIndex::serialized(
            self.short_keys,
        )
    }

    /// The bytes of the segment.
    pub open spec fn bytes(self) -> Seq<u8> {
        self.body() + self.footer().bytes() + u32_le(crc32(self.footer().bytes())) + u32_le(
            self.footer().bytes().len() as u32,
        ) + magic()
    }

    /// Whether `after` is what appending `row` leaves where the call
    /// succeeds: every column took its value, the short key index took its
    /// sample, and one more row is counted.
    pub open spec fn appends_to(self, row: Seq<ValueView>, after: SegmentState) -> bool {
        &&& after.num_rows == self.num_rows + 1
        &&& after.short_keys == (if self.num_rows % SHORT_KEY_INTERVAL == 0 {
            self.short_keys.push((self.num_rows, key_prefix(row)))
        } else {
            self.short_keys
        })
        &&& after.columns.len() == self.columns.len()
        &&& forall|i: int|
            0 <= i < self.columns.len() ==> (#[trigger] self.columns[i]).steps_to(
                row[i],
                after.columns[i],
            )
    }

    /// Whether `after` is what appending `row` leaves where column `i` fails
    /// to close its page: the columns before it took their values, column
    /// `i` dropped the page that the value filled, the columns after it are
    /// as they were, the short key index took its sample, and no row is
    /// counted.
    pub open spec fn append_fails_at(
        self,
        row: Seq<ValueView>,
        after: SegmentState,
        i: int,
    ) -> bool {
        &&& 0 <= i < self.columns.len()
        &&& after.num_rows == self.num_rows
        &&& after.short_keys == (if self.num_rows % SHORT_KEY_INTERVAL == 0 {
            self.short_keys.push((self.num_rows, key_prefix(row)))
        } else {
            self.short_keys
        })
        &&& after.columns.len() == self.columns.len()
        &&& !self.columns[i].can_step(row[i])
        &&& after.columns[i] == self.columns[i].extended(row[i]).dropped()
        &&& forall|k: int|
            0 <= k < i ==> (#[trigger] self.columns[k]).can_step(row[k]) && self.columns[k].steps_to(
                row[k],
                after.columns[k],
            )
        &&& forall|k: int|
            i < k < self.columns.len() ==> #[trigger] after.columns[k] == self.columns[k]
    }

    /// Whether `after` is what closing leaves where column `i` fails to
    /// close its page: the columns before it are closed, column `i` dropped
    /// its open page, and the columns after it are as they were.
    pub open spec fn finish_fails_at(self, after: SegmentState, i: int) -> bool {
        &&& 0 <= i < self.columns.len()
        &&& after.num_rows == self.num_rows
        &&& after.short_keys == self.short_keys
        &&& after.columns.len() == self.columns.len()
        &&& !self.columns[i].can_finish()
        &&& after.columns[i] == self.columns[i].dropped()
        &&& forall|k: int|
            0 <= k < i ==> (#[trigger] self.columns[k]).can_finish() && self.columns[k].finishes_to(
                after.columns[k],
            )
        &&& forall|k: int|
            i < k < self.columns.len() ==> #[trigger] after.columns[k] == self.columns[k]
    }

    /// Whether appending `row` succeeds, given one value per column.
    pub open spec fn can_append(self, row: Seq<ValueView>) -> bool {
        forall|i: int| 0 <= i < self.columns.len() ==> (#[trigger] self.columns[i]).can_step(row[i])
    }

    /// Whether `after` is what closing every column leaves where the call
    /// succeeds.
    pub open spec fn finishes_to(self, after: SegmentState) -> bool {
        &&& after.num_rows == self.num_rows
        &&& after.short_keys == self.short_keys
        &&& after.columns.len() == self.columns.len()
        &&& forall|i: int|
            0 <= i < self.columns.len() ==> (#[trigger] self.columns[i]).finishes_to(
                after.columns[i],
            )
    }

    /// Whether closing every column succeeds.
    pub open spec fn can_finish(self) -> bool {
        forall|i: int| 0 <= i < self.columns.len() ==> (#[trigger] self.columns[i]).can_finish()
    }

    /// Whether nothing was lost: every column has lost nothing and has taken
    /// as many values as rows were appended.
    pub open spec fn intact(self) -> bool {
        forall|i: int|
            0 <= i < self.columns.len() ==> (#[trigger] self.columns[i]).intact()
                && self.columns[i].next_row_id == self.num_rows
    }

    /// A successful append loses nothing: in every column the value of the
    /// row follows the values that were there.
    pub proof fn lemma_append_keeps_intact(self, row: Seq<ValueView>, after: SegmentState)
        requires
            self.intact(),
            self.num_rows < u32::MAX,
            self.appends_to(row, after),
            forall|i: int|
                0 <= i < after.columns.len() ==> (#[trigger] after.columns[i]).data.len()
                    <= u64::MAX,
        ensures
            after.intact(),
            forall|i: int|
                0 <= i < self.columns.len() ==> all_rows((#[trigger] after.columns[i]).flushed)
                    + after.columns[i].pending == all_rows(self.columns[i].flushed)
                    + self.columns[i].pending.push(row[i]),
    {
        assert forall|i: int| 0 <= i < self.columns.len() implies (#[trigger] after.columns[i]).intact()
            && after.columns[i].next_row_id == after.num_rows && all_rows(after.columns[i].flushed)
            + after.columns[i].pending == all_rows(self.columns[i].flushed)
            + self.columns[i].pending.push(row[i]) by {
            assert(self.columns[i].intact());
            assert(self.columns[i].steps_to(row[i], after.columns[i]));
            self.columns[i].lemma_step_keeps_intact(row[i], after.columns[i]);
            self.columns[i].lemma_step_counts(row[i], after.columns[i]);
        }
    }

    /// Closing loses nothing, and leaves every value of every column in a
    /// closed page.
    pub proof fn lemma_finish_keeps_intact(self, after: SegmentState)
        requires
            self.intact(),
            self.finishes_to(after),
            forall|i: int|
                0 <= i < after.columns.len() ==> (#[trigger] after.columns[i]).data.len()
                    <= u64::MAX,
        ensures
            after.intact(),
            forall|i: int|
                0 <= i < self.columns.len() ==> (#[trigger] after.columns[i]).pending.len() == 0
                    && all_rows(after.columns[i].flushed) == all_rows(self.columns[i].flushed)
                    + self.columns[i].pending,
    {
        assert forall|i: int| 0 <= i < self.columns.len() implies (#[trigger] after.columns[i]).intact()
            && after.columns[i].next_row_id == after.num_rows && after.columns[i].pending.len()
            == 0 && all_rows(after.columns[i].flushed) == all_rows(self.columns[i].flushed)
            + self.columns[i].pending by {
            assert(self.columns[i].intact());
            assert(self.columns[i].finishes_to(after.columns[i]));
            self.columns[i].lemma_finish_keeps_intact(after.columns[i]);
            self.columns[i].lemma_finish_counts(after.columns[i]);
        }
    }
}

fn push_magic(out: &mut Vec<u8>)
    ensures
        final(out)@ == old(out)@ + magic(),
{
    out.push(79u8);
    out.push(76u8);
    out.push(65u8);
    out.push(80u8);
    out.push(83u8);
    out.push(69u8);
    out.push(71u8);
    out.push(0u8);
    assert(out@ =~= old(out)@ + magic());
}

fn add_to_column(writers: &mut Vec<ColumnWriter>, i: usize, value: Value) -> (r: Result<
    (),
    OlapError,
>)
    requires
        i < old(writers)@.len(),
        old(writers)@[i as int].wf(),
        old(writers)@[i as int]@.next_row_id < u32::MAX,
    ensures
        final(writers)@.len() == old(writers)@.len(),
        forall|k: int|
            0 <= k < old(writers)@.len() && k != i ==> #[trigger] final(writers)@[k] == old(
                writers,
            )@[k],
        final(writers)@[i as int].wf(),
        final(writers)@[i as int].settings() == old(writers)@[i as int].settings(),
        r is Ok <==> old(writers)@[i as int]@.can_step(value@),
        r is Ok ==> old(writers)@[i as int]@.steps_to(value@, final(writers)@[i as int]@),
        r is Err ==> r->Err_0 is Compression && final(writers)@[i as int]@ == old(
            writers,
        )@[i as int]@.extended(value@).dropped(),
{
    writers[i].add_value(value)
}

fn close_column(writers: &mut Vec<ColumnWriter>, i: usize) -> (r: Result<(), OlapError>)
    requires
        i < old(writers)@.len(),
        old(writers)@[i as int].wf(),
    ensures
        final(writers)@.len() == old(writers)@.len(),
        forall|k: int|
            0 <= k < old(writers)@.len() && k != i ==> #[trigger] final(writers)@[k] == old(
                writers,
            )@[k],
        final(writers)@[i as int].wf(),
        final(writers)@[i as int].settings() == old(writers)@[i as int].settings(),
        r is Ok <==> old(writers)@[i as int]@.can_finish(),
        r is Ok ==> old(writers)@[i as int]@.finishes_to(final(writers)@[i as int]@),
        r is Err ==> r->Err_0 is Compression && final(writers)@[i as int]@ == old(
            writers,
        )@[i as int]@.dropped(),
{
    writers[i].close()
}

/// The data of the columns grows with every column.
pub proof fn lemma_column_starts(columns: Seq<ColumnState>, i: int, j: int)
    requires
        0 <= i <= j <= columns.len(),
    ensures
        column_start(columns, i) <= column_start(columns, j),
        i < j ==> column_start(columns, i) + columns[i].data.len() <= column_start(columns, j),
    decreases j - i,
{
    if i < j {
        lemma_column_starts(columns, i, j - 1);
    }
}

/// Writes a segment, row by row.
pub struct SegmentWriter {
    schema: Vec<ColumnMeta>,
    col_writers: Vec<ColumnWriter>,
    sk_builder: ShortKeyIndexBuilder,
    num_rows: u32,
}

impl View for SegmentWriter {
    type V = SegmentState;

    closed spec fn view(&self) -> SegmentState {
        SegmentState {
            columns: self.col_writers@.map_values(|w: ColumnWriter| w@),
            short_keys: self.sk_builder.index@,
            num_rows: self.num_rows,
        }
    }
}

impl SegmentWriter {
    /// Whether the writer is in a state that its operations keep: there is
    /// one well-formed column writer per column of the schema, and each has
    /// taken as many values as rows were appended.
    pub closed spec fn wf(&self) -> bool {
        &&& self.col_writers@.len() == self.schema@.len()
        &&& forall|i: int|
            0 <= i < self.col_writers@.len() ==> (#[trigger] self.col_writers@[i]).wf()
                && self.col_writers@[i]@.next_row_id == self.num_rows
    }

    /// The settings of the columns.
    pub closed spec fn columns(&self) -> Seq<ColumnMeta> {
        self.schema@
    }

    /// A well-formed writer has one valid column state per column of the
    /// schema, each with as many values as rows were appended.
    pub proof fn lemma_wf_valid(&self)
        requires
            self.wf(),
        ensures
            self@.columns.len() == self.columns().len(),
            forall|i: int|
                0 <= i < self@.columns.len() ==> (#[trigger] self@.columns[i]).valid()
                    && self@.columns[i].next_row_id == self@.num_rows,
    {
        assert forall|i: int| 0 <= i < self@.columns.len() implies (#[trigger] self@.columns[i]).valid()
            && self@.columns[i].next_row_id == self@.num_rows by {
            self.col_writers@[i].lemma_wf_valid();
        }
    }

    /// A writer for the given columns, without rows.
    pub fn new(schema: Vec<ColumnMeta>) -> (w: Self)
        ensures
            w.wf(),
            w.columns() == schema@,
            w@.num_rows == 0,
            w@.short_keys == Seq::<(u32, Seq<u8>)>::empty(),
            w@.columns.len() == schema@.len(),
            forall|i: int|
                0 <= i < schema@.len() ==> #[trigger] w@.columns[i] == ColumnState::initial(
                    schema@[i].encoding,
                    schema@[i].compression,
                    w@.columns[i].bloom_bits,
                    w@.columns[i].bloom_num_bits,
                ),
            w@.intact(),
    {
        let mut col_writers: Vec<ColumnWriter> = Vec::new();
        let mut i: usize = 0;
        while i < schema.len()
            invariant
                i <= schema.len(),
                col_writers@.len() == i,
                forall|k: int|
                    0 <= k < i ==> (#[trigger] col_writers@[k]).wf() && col_writers@[k]@
                        == ColumnState::initial(
                        schema@[k].encoding,
                        schema@[k].compression,
                        col_writers@[k]@.bloom_bits,
                        col_writers@[k]@.bloom_num_bits,
                    ),
            decreases schema.len() - i,
        {
            col_writers.push(ColumnWriter::new(schema[i].duplicate()));
            i += 1;
        }
        let w = Self { schema, col_writers, sk_builder: ShortKeyIndexBuilder::new(), num_rows: 0 };
        proof {
            assert forall|k: int| 0 <= k < w@.columns.len() implies (#[trigger] w@.columns[k]).intact()
                && w@.columns[k].next_row_id == w@.num_rows by {
                let c = w.col_writers@[k]@;
                w.col_writers@[k].lemma_wf_valid();
                ColumnState::lemma_initial_intact(
                    c.encoding,
                    c.compression,
                    c.bloom_bits,
                    c.bloom_num_bits,
                );
            }
        }
        w
    }

    /// Appends a row of one value per column.
    ///
    /// A row of another length is rejected with `SchemaMismatch` and leaves
    /// the writer as it was. Otherwise every column takes its value; the call
    /// fails with `Compression` where a page that the row fills cannot be
    /// built, and the writer is then no longer well-formed.
    pub fn append_row(&mut self, row: Vec<Value>) -> (r: Result<(), OlapError>)
        requires
            old(self).wf(),
            old(self)@.num_rows < u32::MAX,
        ensures
            final(self).columns() == old(self).columns(),
            r is Ok <==> row@.len() == old(self)@.columns.len() && old(self)@.can_append(
                views(row@),
            ),
            r is Ok ==> final(self).wf() && old(self)@.appends_to(views(row@), final(self)@),
            row@.len() != old(self)@.columns.len() ==> r is Err && r->Err_0 is SchemaMismatch
                && final(self)@ == old(self)@ && final(self).wf(),
            row@.len() == old(self)@.columns.len() && r is Err ==> r->Err_0 is Compression
                && exists|i: int| #[trigger]
                old(self)@.append_fails_at(views(row@), final(self)@, i),
    {
        if row.len() != self.col_writers.len() {
            return Err(OlapError::SchemaMismatch);
        }
        self.sk_builder.maybe_add(self.num_rows, row.as_slice());
        let n = self.col_writers.len();
        let ghost before = self.col_writers@;
        let ghost rv = views(row@);
        let mut i: usize = 0;
        while i < n
            invariant
                i <= n,
                n == row@.len(),
                rv == views(row@),
                before == old(self).col_writers@,
                self.schema == old(self).schema,
                self.num_rows == old(self).num_rows,
                self.num_rows < u32::MAX,
                self.sk_builder.index@ == (if self.num_rows % SHORT_KEY_INTERVAL == 0 {
                    old(self).sk_builder.index@.push((self.num_rows, key_prefix(rv)))
                } else {
                    old(self).sk_builder.index@
                }),
                self.col_writers@.len() == n,
                before.len() == n,
                forall|k: int| 0 <= k < i ==> (#[trigger] self.col_writers@[k]).wf(),
                forall|k: int| 0 <= k < i ==> (#[trigger] before[k])@.can_step(rv[k]),
                forall|k: int|
                    0 <= k < i ==> before[k]@.steps_to(rv[k], (#[trigger] self.col_writers@[k])@),
                forall|k: int| i <= k < n ==> #[trigger] self.col_writers@[k] == before[k],
                forall|k: int|
                    #![trigger before[k]]
                    0 <= k < n ==> before[k].wf() && before[k]@.next_row_id == self.num_rows,
            decreases n - i,
        {
            let value = row[i].duplicate();
            let ghost prev = self.col_writers@;
            assert(prev[i as int] == before[i as int]);
            assert(rv[i as int] == value@);
            let outcome = add_to_column(&mut self.col_writers, i, value);
            if let Err(e) = outcome {
                proof {
                    assert(old(self)@.columns[i as int] == before[i as int]@);
                    assert(!old(self)@.columns[i as int].can_step(rv[i as int]));
                    assert forall|k: int| 0 <= k < i implies (#[trigger] old(self)@.columns[k]).can_step(
                        rv[k],
                    ) && old(self)@.columns[k].steps_to(rv[k], self@.columns[k]) by {
                        assert(old(self)@.columns[k] == before[k]@);
                        assert(self.col_writers@[k] == prev[k]);
                        assert(self@.columns[k] == prev[k]@);
                    }
                    assert forall|k: int| i < k < n implies #[trigger] self@.columns[k] == old(
                        self,
                    )@.columns[k] by {
                        assert(self.col_writers@[k] == prev[k]);
                        assert(prev[k] == before[k]);
                    }
                    assert(old(self)@.append_fails_at(rv, self@, i as int));
                }
                return Err(e);
            }
            proof {
                assert(self.col_writers@[i as int].wf());
                assert(prev[i as int]@.can_step(value@));
                assert(prev[i as int]@.steps_to(value@, self.col_writers@[i as int]@));
                assert(before[i as int] == prev[i as int]);
                assert(rv[i as int] == value@);
                assert forall|k: int| 0 <= k < i + 1 implies (#[trigger] self.col_writers@[k]).wf()
                    && before[k]@.steps_to(rv[k], self.col_writers@[k]@) by {
                    if k < i {
                        assert(self.col_writers@[k] == prev[k]);
                    }
                }
            }
            i += 1;
        }
        self.num_rows += 1;
        proof {
            assert forall|k: int| 0 <= k < n implies (#[trigger] old(self)@.columns[k]).can_step(
                rv[k],
            ) && old(self)@.columns[k].steps_to(rv[k], self@.columns[k]) by {
                assert(old(self)@.columns[k] == before[k]@);
                assert(self@.columns[k] == self.col_writers@[k]@);
            }
            assert forall|k: int| 0 <= k < n implies (#[trigger] self.col_writers@[k]).wf()
                && self.col_writers@[k]@.next_row_id == self.num_rows by {
                assert(before[k]@.steps_to(rv[k], self.col_writers@[k]@));
                before[k]@.lemma_step_counts(rv[k], self.col_writers@[k]@);
            }
        }
        Ok(())
    }

    /// Closes the open page of every column.
    ///
    /// Fails with `Compression` where a page cannot be built; the columns
    /// before it are closed then, and the page that failed is dropped.
    pub fn close(&mut self) -> (r: Result<(), OlapError>)
        requires
            old(self).wf(),
        ensures
            final(self).wf(),
            final(self).columns() == old(self).columns(),
            r is Ok <==> old(self)@.can_finish(),
            r is Ok ==> old(self)@.finishes_to(final(self)@),
            r is Err ==> r->Err_0 is Compression && exists|i: int| #[trigger]
                old(self)@.finish_fails_at(final(self)@, i),
    {
        let n = self.col_writers.len();
        let ghost before = self.col_writers@;
        let mut i: usize = 0;
        while i < n
            invariant
                i <= n,
                before == old(self).col_writers@,
                self.schema == old(self).schema,
                self.num_rows == old(self).num_rows,
                self.sk_builder == old(self).sk_builder,
                self.col_writers@.len() == n,
                before.len() == n,
                n == self.schema@.len(),
                forall|k: int|
                    0 <= k < n ==> (#[trigger] self.col_writers@[k]).wf()
                        && self.col_writers@[k]@.next_row_id == self.num_rows,
                forall|k: int| 0 <= k < i ==> (#[trigger] before[k])@.can_finish(),
                forall|k: int|
                    0 <= k < i ==> before[k]@.finishes_to((#[trigger] self.col_writers@[k])@),
                forall|k: int| i <= k < n ==> #[trigger] self.col_writers@[k] == before[k],
            decreases n - i,
        {
            let ghost prev = self.col_writers@;
            let outcome = close_column(&mut self.col_writers, i);
            proof {
                assert(before[i as int] == prev[i as int]);
                if outcome is Ok {
                    prev[i as int]@.lemma_finish_counts(self.col_writers@[i as int]@);
                }
                assert forall|k: int| 0 <= k < n implies (#[trigger] self.col_writers@[k]).wf()
                    && self.col_writers@[k]@.next_row_id == self.num_rows by {
                    if k != i {
                        assert(self.col_writers@[k] == prev[k]);
                    }
                }
            }
            if let Err(e) = outcome {
                proof {
                    assert(old(self)@.columns[i as int] == before[i as int]@);
                    assert(!old(self)@.columns[i as int].can_finish());
                    assert forall|k: int| 0 <= k < i implies (#[trigger] old(self)@.columns[k]).can_finish()
                        && old(self)@.columns[k].finishes_to(self@.columns[k]) by {
                        assert(old(self)@.columns[k] == before[k]@);
                        assert(self.col_writers@[k] == prev[k]);
                        assert(self@.columns[k] == prev[k]@);
                    }
                    assert forall|k: int| i < k < n implies #[trigger] self@.columns[k] == old(
                        self,
                    )@.columns[k] by {
                        assert(self.col_writers@[k] == prev[k]);
                        assert(prev[k] == before[k]);
                    }
                    assert(old(self)@.finish_fails_at(self@, i as int));
                }
                return Err(e);
            }
            proof {
                assert forall|k: int| 0 <= k < i + 1 implies before[k]@.finishes_to(
                    (#[trigger] self.col_writers@[k])@,
                ) by {
                    if k < i {
                        assert(self.col_writers@[k] == prev[k]);
                    }
                }
            }
            i += 1;
        }
        proof {
            assert forall|k: int| 0 <= k < n implies (#[trigger] old(self)@.columns[k]).can_finish()
                && old(self)@.columns[k].finishes_to(self@.columns[k]) by {
                assert(old(self)@.columns[k] == before[k]@);
                assert(self@.columns[k] == self.col_writers@[k]@);
            }
        }
        Ok(())
    }

    /// Lays the segment out: header, the data and the indexes of every
    /// column as they stand, the short key index, and the footer.
    ///
    /// Values of pages that are still open are not part of the segment.
    pub fn to_bytes(&self) -> (out: Vec<u8>)
        requires
            self.wf(),
        ensures
            out@ == self@.bytes(),
    {
        let ghost cols = self@.columns;
        let n = self.col_writers.len();
        proof {
            self.lemma_wf_valid();
        }
        let mut out: Vec<u8> = Vec::new();
        push_magic(&mut out);
        push_u32_le(&mut out, SEGMENT_VERSION);
        let ghost head = out@;
        let mut starts: Vec<u64> = Vec::new();
        let mut i: usize = 0;
        assert(out@ =~= head + data_region(cols, 0));
        while i < n
            invariant
                i <= n,
                n == self.col_writers@.len(),
                cols == self@.columns,
                cols.len() == n,
                head == magic() + u32_le(SEGMENT_VERSION),
                head.len() == SEGMENT_HEADER,
                out@ == head + data_region(cols, i as int),
                starts@.len() == i,
                forall|k: int| 0 <= k < i ==> #[trigger] starts@[k] == column_start(cols, k),
            decreases n - i,
        {
            starts.push(out.len() as u64);
            let data = self.col_writers[i].data();
            assert(data@ == cols[i as int].data);
            push_bytes(&mut out, data.as_slice());
            assert(out@ =~= head + data_region(cols, i + 1));
            i += 1;
        }
        let ghost data_end = out@;
        let mut metas: Vec<ColumnIndexMeta> = Vec::new();
        let mut c: usize = 0;
        assert(out@ =~= data_end + index_region(cols, 0));
        while c < n
            invariant
                c <= n,
                n == self.col_writers@.len(),
                cols == self@.columns,
                cols.len() == n,
                forall|k: int| 0 <= k < n ==> (#[trigger] cols[k]).valid(),
                data_end == head + data_region(cols, n as int),
                head.len() == SEGMENT_HEADER,
                out@ == data_end + index_region(cols, c as int),
                starts@.len() == n,
                forall|k: int| 0 <= k < n ==> #[trigger] starts@[k] == column_start(cols, k),
                metas@.len() == c,
                forall|k: int| 0 <= k < c ==> #[trigger] metas@[k] == column_index_meta(cols, k),
            decreases n - c,
        {
            let writer = &self.col_writers[c];
            let base = starts[c];
            let written = out.len();
            proof {
                assert((data_end + index_region(cols, c as int)).len() == data_end.len()
                    + index_region(cols, c as int).len());
                assert(data_end.len() <= written);
                assert(writer@ == cols[c as int]);
                assert(cols[c as int].valid());
                lemma_column_starts(cols, c as int, n as int);
                assert(column_start(cols, n as int) == data_end.len());
                assert(column_start(cols, c as int) + cols[c as int].data.len() <= data_end.len());
                assert forall|k: int| 0 <= k < writer@.ordinal.len() implies (
                #[trigger] writer@.ordinal[k]).1 + base <= u64::MAX by {
                    assert(cols[c as int].ordinal[k].1 <= cols[c as int].data.len());
                }
            }
            let ordinal = writer.ordinal_index().rebased(base).serialize();
            let zones = writer.zone_map().serialize();
            let bloom = writer.bloom_filter().serialize();
            let ordinal_offset = out.len() as u64;
            push_bytes(&mut out, ordinal.as_slice());
            let zonemap_offset = out.len() as u64;
            push_bytes(&mut out, zones.as_slice());
            let bf_offset = out.len() as u64;
            push_bytes(&mut out, bloom.as_slice());
            metas.push(
                ColumnIndexMeta {
                    ordinal_offset,
                    ordinal_size: ordinal.len() as u64,
                    zonemap_offset,
                    zonemap_size: zones.len() as u64,
                    bf_offset,
                    bf_size: bloom.len() as u64,
                },
            );
            proof {
                assert(ordinal@ == ordinal_bytes(cols, c as int));
                assert(out@ =~= data_end + index_region(cols, c + 1));
                assert(index_start(cols, c as int) == ordinal_offset);
            }
            c += 1;
        }
        let short_keys = self.sk_builder.index.serialize();
        let footer = SegmentFooter {
            num_rows: self.num_rows,
            num_columns: #[verifier::truncate] (n as u32),
            short_key_offset: out.len() as u64,
            short_key_size: short_keys.len() as u64,
            column_metas: metas,
        };
        proof {
            assert(footer@.column_metas =~= self@.footer().column_metas);
            assert(index_start(cols, n as int) == out@.len());
        }
        push_bytes(&mut out, short_keys.as_slice());
        assert(out@ =~= self@.body());
        let footer_bytes = footer.serialize();
        let footer_crc = crc32_of(footer_bytes.as_slice());
        push_bytes(&mut out, footer_bytes.as_slice());
        push_u32_le(&mut out, footer_crc);
        push_u32_le(&mut out, #[verifier::truncate] (footer_bytes.len() as u32));
        push_magic(&mut out);
        out
    }

    /// Closes every column and lays the segment out.
    ///
    /// Fails with `Compression` where a page cannot be built.
    pub fn finalize(self) -> (r: Result<Vec<u8>, OlapError>)
        requires
            self.wf(),
        ensures
            r is Ok <==> self@.can_finish(),
            r is Ok ==> exists|after: SegmentState|
                #[trigger] self@.finishes_to(after) && r->Ok_0@ == after.bytes(),
            r is Err ==> r->Err_0 is Compression,
    {
        let mut writer = self;
        match writer.close() {
            Ok(()) => {},
            Err(e) => {
                return Err(e);
            },
        }
        let out = writer.to_bytes();
        assert(self@.finishes_to(writer@) && out@ == writer@.bytes());
        Ok(out)
    }

    pub fn num_rows(&self) -> (n: u32)
        ensures
            n == self@.num_rows,
    {
        self.num_rows
    }

    pub fn schema(&self) -> (s: &[ColumnMeta])
        ensures
            s@ == self.columns(),
    {
        self.schema.as_slice()
    }
}

/// Why a segment cannot be opened.
pub enum OpenFault {
    /// The bytes are too short for a segment or do not end in the magic.
    Magic,
    /// The footer length exceeds what lies before it.
    FooterLength,
    /// The footer checksum does not match.
    Checksum,
    /// The footer is shorter than its head.
    Footer,
}

/// The shortest byte string that is looked at as a segment.
pub const SEGMENT_MIN: usize = 20;

/// The length of what follows the footer: checksum, length and magic.
pub const SEGMENT_TAIL: usize = 16;

/// The footer bytes of a segment of at least `SEGMENT_MIN` bytes whose
/// footer length fits.
pub open spec fn footer_bytes_of(data: Seq<u8>) -> Seq<u8> {
    let n = data.len() as int;
    let len = u32_from_le(data.subrange(n - 12, n - 8)) as int;
    data.subrange(n - 16 - len, n - 16)
}

/// What opening `data` as a segment gives: its footer, or the first fault
/// found. The trailing magic is checked first, then the footer length, then
/// the footer checksum; last the footer is read.
pub open spec fn opened(data: Seq<u8>) -> Result<FooterView, OpenFault> {
    let n = data.len() as int;
    if n < SEGMENT_MIN || data.subrange(n - 8, n) != magic() {
        Err(OpenFault::Magic)
    } else if u32_from_le(data.subrange(n - 12, n - 8)) > n - SEGMENT_TAIL {
        Err(OpenFault::FooterLength)
    } else if crc32(footer_bytes_of(data)) != u32_from_le(data.subrange(n - 16, n - 12)) {
        Err(OpenFault::Checksum)
    } else {
        match FooterView::parsed(footer_bytes_of(data)) {
            Some(f) => Ok(f),
            None => Err(OpenFault::Footer),
        }
    }
}

/// The values of page `k` of a column: the page lies between its offset and
/// the offset of the next page, or `end` for the last page. A page whose
/// range is empty or leaves the data, or that cannot be decoded, has no
/// values.
pub open spec fn page_values(
    data: Seq<u8>,
    ordinal: Seq<(u32, u64)>,
    end: u64,
    encoding: EncodingType,
    compression: CompressionType,
    k: int,
) -> Seq<ValueView> {
    let from = ordinal[k].1;
    let to = if k + 1 < ordinal.len() {
        ordinal[k + 1].1
    } else {
        end
    };
    if from >= to || to > data.len() {
        Seq::<ValueView>::empty()
    } else {
        match decoded_page(data.subrange(from as int, to as int), encoding, compression) {
            Ok(content) => content.values,
            Err(_) => Seq::<ValueView>::empty(),
        }
    }
}

/// The values of the first `upto` pages of a column, one page after
/// another.
pub open spec fn pages_values(
    data: Seq<u8>,
    ordinal: Seq<(u32, u64)>,
    end: u64,
    encoding: EncodingType,
    compression: CompressionType,
    upto: int,
) -> Seq<ValueView>
    decreases upto,
{
    if upto <= 0 {
        Seq::<ValueView>::empty()
    } else {
        pages_values(data, ordinal, end, encoding, compression, upto - 1) + page_values(
            data,
            ordinal,
            end,
            encoding,
            compression,
            upto - 1,
        )
    }
}

/// Why a column cannot be read.
pub enum ReadFault {
    /// The footer has no entry for the column.
    NoColumn,
    /// The schema has no entry for the column.
    NoSchema,
    /// The ordinal index of the column lies outside the data.
    IndexRange,
}

/// What reading column `i` gives: the values of its pages in the order of
/// its ordinal index, the last page ending where the ordinal index of the
/// column begins; or the fault that stops the read.
pub open spec fn column_values(
    data: Seq<u8>,
    footer: FooterView,
    schema: Seq<ColumnMeta>,
    i: int,
) -> Result<Seq<ValueView>, ReadFault> {
    if i >= footer.column_metas.len() {
        Err(ReadFault::NoColumn)
    } else if i >= schema.len() {
        Err(ReadFault::NoSchema)
    } else {
        let cm = footer.column_metas[i];
        if cm.ordinal_offset + cm.ordinal_size > data.len() {
            Err(ReadFault::IndexRange)
        } else {
            let ordinal = OrdinalIndex::parsed(
                data.subrange(
                    cm.ordinal_offset as int,
                    cm.ordinal_offset + cm.ordinal_size,
                ),
            );
            Ok(
                pages_values(
                    data,
                    ordinal,
                    cm.ordinal_offset,
                    schema[i].encoding,
                    schema[i].compression,
                    ordinal.len() as int,
                ),
            )
        }
    }
}

proof fn lemma_tail_windows(body: Seq<u8>, fb: Seq<u8>, crc: u32)
    requires
        fb.len() <= u32::MAX,
    ensures
        ({
            let data = body + fb + u32_le(crc) + u32_le(fb.len() as u32) + magic();
            let n = data.len() as int;
            &&& n == body.len() + fb.len() + 16
            &&& data.subrange(n - 8, n) == magic()
            &&& u32_from_le(data.subrange(n - 12, n - 8)) == fb.len()
            &&& u32_from_le(data.subrange(n - 16, n - 12)) == crc
            &&& footer_bytes_of(data) == fb
        }),
{
    let data = body + fb + u32_le(crc) + u32_le(fb.len() as u32) + magic();
    let n = data.len() as int;
    lemma_u32_le_round_trip(crc);
    lemma_u32_le_round_trip(fb.len() as u32);
    assert(n == body.len() + fb.len() + 16);
    assert(data.subrange(n - 8, n) =~= magic());
    assert(data.subrange(n - 12, n - 8) =~= u32_le(fb.len() as u32));
    assert(data.subrange(n - 16, n - 12) =~= u32_le(crc));
    assert(data.subrange(n - 16 - fb.len(), n - 16) =~= fb);
}

proof fn lemma_framed_footer_opens(body: Seq<u8>, footer: FooterView)
    requires
        footer.num_columns == footer.column_metas.len(),
        FOOTER_HEAD + FOOTER_ENTRY * footer.column_metas.len() <= u32::MAX,
    ensures
        opened(
            body + footer.bytes() + u32_le(crc32(footer.bytes())) + u32_le(
                footer.bytes().len() as u32,
            ) + magic(),
        ) == Ok::<FooterView, OpenFault>(footer),
{
    footer.lemma_round_trip();
    lemma_tail_windows(body, footer.bytes(), crc32(footer.bytes()));
}

/// Every segment that a writer lays out opens, and its footer is the one
/// that was written: it holds the number of rows appended and the place of
/// every index. The footer length is written as a 32-bit integer, so the
/// footer of the columns must fit.
pub proof fn lemma_written_segment_opens(s: SegmentState)
    requires
        FOOTER_HEAD + FOOTER_ENTRY * s.columns.len() <= u32::MAX,
    ensures
        opened(s.bytes()) == Ok::<FooterView, OpenFault>(s.footer()),
        s.footer().num_rows == s.num_rows,
{
    lemma_framed_footer_opens(s.body(), s.footer());
}

/// Whether a segment holds one column whose writer has lost nothing and
/// has closed its last page, with values that are read back as the integers
/// they project to.
pub open spec fn single_column_intact(s: SegmentState) -> bool {
    &&& s.columns.len() == 1
    &&& s.columns[0].intact()
    &&& s.columns[0].pending.len() == 0
    &&& s.columns[0].next_row_id == s.num_rows
    &&& reads_back(all_rows(s.columns[0].flushed), s.columns[0].encoding)
    &&& s.bytes().len() <= u64::MAX
}

proof fn lemma_window(front: Seq<u8>, mid: Seq<u8>, back: Seq<u8>, a: int, b: int)
    requires
        0 <= a <= b <= mid.len(),
    ensures
        (front + mid + back).subrange(front.len() + a, front.len() + b) == mid.subrange(a, b),
{
    assert((front + mid + back).subrange(front.len() + a, front.len() + b) =~= mid.subrange(a, b));
}

proof fn lemma_data_window(columns: Seq<ColumnState>, i: int, upto: int)
    requires
        0 <= i < upto <= columns.len(),
    ensures
        data_region(columns, i).len() + columns[i].data.len() <= data_region(columns, upto).len(),
        data_region(columns, upto).subrange(
            data_region(columns, i).len() as int,
            (data_region(columns, i).len() + columns[i].data.len()) as int,
        ) == columns[i].data,
    decreases upto - i,
{
    let at = data_region(columns, i).len() as int;
    let len = columns[i].data.len() as int;
    if upto == i + 1 {
        assert(data_region(columns, upto).subrange(at, at + len) =~= columns[i].data);
    } else {
        lemma_data_window(columns, i, upto - 1);
        assert(data_region(columns, upto).subrange(at, at + len) =~= data_region(
            columns,
            upto - 1,
        ).subrange(at, at + len));
    }
}

proof fn lemma_index_window(columns: Seq<ColumnState>, i: int, upto: int)
    requires
        0 <= i < upto <= columns.len(),
    ensures
        index_region(columns, i).len() + ordinal_bytes(columns, i).len() <= index_region(
            columns,
            upto,
        ).len(),
        index_region(columns, upto).subrange(
            index_region(columns, i).len() as int,
            (index_region(columns, i).len() + ordinal_bytes(columns, i).len()) as int,
        ) == ordinal_bytes(columns, i),
    decreases upto - i,
{
    let at = index_region(columns, i).len() as int;
    let len = ordinal_bytes(columns, i).len() as int;
    if upto == i + 1 {
        assert(index_region(columns, upto).subrange(at, at + len) =~= ordinal_bytes(columns, i));
    } else {
        lemma_index_window(columns, i, upto - 1);
        assert(index_region(columns, upto).subrange(at, at + len) =~= index_region(
            columns,
            upto - 1,
        ).subrange(at, at + len));
    }
}

proof fn lemma_nested_window(
    front: Seq<u8>,
    mid: Seq<u8>,
    back: Seq<u8>,
    a: int,
    b: int,
    part: Seq<u8>,
)
    requires
        0 <= a <= b <= mid.len(),
        mid.subrange(a, b) == part,
    ensures
        (front + mid + back).subrange(front.len() + a, front.len() + b) == part,
{
    lemma_window(front, mid, back, a, b);
}

/// Where the data and the ordinal index of a column lie in a segment.
proof fn lemma_column_layout(s: SegmentState, i: int)
    requires
        0 <= i < s.columns.len(),
    ensures
        SEGMENT_HEADER <= column_start(s.columns, i),
        column_start(s.columns, i) + s.columns[i].data.len() <= index_start(s.columns, i),
        index_start(s.columns, i) + ordinal_bytes(s.columns, i).len() <= s.bytes().len(),
        s.bytes().subrange(
            column_start(s.columns, i),
            column_start(s.columns, i) + s.columns[i].data.len(),
        ) == s.columns[i].data,
        s.bytes().subrange(
            index_start(s.columns, i),
            index_start(s.columns, i) + ordinal_bytes(s.columns, i).len(),
        ) == ordinal_bytes(s.columns, i),
        s.columns.len() == 1 ==> index_start(s.columns, i) == column_start(s.columns, i)
            + s.columns[i].data.len(),
{
    let cols = s.columns;
    let n = cols.len() as int;
    let head = magic() + u32_le(SEGMENT_VERSION);
    let dr = data_region(cols, n);
    let ir = index_region(cols, n);
    let fb = s.footer().bytes();
    let tail = ShortKeyIndex::serialized(s.short_keys) + fb + u32_le(crc32(fb)) + u32_le(
        fb.len() as u32,
    ) + magic();
    assert(head.len() == SEGMENT_HEADER);
    assert(s.bytes() =~= head + dr + (ir + tail));
    assert(s.bytes() =~= (head + dr) + ir + tail);
    lemma_data_window(cols, i, n);
    lemma_index_window(cols, i, n);
    lemma_nested_window(
        head,
        dr,
        ir + tail,
        data_region(cols, i).len() as int,
        (data_region(cols, i).len() + cols[i].data.len()) as int,
        cols[i].data,
    );
    lemma_nested_window(
        head + dr,
        ir,
        tail,
        index_region(cols, i).len() as int,
        (index_region(cols, i).len() + ordinal_bytes(cols, i).len()) as int,
        ordinal_bytes(cols, i),
    );
    if n == 1 {
        assert(data_region(cols, 0) =~= Seq::<u8>::empty());
        assert(index_region(cols, 0) =~= Seq::<u8>::empty());
    }
}

proof fn lemma_pages_are_rows(pages: Seq<Seq<ValueView>>)
    requires
        forall|k: int| 0 <= k < pages.len() ==> (#[trigger] pages[k]).len() > 0,
    ensures
        pages.len() <= all_rows(pages).len(),
    decreases pages.len(),
{
    if pages.len() > 0 {
        assert forall|k: int| 0 <= k < pages.drop_last().len() implies (
        #[trigger] pages.drop_last()[k]).len() > 0 by {
            assert(pages.drop_last()[k] == pages[k]);
        }
        lemma_pages_are_rows(pages.drop_last());
    }
}

proof fn lemma_rows_of_pages_read_back(
    pages: Seq<Seq<ValueView>>,
    encoding: EncodingType,
    k: int,
)
    requires
        reads_back(all_rows(pages), encoding),
        0 <= k < pages.len(),
    ensures
        reads_back(pages[k], encoding),
        reads_back(all_rows(pages.subrange(0, k)), encoding),
    decreases pages.len(),
{
    reveal(reads_back);
    let front = pages.drop_last();
    let rows = all_rows(pages);
    assert(rows == all_rows(front) + pages.last());
    if encoding is Plain {
        assert forall|i: int| 0 <= i < all_rows(front).len() implies #[trigger] all_rows(
            front,
        )[i] is Int64 by {
            assert(rows[i] == all_rows(front)[i]);
        }
        assert forall|i: int| 0 <= i < pages.last().len() implies #[trigger] pages.last()[i] is Int64 by {
            assert(rows[all_rows(front).len() + i] == pages.last()[i]);
        }
    }
    if k < pages.len() - 1 {
        lemma_rows_of_pages_read_back(front, encoding, k);
        assert(front[k] == pages[k]);
        assert(front.subrange(0, k) =~= pages.subrange(0, k));
    } else {
        assert(pages.subrange(0, k) =~= front);
    }
}

/// Whether `bytes` hold the data of a column from `base` on, and the
/// column has lost nothing and is read back as integers.
pub open spec fn holds_column(bytes: Seq<u8>, c: ColumnState, base: int) -> bool {
    &&& c.intact()
    &&& reads_back(all_rows(c.flushed), c.encoding)
    &&& 0 <= base
    &&& base + c.data.len() <= bytes.len() <= u64::MAX
    &&& bytes.subrange(base, base + c.data.len()) == c.data
}

proof fn lemma_page_bounds(c: ColumnState, k: int)
    requires
        c.intact(),
        0 <= k < c.ordinal.len(),
    ensures
        0 <= c.page_start(k) < c.page_end(k) <= c.data.len(),
        c.flushed[k].len() <= u32::MAX,
        is_built_page(
            c.data.subrange(c.page_start(k), c.page_end(k)),
            c.flushed[k],
            c.ordinal[k].0,
            c.encoding,
            c.compression,
        ),
        k + 1 < c.ordinal.len() ==> c.ordinal[k + 1].1 <= c.data.len(),
{
    assert(c.page_intact(k));
    let page = c.data.subrange(c.page_start(k), c.page_end(k));
    let raw = crate::encoding::encoded(c.flushed[k], c.encoding);
    crate::page::lemma_frame_parts(
        c.flushed[k].len() as u32,
        c.ordinal[k].0,
        raw.len() as u32,
        crate::page::payload_of(page),
    );
    if k + 1 < c.ordinal.len() {
        assert(c.ordinal[k + 1].1 <= c.data.len());
    }
}

proof fn lemma_page_decodes(c: ColumnState, k: int)
    requires
        c.intact(),
        reads_back(all_rows(c.flushed), c.encoding),
        0 <= k < c.ordinal.len(),
    ensures
        decoded_page(
            c.data.subrange(c.page_start(k), c.page_end(k)),
            c.encoding,
            c.compression,
        ) == Ok::<crate::page::PageContent, crate::page::PageFault>(
            crate::page::PageContent {
                value_count: c.flushed[k].len(),
                first_row_id: c.ordinal[k].0,
                values: as_int64s(c.flushed[k]),
            },
        ),
{
    lemma_page_bounds(c, k);
    lemma_rows_of_pages_read_back(c.flushed, c.encoding, k);
    lemma_built_page_decodes(
        c.data.subrange(c.page_start(k), c.page_end(k)),
        c.flushed[k],
        c.ordinal[k].0,
        c.encoding,
        c.compression,
    );
}

proof fn lemma_page_values(
    bytes: Seq<u8>,
    ordinal: Seq<(u32, u64)>,
    end: u64,
    encoding: EncodingType,
    compression: CompressionType,
    k: int,
    content: crate::page::PageContent,
)
    requires
        0 <= k < ordinal.len(),
        ordinal[k].1 < (if k + 1 < ordinal.len() {
            ordinal[k + 1].1
        } else {
            end
        }) <= bytes.len(),
        decoded_page(
            bytes.subrange(
                ordinal[k].1 as int,
                (if k + 1 < ordinal.len() {
                    ordinal[k + 1].1
                } else {
                    end
                }) as int,
            ),
            encoding,
            compression,
        ) == Ok::<crate::page::PageContent, crate::page::PageFault>(content),
    ensures
        page_values(bytes, ordinal, end, encoding, compression, k) == content.values,
{
}

proof fn lemma_shifted_entries(ordinal: Seq<(u32, u64)>, base: u64, k: int)
    requires
        0 <= k < ordinal.len(),
        ordinal[k].1 + base <= u64::MAX,
    ensures
        OrdinalIndex::shifted(ordinal, base).len() == ordinal.len(),
        OrdinalIndex::shifted(ordinal, base)[k].0 == ordinal[k].0,
        OrdinalIndex::shifted(ordinal, base)[k].1 == ordinal[k].1 + base,
{
}

proof fn lemma_shifted_page_values(
    bytes: Seq<u8>,
    data: Seq<u8>,
    ordinal: Seq<(u32, u64)>,
    base: int,
    end: u64,
    encoding: EncodingType,
    compression: CompressionType,
    k: int,
    content: crate::page::PageContent,
)
    requires
        0 <= k < ordinal.len(),
        k + 1 == ordinal.len() ==> end == base + data.len(),
        0 <= base,
        base + data.len() <= bytes.len() <= u64::MAX,
        bytes.subrange(base, base + data.len()) == data,
        0 <= ordinal[k].1 < (if k + 1 < ordinal.len() {
            ordinal[k + 1].1 as int
        } else {
            data.len() as int
        }) <= data.len(),
        decoded_page(
            data.subrange(
                ordinal[k].1 as int,
                if k + 1 < ordinal.len() {
                    ordinal[k + 1].1 as int
                } else {
                    data.len() as int
                },
            ),
            encoding,
            compression,
        ) == Ok::<crate::page::PageContent, crate::page::PageFault>(content),
    ensures
        page_values(
            bytes,
            OrdinalIndex::shifted(ordinal, base as u64),
            end,
            encoding,
            compression,
            k,
        ) == content.values,
{
    let shifted = OrdinalIndex::shifted(ordinal, base as u64);
    let from = ordinal[k].1 as int;
    let to = if k + 1 < ordinal.len() {
        ordinal[k + 1].1 as int
    } else {
        data.len() as int
    };
    lemma_shifted_entries(ordinal, base as u64, k);
    if k + 1 < ordinal.len() {
        lemma_shifted_entries(ordinal, base as u64, k + 1);
    }
    assert(bytes.subrange(base + from, base + to) == data.subrange(from, to)) by {
        assert(bytes.subrange(base + from, base + to) =~= bytes.subrange(
            base,
            base + data.len(),
        ).subrange(from, to));
    }
    lemma_page_values(bytes, shifted, end, encoding, compression, k, content);
}

proof fn lemma_page_reads_back(bytes: Seq<u8>, c: ColumnState, base: int, end: u64, k: int)
    requires
        holds_column(bytes, c, base),
        0 <= k < c.ordinal.len(),
        k + 1 == c.ordinal.len() ==> end == base + c.data.len(),
    ensures
        page_values(
            bytes,
            OrdinalIndex::shifted(c.ordinal, base as u64),
            end,
            c.encoding,
            c.compression,
            k,
        ) == as_int64s(c.flushed[k]),
{
    lemma_page_bounds(c, k);
    lemma_page_decodes(c, k);
    lemma_shifted_page_values(
        bytes,
        c.data,
        c.ordinal,
        base,
        end,
        c.encoding,
        c.compression,
        k,
        crate::page::PageContent {
            value_count: c.flushed[k].len(),
            first_row_id: c.ordinal[k].0,
            values: as_int64s(c.flushed[k]),
        },
    );
}

proof fn lemma_pages_read_back(bytes: Seq<u8>, c: ColumnState, base: int, end: u64, upto: int)
    requires
        holds_column(bytes, c, base),
        0 <= upto <= c.ordinal.len(),
        upto == c.ordinal.len() ==> end == base + c.data.len(),
    ensures
        pages_values(
            bytes,
            OrdinalIndex::shifted(c.ordinal, base as u64),
            end,
            c.encoding,
            c.compression,
            upto,
        ) == as_int64s(all_rows(c.flushed.subrange(0, upto))),
    decreases upto,
{
    if upto <= 0 {
        assert(c.flushed.subrange(0, 0) =~= Seq::<Seq<ValueView>>::empty());
        assert(as_int64s(Seq::<ValueView>::empty()) =~= Seq::<ValueView>::empty());
    } else {
        let k = upto - 1;
        lemma_pages_read_back(bytes, c, base, end, k);
        lemma_page_reads_back(bytes, c, base, end, k);
        let before = c.flushed.subrange(0, k);
        let now = c.flushed.subrange(0, upto);
        assert(now.drop_last() =~= before);
        assert(now.last() == c.flushed[k]);
        assert(as_int64s(all_rows(before) + c.flushed[k]) =~= as_int64s(all_rows(before))
            + as_int64s(c.flushed[k]));
    }
}

/// Whether column `i` of a segment has lost nothing, with values that are
/// read back as the integers they project to.
pub open spec fn column_intact(s: SegmentState, i: int) -> bool {
    &&& 0 <= i < s.columns.len()
    &&& s.columns[i].intact()
    &&& reads_back(all_rows(s.columns[i].flushed), s.columns[i].encoding)
    &&& s.bytes().len() <= u64::MAX
}

proof fn lemma_column_is_held(s: SegmentState, schema: Seq<ColumnMeta>, i: int)
    requires
        column_intact(s, i),
        schema.len() == s.columns.len(),
    ensures
        holds_column(s.bytes(), s.columns[i], column_start(s.columns, i)),
        s.columns[i].ordinal.len() <= u32::MAX,
        column_values(s.bytes(), s.footer(), schema, i) == Ok::<Seq<ValueView>, ReadFault>(
            pages_values(
                s.bytes(),
                OrdinalIndex::shifted(
                    s.columns[i].ordinal,
                    column_start(s.columns, i) as u64,
                ),
                index_start(s.columns, i) as u64,
                schema[i].encoding,
                schema[i].compression,
                s.columns[i].ordinal.len() as int,
            ),
        ),
{
    let c = s.columns[i];
    lemma_column_layout(s, i);
    let ob = ordinal_bytes(s.columns, i);
    let shifted = OrdinalIndex::shifted(c.ordinal, column_start(s.columns, i) as u64);
    assert forall|k: int| 0 <= k < c.flushed.len() implies (#[trigger] c.flushed[k]).len() > 0 by {
        assert(c.page_intact(k));
    }
    lemma_pages_are_rows(c.flushed);
    OrdinalIndex::lemma_round_trip(shifted, ob);
    let cm = s.footer().column_metas[i];
    assert(cm == column_index_meta(s.columns, i));
    assert(cm.ordinal_offset == index_start(s.columns, i));
    assert(cm.ordinal_size == ob.len());
}

/// Every page of a column but the last is read back: where the writer of
/// the column has lost nothing and its values are read back as integers,
/// reading the column gives the integer projection of every value of these
/// pages, in order, and then what is read from where the last page begins
/// to where the ordinal index of the column begins.
pub proof fn lemma_column_reads_pages_back(s: SegmentState, schema: Seq<ColumnMeta>, i: int)
    requires
        column_intact(s, i),
        schema.len() == s.columns.len(),
        schema[i].encoding == s.columns[i].encoding,
        schema[i].compression == s.columns[i].compression,
        s.columns[i].ordinal.len() > 0,
    ensures
        column_values(s.bytes(), s.footer(), schema, i) == Ok::<Seq<ValueView>, ReadFault>(
            as_int64s(all_rows(s.columns[i].flushed.drop_last())) + page_values(
                s.bytes(),
                OrdinalIndex::shifted(
                    s.columns[i].ordinal,
                    column_start(s.columns, i) as u64,
                ),
                index_start(s.columns, i) as u64,
                s.columns[i].encoding,
                s.columns[i].compression,
                s.columns[i].ordinal.len() - 1,
            ),
        ),
{
    let c = s.columns[i];
    lemma_column_is_held(s, schema, i);
    lemma_pages_read_back(
        s.bytes(),
        c,
        column_start(s.columns, i),
        index_start(s.columns, i) as u64,
        c.ordinal.len() - 1,
    );
    assert(c.flushed.subrange(0, c.ordinal.len() - 1) =~= c.flushed.drop_last());
}

/// A segment of one column reads every row back: where the writer has lost
/// nothing and the values are read back as integers, reading the column
/// gives the integer projection of every value appended, in order, as many
/// as the segment has rows.
pub proof fn lemma_single_column_reads_back(s: SegmentState, schema: Seq<ColumnMeta>)
    requires
        single_column_intact(s),
        schema.len() == 1,
        schema[0].encoding == s.columns[0].encoding,
        schema[0].compression == s.columns[0].compression,
    ensures
        column_values(s.bytes(), s.footer(), schema, 0) == Ok::<Seq<ValueView>, ReadFault>(
            as_int64s(all_rows(s.columns[0].flushed)),
        ),
        as_int64s(all_rows(s.columns[0].flushed)).len() == s.num_rows,
{
    let c = s.columns[0];
    lemma_column_layout(s, 0);
    lemma_column_is_held(s, schema, 0);
    lemma_pages_read_back(
        s.bytes(),
        c,
        column_start(s.columns, 0),
        index_start(s.columns, 0) as u64,
        c.ordinal.len() as int,
    );
    assert(c.flushed.subrange(0, c.ordinal.len() as int) =~= c.flushed);
}

fn has_magic_at(data: &[u8], pos: usize) -> (r: bool)
    requires
        pos + 8 <= data.len(),
    ensures
        r == (data@.subrange(pos as int, pos + 8) == magic()),
{
    let r = data[pos] == 79 && data[pos + 1] == 76 && data[pos + 2] == 65 && data[pos + 3] == 80
        && data[pos + 4] == 83 && data[pos + 5] == 69 && data[pos + 6] == 71 && data[pos + 7] == 0;
    proof {
        let w = data@.subrange(pos as int, pos + 8);
        if r {
            assert(w =~= magic());
        } else {
            assert(w[0] == data@[pos as int] && w[1] == data@[pos + 1] && w[2] == data@[pos + 2]
                && w[3] == data@[pos + 3] && w[4] == data@[pos + 4] && w[5] == data@[pos + 5]
                && w[6] == data@[pos + 6] && w[7] == data@[pos + 7]);
        }
    }
    r
}

/// Reads the columns of a segment held in memory.
pub struct SegmentReader {
    data: Vec<u8>,
    footer: SegmentFooter,
    schema: Vec<ColumnMeta>,
}

impl SegmentReader {
    /// The bytes of the segment.
    pub closed spec fn bytes(&self) -> Seq<u8> {
        self.data@
    }

    /// The footer read when the segment was opened.
    pub closed spec fn footer(&self) -> FooterView {
        self.footer@
    }

    /// The settings of the columns, as given when the segment was opened.
    pub closed spec fn columns(&self) -> Seq<ColumnMeta> {
        self.schema@
    }

    /// Opens a segment.
    ///
    /// Fails with `SegmentIo` where the bytes are shorter than
    /// `SEGMENT_MIN`, do not end in the magic, state a footer longer than
    /// what lies before it, or hold a footer shorter than its head; with
    /// `ChecksumMismatch` where the footer checksum does not match.
    pub fn open(data: Vec<u8>, schema: Vec<ColumnMeta>) -> (r: Result<Self, OlapError>)
        ensures
            match opened(data@) {
                Ok(f) => r is Ok && r->Ok_0.footer() == f && r->Ok_0.bytes() == data@
                    && r->Ok_0.columns() == schema@,
                Err(OpenFault::Magic) => r is Err && r->Err_0 is SegmentIo
                    && r->Err_0->SegmentIo_0@ == "invalid segment magic"@,
                Err(OpenFault::FooterLength) => r is Err && r->Err_0 is SegmentIo
                    && r->Err_0->SegmentIo_0@ == "invalid footer length"@,
                Err(OpenFault::Checksum) => r is Err && r->Err_0 is ChecksumMismatch,
                Err(OpenFault::Footer) => r is Err && r->Err_0 is SegmentIo
                    && r->Err_0->SegmentIo_0@ == "cannot parse footer"@,
            },
    {
        let n = data.len();
        if n < SEGMENT_MIN || !has_magic_at(data.as_slice(), n - 8) {
            return Err(OlapError::SegmentIo(String::from_str("invalid segment magic")));
        }
        let footer_len = read_u32_le(data.as_slice(), n - 12) as usize;
        let footer_crc = read_u32_le(data.as_slice(), n - 16);
        if footer_len > n - SEGMENT_TAIL {
            return Err(OlapError::SegmentIo(String::from_str("invalid footer length")));
        }
        let footer_start = n - SEGMENT_TAIL - footer_len;
        let footer_bytes = vstd::slice::slice_subrange(
            data.as_slice(),
            footer_start,
            footer_start + footer_len,
        );
        if crc32_of(footer_bytes) != footer_crc {
            return Err(OlapError::ChecksumMismatch);
        }
        let footer = match SegmentFooter::deserialize(footer_bytes) {
            Some(footer) => footer,
            None => {
                return Err(OlapError::SegmentIo(String::from_str("cannot parse footer")));
            },
        };
        Ok(Self { data, footer, schema })
    }

    pub fn num_rows(&self) -> (n: u32)
        ensures
            n == self.footer().num_rows,
    {
        self.footer.num_rows
    }

    /// Reads every value of a column, page by page.
    ///
    /// A page that cannot be decoded is skipped. Fails with `SegmentIo`
    /// where the footer or the schema has no such column, or where the
    /// ordinal index of the column lies outside the data.
    pub fn read_column(&self, col_idx: usize) -> (r: Result<Vec<Value>, OlapError>)
        ensures
            match column_values(self.bytes(), self.footer(), self.columns(), col_idx as int) {
                Ok(values) => r is Ok && views(r->Ok_0@) == values,
                Err(ReadFault::NoColumn) => r is Err && r->Err_0 is SegmentIo
                    && r->Err_0->SegmentIo_0@ == "col "@ + decimal(col_idx as nat)
                    + " not found"@,
                Err(ReadFault::NoSchema) => r is Err && r->Err_0 is SegmentIo
                    && r->Err_0->SegmentIo_0@ == "schema mismatch"@,
                Err(ReadFault::IndexRange) => r is Err && r->Err_0 is SegmentIo
                    && r->Err_0->SegmentIo_0@ == "ordinal index out of range"@,
            },
    {
        if col_idx >= self.footer.column_metas.len() {
            let mut msg = String::from_str("col ");
            push_decimal(&mut msg, col_idx as u64);
            msg.append(" not found");
            return Err(OlapError::SegmentIo(msg));
        }
        if col_idx >= self.schema.len() {
            return Err(OlapError::SegmentIo(String::from_str("schema mismatch")));
        }
        let cm = self.footer.column_metas[col_idx];
        let encoding = self.schema[col_idx].encoding;
        let compression = self.schema[col_idx].compression;
        let size: usize = self.data.len();
        let len = size as u64;
        if cm.ordinal_offset > len || cm.ordinal_size > len - cm.ordinal_offset {
            return Err(OlapError::SegmentIo(String::from_str("ordinal index out of range")));
        }
        let ordinal = OrdinalIndex::deserialize(
            vstd::slice::slice_subrange(
                self.data.as_slice(),
                cm.ordinal_offset as usize,
                (cm.ordinal_offset + cm.ordinal_size) as usize,
            ),
        );
        let mut all_values: Vec<Value> = Vec::new();
        let page_count = ordinal.page_count();
        let mut k: usize = 0;
        while k < page_count
            invariant
                k <= page_count,
                page_count == ordinal@.len(),
                len == size,
                size == self.data@.len(),
                views(all_values@) == pages_values(
                    self.data@,
                    ordinal@,
                    cm.ordinal_offset,
                    encoding,
                    compression,
                    k as int,
                ),
            decreases page_count - k,
        {
            let from = ordinal.entry(k).1;
            let to = if k + 1 < page_count {
                ordinal.entry(k + 1).1
            } else {
                cm.ordinal_offset
            };
            let ghost before = views(all_values@);
            if from < to && to <= len {
                let page = vstd::slice::slice_subrange(
                    self.data.as_slice(),
                    from as usize,
                    to as usize,
                );
                match PageDecoder::decode(page, encoding, compression) {
                    Ok(decoded) => {
                        let mut values = decoded.values;
                        let ghost added = views(values@);
                        all_values.append(&mut values);
                        assert(views(all_values@) =~= before + added);
                    },
                    Err(_) => {},
                }
            }
            assert(views(all_values@) =~= before + page_values(
                self.data@,
                ordinal@,
                cm.ordinal_offset,
                encoding,
                compression,
                k as int,
            ));
            k += 1;
        }
        Ok(all_values)
    }
}

} // verus!
