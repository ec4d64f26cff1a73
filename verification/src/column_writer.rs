//! The writer of one column: it collects values into pages, closes a page
//! when it is full, and keeps the indexes of the column.

use crate::common::OlapError;
use crate::compression::LZ4_MAX_INPUT_SIZE;
use crate::encoding::encoded;
use crate::field_type::{
    views, ColumnMeta, CompressionType, EncodingType, Value, ValueView,
};
use crate::index::{
    bytes_less, lex_lt, with_probes, BloomFilter, OrdinalIndex, ShortKeyIndex, Zone,
    ZoneMapIndex, BLOOM_PROBES, SHORT_KEY_INTERVAL,
};
use crate::page::{is_built_page, PageBuilder, PAGE_MAX_ROWS};
use crate::wire::{copy_range, push_bytes};
use vstd::prelude::*;

verus! {

/// The number of distinct values that the Bloom filter of a column is sized
/// for.
pub const BLOOM_EXPECTED_VALUES: usize = 4096;

/// The state of a column writer.
pub struct ColumnState {
    pub encoding: EncodingType,
    pub compression: CompressionType,
    /// The bytes of the closed pages, one after another.
    pub data: Seq<u8>,
    /// The values of each closed page.
    pub flushed: Seq<Seq<ValueView>>,
    /// The values of the open page.
    pub pending: Seq<ValueView>,
    /// The row id of the first value of the open page.
    pub pending_first_row: u32,
    /// The number of values added.
    pub next_row_id: u32,
    /// The smallest sort key of the open page.
    pub page_min: Option<Seq<u8>>,
    /// The largest sort key of the open page.
    pub page_max: Option<Seq<u8>>,
    /// The number of pages closed.
    pub page_ordinal: u32,
    pub ordinal: Seq<(u32, u64)>,
    pub zones: Seq<Zone>,
    pub bloom_bits: Seq<u8>,
    pub bloom_num_bits: usize,
}

/// The bytes of an optional key: the key, or the empty string.
pub open spec fn key_or_empty(key: Option<Seq<u8>>) -> Seq<u8> {
    match key {
        Some(k) => k,
        None => Seq::<u8>::empty(),
    }
}

impl ColumnState {
    /// The state of a writer to which nothing was added.
    pub open spec fn initial(
        encoding: EncodingType,
        compression: CompressionType,
        bloom_bits: Seq<u8>,
        bloom_num_bits: usize,
    ) -> ColumnState {
        ColumnState {
            encoding,
            compression,
            data: Seq::<u8>::empty(),
            flushed: Seq::<Seq<ValueView>>::empty(),
            pending: Seq::<ValueView>::empty(),
            pending_first_row: 0,
            next_row_id: 0,
            page_min: None,
            page_max: None,
            page_ordinal: 0,
            ordinal: Seq::<(u32, u64)>::empty(),
            zones: Seq::<Zone>::empty(),
            bloom_bits,
            bloom_num_bits,
        }
    }

    /// What holds of the state between calls: the open page is not full and
    /// starts where the closed pages end, fewer pages were closed than rows
    /// were added to them, the Bloom filter can be probed, and every page
    /// begins within the data, whose length fits an offset.
    pub open spec fn valid(self) -> bool {
        &&& self.pending.len() < PAGE_MAX_ROWS
        &&& self.pending_first_row + self.pending.len() == self.next_row_id
        &&& self.page_ordinal + self.pending.len() <= self.next_row_id
        &&& 0 < self.bloom_num_bits <= 8 * self.bloom_bits.len()
        &&& self.data.len() <= u64::MAX
        &&& forall|k: int|
            0 <= k < self.ordinal.len() ==> (#[trigger] self.ordinal[k]).1 <= self.data.len()
    }

    /// Whether `after` is what adding `v` leaves where the call succeeds:
    /// the value joins the open page, and where that fills the page, some
    /// page built from it is closed.
    #[verifier::opaque]
    pub open spec fn steps_to(self, v: ValueView, after: ColumnState) -> bool {
        if self.pending.len() + 1 < PAGE_MAX_ROWS {
            after == self.extended(v)
        } else {
            self.extended(v).closes_to(after, true)
        }
    }

    /// Whether adding `v` succeeds: always, unless it fills the page and the
    /// page cannot be built.
    #[verifier::opaque]
    pub open spec fn can_step(self, v: ValueView) -> bool {
        self.pending.len() + 1 >= PAGE_MAX_ROWS ==> self.extended(v).can_close()
    }

    /// Whether `after` is what closing leaves where the call succeeds: the
    /// same state where no page is open, else some page built from the open
    /// page is closed.
    #[verifier::opaque]
    pub open spec fn finishes_to(self, after: ColumnState) -> bool {
        if self.pending.len() == 0 {
            after == self
        } else {
            self.closes_to(after, true)
        }
    }

    /// Whether closing succeeds.
    #[verifier::opaque]
    pub open spec fn can_finish(self) -> bool {
        self.pending.len() > 0 ==> self.can_close()
    }

    /// The state after `v` joined the open page: the value is in the Bloom
    /// filter and the key range of the page covers its sort key.
    pub open spec fn extended(self, v: ValueView) -> ColumnState {
        let key = v.sort_key();
        ColumnState {
            pending: self.pending.push(v),
            next_row_id: (self.next_row_id + 1) as u32,
            page_min: match self.page_min {
                Some(m) => if lex_lt(key, m) {
                    Some(key)
                } else {
                    Some(m)
                },
                None => Some(key),
            },
            page_max: match self.page_max {
                Some(m) => if lex_lt(m, key) {
                    Some(key)
                } else {
                    Some(m)
                },
                None => Some(key),
            },
            bloom_bits: with_probes(
                self.bloom_bits,
                self.bloom_num_bits,
                key,
                BLOOM_PROBES as nat,
            ),
            ..self
        }
    }

    /// The state after the open page was closed as `page`: the page follows
    /// the data, the indexes have its entry, and a new page is open.
    pub open spec fn closed_with(self, page: Seq<u8>) -> ColumnState {
        ColumnState {
            data: self.data + page,
            flushed: self.flushed.push(self.pending),
            pending: Seq::<ValueView>::empty(),
            pending_first_row: self.next_row_id,
            page_min: None,
            page_max: None,
            page_ordinal: (self.page_ordinal + 1) as u32,
            ordinal: self.ordinal.push((self.pending_first_row, self.data.len() as u64)),
            zones: self.zones.push(
                Zone {
                    page_idx: self.page_ordinal,
                    min: key_or_empty(self.page_min),
                    max: key_or_empty(self.page_max),
                    has_null: false,
                },
            ),
            ..self
        }
    }

    /// The state after the open page could not be built: its values are
    /// gone and a new page is open.
    pub open spec fn dropped(self) -> ColumnState {
        ColumnState {
            pending: Seq::<ValueView>::empty(),
            pending_first_row: self.next_row_id,
            ..self
        }
    }

    /// A successful step counts one more value.
    pub proof fn lemma_step_counts(self, v: ValueView, after: ColumnState)
        requires
            self.steps_to(v, after),
            self.next_row_id < u32::MAX,
        ensures
            after.next_row_id == self.next_row_id + 1,
            after.encoding == self.encoding,
            after.compression == self.compression,
    {
        reveal(ColumnState::steps_to);
    }

    /// Closing keeps the number of values, and leaves no page open.
    pub proof fn lemma_finish_counts(self, after: ColumnState)
        requires
            self.finishes_to(after),
        ensures
            after.next_row_id == self.next_row_id,
            after.pending.len() == 0,
            after.encoding == self.encoding,
            after.compression == self.compression,
    {
        reveal(ColumnState::finishes_to);
    }

    /// Whether the open page can be built: under LZ4 its encoding must not
    /// be longer than LZ4 accepts.
    pub open spec fn can_close(self) -> bool {
        self.compression is Lz4 ==> encoded(self.pending, self.encoding).len()
            <= LZ4_MAX_INPUT_SIZE
    }

    /// Whether `after` is what closing the open page of `self` leaves, for
    /// the outcome `ok`: on success some page built from the open page
    /// follows the data; on failure the open page is dropped.
    pub open spec fn closes_to(self, after: ColumnState, ok: bool) -> bool {
        let page = after.data.subrange(self.data.len() as int, after.data.len() as int);
        &&& ok == self.can_close()
        &&& ok ==> after == self.closed_with(page) && is_built_page(
            page,
            self.pending,
            self.pending_first_row,
            self.encoding,
            self.compression,
        )
        &&& !ok ==> after == self.dropped()
    }
}

/// The values of a list of pages, one page after another.
pub open spec fn all_rows(pages: Seq<Seq<ValueView>>) -> Seq<ValueView>
    decreases pages.len(),
{
    if pages.len() == 0 {
        Seq::<ValueView>::empty()
    } else {
        all_rows(pages.drop_last()) + pages.last()
    }
}

impl ColumnState {
    /// Where page `k` starts in the data.
    pub open spec fn page_start(self, k: int) -> int {
        self.ordinal[k].1 as int
    }

    /// Where page `k` ends in the data: where the next page starts, or
    /// where the data ends.
    pub open spec fn page_end(self, k: int) -> int {
        if k + 1 < self.ordinal.len() {
            self.ordinal[k + 1].1 as int
        } else {
            self.data.len() as int
        }
    }

    /// Whether page `k` of the data is a page built from the values that
    /// were closed as page `k`, none of them empty or over-full.
    pub open spec fn page_intact(self, k: int) -> bool {
        &&& 0 <= self.page_start(k) <= self.page_end(k) <= self.data.len()
        &&& 0 < self.flushed[k].len() <= PAGE_MAX_ROWS
        &&& is_built_page(
            self.data.subrange(self.page_start(k), self.page_end(k)),
            self.flushed[k],
            self.ordinal[k].0,
            self.encoding,
            self.compression,
        )
    }

    /// Whether nothing was lost: the state is valid, the data holds one
    /// intact page for every entry of the ordinal index, and every value
    /// added is in a closed page or in the open page.
    pub open spec fn intact(self) -> bool {
        &&& self.valid()
        &&& self.ordinal.len() == self.flushed.len()
        &&& forall|k: int| 0 <= k < self.ordinal.len() ==> #[trigger] self.page_intact(k)
        &&& all_rows(self.flushed).len() + self.pending.len() == self.next_row_id
    }

    /// A writer to which nothing was added has lost nothing.
    pub proof fn lemma_initial_intact(
        encoding: EncodingType,
        compression: CompressionType,
        bloom_bits: Seq<u8>,
        bloom_num_bits: usize,
    )
        requires
            0 < bloom_num_bits <= 8 * bloom_bits.len(),
        ensures
            Self::initial(encoding, compression, bloom_bits, bloom_num_bits).intact(),
    {
    }

    proof fn lemma_closed_intact(self, page: Seq<u8>)
        requires
            self.intact() || (self.dropless() && self.pending.len() == PAGE_MAX_ROWS),
            self.pending.len() > 0,
            is_built_page(
                page,
                self.pending,
                self.pending_first_row,
                self.encoding,
                self.compression,
            ),
            self.data.len() + page.len() <= u64::MAX,
        ensures
            self.closed_with(page).intact(),
    {
        let after = self.closed_with(page);
        let n = self.ordinal.len() as int;
        assert(after.flushed.drop_last() =~= self.flushed);
        assert forall|k: int| 0 <= k < after.ordinal.len() implies #[trigger] after.page_intact(
            k,
        ) by {
            if k < n {
                assert(self.page_intact(k));
                assert(after.page_start(k) == self.page_start(k));
                assert(after.page_end(k) == self.page_end(k));
                assert(after.data.subrange(after.page_start(k), after.page_end(k))
                    =~= self.data.subrange(self.page_start(k), self.page_end(k)));
                assert(after.flushed[k] == self.flushed[k]);
                assert(after.ordinal[k] == self.ordinal[k]);
            } else {
                assert(after.data.subrange(after.page_start(k), after.page_end(k)) =~= page);
            }
        }
        assert forall|k: int| 0 <= k < after.ordinal.len() implies (#[trigger] after.ordinal[k]).1
            <= after.data.len() by {
            if k < n {
                assert(self.ordinal[k].1 <= self.data.len());
            }
        }
    }

    /// The state of a writer that has lost nothing, except that its open
    /// page may be full.
    pub open spec fn dropless(self) -> bool {
        &&& self.pending.len() <= PAGE_MAX_ROWS
        &&& self.pending_first_row + self.pending.len() == self.next_row_id
        &&& self.page_ordinal + self.pending.len() <= self.next_row_id
        &&& 0 < self.bloom_num_bits <= 8 * self.bloom_bits.len()
        &&& self.data.len() <= u64::MAX
        &&& forall|k: int|
            0 <= k < self.ordinal.len() ==> (#[trigger] self.ordinal[k]).1 <= self.data.len()
        &&& self.ordinal.len() == self.flushed.len()
        &&& forall|k: int| 0 <= k < self.ordinal.len() ==> #[trigger] self.page_intact(k)
        &&& all_rows(self.flushed).len() + self.pending.len() == self.next_row_id
    }

    proof fn lemma_extended_dropless(self, v: ValueView)
        requires
            self.intact(),
            self.next_row_id < u32::MAX,
        ensures
            self.extended(v).dropless(),
            self.extended(v).pending.len() == self.pending.len() + 1,
    {
        let after = self.extended(v);
        crate::index::lemma_add_keeps_members(
            self.bloom_bits,
            self.bloom_num_bits,
            v.sort_key(),
            v.sort_key(),
        );
        assert forall|k: int| 0 <= k < after.ordinal.len() implies #[trigger] after.page_intact(
            k,
        ) by {
            assert(self.page_intact(k));
        }
    }

    /// A successful step loses nothing: the value added is in a closed page
    /// or in the open page afterwards.
    pub proof fn lemma_step_keeps_intact(self, v: ValueView, after: ColumnState)
        requires
            self.intact(),
            self.next_row_id < u32::MAX,
            self.steps_to(v, after),
            after.data.len() <= u64::MAX,
        ensures
            after.intact(),
            all_rows(after.flushed) + after.pending == all_rows(self.flushed) + self.pending.push(
                v,
            ),
    {
        reveal(ColumnState::steps_to);
        self.lemma_extended_dropless(v);
        let mid = self.extended(v);
        if self.pending.len() + 1 < PAGE_MAX_ROWS {
            assert forall|k: int| 0 <= k < mid.ordinal.len() implies #[trigger] mid.page_intact(
                k,
            ) by {}
        } else {
            let page = after.data.subrange(mid.data.len() as int, after.data.len() as int);
            assert(after.data == mid.data + page);
            mid.lemma_closed_intact(page);
            assert(after.flushed.drop_last() =~= mid.flushed);
            assert(all_rows(after.flushed) + after.pending =~= all_rows(self.flushed)
                + self.pending.push(v));
        }
    }

    /// Closing loses nothing, and leaves every value in a closed page.
    pub proof fn lemma_finish_keeps_intact(self, after: ColumnState)
        requires
            self.intact(),
            self.finishes_to(after),
            after.data.len() <= u64::MAX,
        ensures
            after.intact(),
            after.pending.len() == 0,
            all_rows(after.flushed) == all_rows(self.flushed) + self.pending,
    {
        reveal(ColumnState::finishes_to);
        if self.pending.len() > 0 {
            let page = after.data.subrange(self.data.len() as int, after.data.len() as int);
            assert(after.data == self.data + page);
            self.lemma_closed_intact(page);
            assert(after.flushed.drop_last() =~= self.flushed);
        } else {
            assert(all_rows(self.flushed) + self.pending =~= all_rows(self.flushed));
        }
    }
}

/// Writes one column of a segment.
pub struct ColumnWriter {
    pub meta: ColumnMeta,
    data: Vec<u8>,
    flushed: Ghost<Seq<Seq<ValueView>>>,
    current: PageBuilder,
    next_row_id: u32,
    page_min: Option<Vec<u8>>,
    page_max: Option<Vec<u8>>,
    page_ordinal: u32,
    data_offset: u64,
    pub ordinal_index: OrdinalIndex,
    pub zone_map: ZoneMapIndex,
    pub bloom_filter: BloomFilter,
}

impl View for ColumnWriter {
    type V = ColumnState;

    closed spec fn view(&self) -> ColumnState {
        ColumnState {
            encoding: self.meta.encoding,
            compression: self.meta.compression,
            data: self.data@,
            flushed: self.flushed@,
            pending: self.current.contents(),
            pending_first_row: self.current.first_row(),
            next_row_id: self.next_row_id,
            page_min: match self.page_min {
                Some(m) => Some(m@),
                None => None,
            },
            page_max: match self.page_max {
                Some(m) => Some(m@),
                None => None,
            },
            page_ordinal: self.page_ordinal,
            ordinal: self.ordinal_index@,
            zones: self.zone_map@,
            bloom_bits: self.bloom_filter.bits(),
            bloom_num_bits: self.bloom_filter.num_bits(),
        }
    }
}

impl ColumnWriter {
    /// Whether the writer is in a state that its operations keep: its state
    /// is valid, the open page uses the encoding and compression of the
    /// column, and the running offset is the length of the data.
    pub closed spec fn wf(&self) -> bool {
        &&& self@.valid()
        &&& self.current.encoding_used() == self.meta.encoding
        &&& self.current.compression_used() == self.meta.compression
        &&& self.data_offset == self.data@.len()
    }

    /// A well-formed writer has a valid state.
    pub proof fn lemma_wf_valid(&self)
        requires
            self.wf(),
        ensures
            self@.valid(),
    {
    }

    /// The settings of the column.
    pub closed spec fn settings(&self) -> ColumnMeta {
        self.meta
    }

    /// A writer for a column with the given settings.
    pub fn new(meta: ColumnMeta) -> (w: Self)
        ensures
            w.wf(),
            w.settings() == meta,
            w@ == ColumnState::initial(
                meta.encoding,
                meta.compression,
                w@.bloom_bits,
                w@.bloom_num_bits,
            ),
            w@.bloom_num_bits == 10 * BLOOM_EXPECTED_VALUES,
            w@.bloom_bits.len() == (10 * BLOOM_EXPECTED_VALUES + 7) / 8,
            forall|i: int| 0 <= i < w@.bloom_bits.len() ==> w@.bloom_bits[i] == 0,
    {
        let bloom_filter = BloomFilter::new(BLOOM_EXPECTED_VALUES);
        let current = PageBuilder::new(0, meta.encoding, meta.compression);
        Self {
            meta,
            data: Vec::new(),
            flushed: Ghost(Seq::empty()),
            current,
            next_row_id: 0,
            page_min: None,
            page_max: None,
            page_ordinal: 0,
            data_offset: 0,
            ordinal_index: OrdinalIndex::new(),
            zone_map: ZoneMapIndex::new(),
            bloom_filter,
        }
    }

    /// Appends a value to the column.
    ///
    /// The value joins the open page. When that fills the page, the page is
    /// closed: on success a page built from its values follows the data; on
    /// failure, which only LZ4 can cause, the values of the page are dropped
    /// and `Compression` is returned.
    pub fn add_value(&mut self, value: Value) -> (r: Result<(), OlapError>)
        requires
            old(self).wf(),
            old(self)@.next_row_id < u32::MAX,
        ensures
            final(self).wf(),
            final(self).settings() == old(self).settings(),
            r is Ok <==> old(self)@.can_step(value@),
            r is Ok ==> old(self)@.steps_to(value@, final(self)@),
            r is Err ==> r->Err_0 is Compression && final(self)@ == old(self)@.extended(
                value@,
            ).dropped(),
    {
        proof {
            reveal(ColumnState::steps_to);
            reveal(ColumnState::can_step);
        }
        let key = value.to_sort_key();
        self.bloom_filter.add(key.as_slice());
        let lower = match &self.page_min {
            Some(m) => bytes_less(key.as_slice(), m.as_slice()),
            None => true,
        };
        if lower {
            self.page_min = Some(copy_range(key.as_slice(), 0, key.len()));
        }
        let higher = match &self.page_max {
            Some(m) => bytes_less(m.as_slice(), key.as_slice()),
            None => true,
        };
        if higher {
            self.page_max = Some(key);
        }
        self.current.add(value);
        self.next_row_id += 1;
        proof {
            let expected = old(self)@.extended(value@);
            assert(self@.page_min == expected.page_min);
            assert(self@.page_max == expected.page_max);
            assert(self@.bloom_bits == expected.bloom_bits);
            assert(self@.pending == expected.pending);
            assert(self@ == expected);
        }
        if self.current.is_full() {
            self.flush_page()
        } else {
            Ok(())
        }
    }

    fn flush_page(&mut self) -> (r: Result<(), OlapError>)
        requires
            old(self).current.encoding_used() == old(self).meta.encoding,
            old(self).current.compression_used() == old(self).meta.compression,
            old(self).data_offset == old(self).data@.len(),
            old(self)@.pending.len() <= PAGE_MAX_ROWS,
            old(self)@.page_ordinal < u32::MAX,
        ensures
            final(self).settings() == old(self).settings(),
            final(self).current.encoding_used() == final(self).meta.encoding,
            final(self).current.compression_used() == final(self).meta.compression,
            final(self).data_offset == final(self).data@.len(),
            old(self)@.closes_to(final(self)@, r is Ok),
            r is Err ==> r->Err_0 is Compression,
    {
        let first_row_id = self.current.first_row_id();
        let mut page = PageBuilder::new(self.next_row_id, self.meta.encoding, self.meta.compression);
        std::mem::swap(&mut self.current, &mut page);
        let bytes = match page.build() {
            Ok(bytes) => bytes,
            Err(e) => {
                assert(self@ == old(self)@.dropped());
                return Err(e);
            },
        };
        self.ordinal_index.add(first_row_id, self.data_offset);
        let mut min: Option<Vec<u8>> = None;
        std::mem::swap(&mut self.page_min, &mut min);
        let mut max: Option<Vec<u8>> = None;
        std::mem::swap(&mut self.page_max, &mut max);
        let min_key = match min {
            Some(m) => m,
            None => Vec::new(),
        };
        let max_key = match max {
            Some(m) => m,
            None => Vec::new(),
        };
        self.zone_map.add_page(self.page_ordinal, min_key, max_key, false);
        push_bytes(&mut self.data, bytes.as_slice());
        self.flushed = Ghost(self.flushed@.push(old(self)@.pending));
        self.data_offset = self.data.len() as u64;
        self.page_ordinal += 1;
        proof {
            let page_bytes = self@.data.subrange(
                old(self)@.data.len() as int,
                self@.data.len() as int,
            );
            assert(page_bytes =~= bytes@);
            assert(key_or_empty(old(self)@.page_min) =~= min_key@);
            assert(key_or_empty(old(self)@.page_max) =~= max_key@);
            assert(self@ == old(self)@.closed_with(page_bytes));
        }
        Ok(())
    }

    /// Closes the open page unless it is empty.
    pub fn close(&mut self) -> (r: Result<(), OlapError>)
        requires
            old(self).wf(),
        ensures
            final(self).wf(),
            final(self).settings() == old(self).settings(),
            r is Ok <==> old(self)@.can_finish(),
            r is Ok ==> old(self)@.finishes_to(final(self)@),
            r is Err ==> r->Err_0 is Compression && final(self)@ == old(self)@.dropped(),
    {
        proof {
            reveal(ColumnState::finishes_to);
            reveal(ColumnState::can_finish);
        }
        if !self.current.is_empty() {
            self.flush_page()
        } else {
            Ok(())
        }
    }

    /// Closes the open page unless it is empty, and hands out the bytes of
    /// all pages with their length.
    pub fn finalize(self) -> (r: Result<(Vec<u8>, u64), OlapError>)
        requires
            self.wf(),
        ensures
            r is Ok ==> r->Ok_0.1 == r->Ok_0.0@.len(),
            self@.pending.len() == 0 ==> r is Ok && r->Ok_0.0@ == self@.data,
            self@.pending.len() > 0 ==> (r is Ok <==> self@.can_close()),
            self@.pending.len() > 0 && r is Ok ==> is_built_page(
                r->Ok_0.0@.subrange(self@.data.len() as int, r->Ok_0.0@.len() as int),
                self@.pending,
                self@.pending_first_row,
                self@.encoding,
                self@.compression,
            ) && r->Ok_0.0@.subrange(0, self@.data.len() as int) == self@.data,
            r is Err ==> r->Err_0 is Compression,
    {
        proof {
            reveal(ColumnState::finishes_to);
            reveal(ColumnState::can_finish);
        }
        let mut writer = self;
        match writer.close() {
            Ok(()) => {},
            Err(e) => {
                return Err(e);
            },
        }
        let size = writer.data.len() as u64;
        proof {
            if self@.pending.len() > 0 {
                let page = writer@.data.subrange(self@.data.len() as int, writer@.data.len() as int);
                assert(writer@.data == self@.data + page);
                assert(writer@.data.subrange(0, self@.data.len() as int) =~= self@.data);
            }
        }
        Ok((writer.data, size))
    }

    pub fn num_rows(&self) -> (n: u32)
        ensures
            n == self@.next_row_id,
    {
        self.next_row_id
    }

    /// The bytes of the closed pages.
    pub fn data(&self) -> (d: &Vec<u8>)
        ensures
            d@ == self@.data,
    {
        &self.data
    }

    /// The ordinal index of the closed pages.
    pub fn ordinal_index(&self) -> (idx: &OrdinalIndex)
        ensures
            idx@ == self@.ordinal,
    {
        &self.ordinal_index
    }

    /// The zone map of the closed pages.
    pub fn zone_map(&self) -> (idx: &ZoneMapIndex)
        ensures
            idx@ == self@.zones,
    {
        &self.zone_map
    }

    /// The Bloom filter of the values added.
    pub fn bloom_filter(&self) -> (f: &BloomFilter)
        ensures
            f.bits() == self@.bloom_bits,
            f.num_bits() == self@.bloom_num_bits,
    {
        &self.bloom_filter
    }
}

/// The key prefix of a row: the sort keys of its key columns, one after
/// another.
pub open spec fn key_prefix(key_columns: Seq<ValueView>) -> Seq<u8>
    decreases key_columns.len(),
{
    if key_columns.len() == 0 {
        Seq::<u8>::empty()
    } else {
        key_prefix(key_columns.drop_last()) + key_columns.last().sort_key()
    }
}

/// Builds the short key index of a segment from the key columns of its rows.
pub struct ShortKeyIndexBuilder {
    pub index: ShortKeyIndex,
}

impl ShortKeyIndexBuilder {
    pub fn new() -> (b: Self)
        ensures
            b.index@ == Seq::<(u32, Seq<u8>)>::empty(),
    {
        Self { index: ShortKeyIndex::new() }
    }

    /// Records the key prefix of a row whose id is a multiple of
    /// `SHORT_KEY_INTERVAL`; does nothing for any other row.
    pub fn maybe_add(&mut self, row_id: u32, key_columns: &[Value])
        ensures
            final(self).index@ == (if row_id % SHORT_KEY_INTERVAL == 0 {
                old(self).index@.push((row_id, key_prefix(views(key_columns@))))
            } else {
                old(self).index@
            }),
    {
        let mut prefix: Vec<u8> = Vec::new();
        let mut i: usize = 0;
        let ghost vs = views(key_columns@);
        assert(vs.subrange(0, 0) =~= Seq::<ValueView>::empty());
        while i < key_columns.len()
            invariant
                i <= key_columns.len(),
                vs == views(key_columns@),
                prefix@ == key_prefix(vs.subrange(0, i as int)),
            decreases key_columns.len() - i,
        {
            let key = key_columns[i].to_sort_key();
            push_bytes(&mut prefix, key.as_slice());
            proof {
                let next = vs.subrange(0, i + 1);
                assert(next.drop_last() =~= vs.subrange(0, i as int));
                assert(next.last() == key_columns@[i as int]@);
            }
            i += 1;
        }
        assert(vs.subrange(0, i as int) =~= vs);
        self.index.maybe_add(row_id, prefix);
    }
}

} // verus!
