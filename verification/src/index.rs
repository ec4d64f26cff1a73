//! Indexes of a segment.
//!
//! - [`OrdinalIndex`]: from a row id to the offset of the page that holds it.
//! - [`ZoneMapIndex`]: the smallest and largest key of each page.
//! - [`ShortKeyIndex`]: a key prefix for every 1024th row.
//! - [`BloomFilter`]: probabilistic membership of keys.
//!
//! Every index is serialised little-endian.

use crate::hash::{fnv1a, fnv1a_hash, FNV_OFFSET_BASIS};
use crate::wire::{
    copy_range, lemma_u32_le_round_trip, lemma_u64_le_round_trip, push_bytes, push_u32_le,
    push_u64_le, read_u32_le, read_u64_le, u32_from_le, u32_le, u64_from_le, u64_le,
};
use vstd::prelude::*;
use vstd::wrapping::u64_specs::{wrapping_add, wrapping_mul};

verus! {

/// Whether `a` comes strictly before `b` in lexicographic order of bytes; a
/// proper prefix comes before the longer string.
pub open spec fn lex_lt(a: Seq<u8>, b: Seq<u8>) -> bool
    decreases a.len(),
{
    if b.len() == 0 {
        false
    } else if a.len() == 0 {
        true
    } else if a[0] != b[0] {
        a[0] < b[0]
    } else {
        lex_lt(a.drop_first(), b.drop_first())
    }
}

/// Whether `a` comes before `b` in lexicographic order of bytes, or equals it.
pub open spec fn lex_le(a: Seq<u8>, b: Seq<u8>) -> bool {
    !lex_lt(b, a)
}

/// Whether `a` comes strictly before `b` in lexicographic order.
pub fn bytes_less(a: &[u8], b: &[u8]) -> (r: bool)
    ensures
        r == lex_lt(a@, b@),
{
    let mut i: usize = 0;
    assert(a@.skip(0) =~= a@ && b@.skip(0) =~= b@);
    while i < a.len() && i < b.len()
        invariant
            i <= a.len(),
            i <= b.len(),
            lex_lt(a@, b@) == lex_lt(a@.skip(i as int), b@.skip(i as int)),
        decreases a.len() - i,
    {
        proof {
            let x = a@.skip(i as int);
            let y = b@.skip(i as int);
            assert(x[0] == a@[i as int] && y[0] == b@[i as int]);
            assert(x.drop_first() =~= a@.skip(i + 1));
            assert(y.drop_first() =~= b@.skip(i + 1));
        }
        if a[i] != b[i] {
            return a[i] < b[i];
        }
        i += 1;
    }
    proof {
        assert(a@.skip(i as int).len() == a@.len() - i);
        assert(b@.skip(i as int).len() == b@.len() - i);
    }
    i < b.len()
}

/// Maps row ids to page offsets: one `(first_row_id, page_offset)` entry per
/// page, in the order in which the pages were added.
#[derive(Debug)]
pub struct OrdinalIndex {
    entries: Vec<(u32, u64)>,
}

impl View for OrdinalIndex {
    type V = Seq<(u32, u64)>;

    closed spec fn view(&self) -> Seq<(u32, u64)> {
        self.entries@
    }
}

impl OrdinalIndex {
    /// Whether the first row ids of a list of entries never decrease.
    pub open spec fn sorted(entries: Seq<(u32, u64)>) -> bool {
        forall|i: int, j: int| 0 <= i <= j < entries.len() ==> entries[i].0 <= entries[j].0
    }

    /// The position of the last entry whose first row id is at most
    /// `row_id`, or zero where there is none.
    pub open spec fn floor_index(entries: Seq<(u32, u64)>, row_id: u32) -> int
        decreases entries.len(),
    {
        if entries.len() <= 1 {
            0
        } else if entries.last().0 <= row_id {
            entries.len() - 1
        } else {
            Self::floor_index(entries.drop_last(), row_id)
        }
    }

    /// The layout of a list of entries: the number of entries as a 32-bit
    /// integer, then for each its first row id (32 bits) and its offset
    /// (64 bits).
    pub open spec fn serialized(entries: Seq<(u32, u64)>) -> Seq<u8> {
        u32_le(entries.len() as u32) + Self::entries_bytes(entries)
    }

    /// The layout of the entries alone.
    pub open spec fn entries_bytes(entries: Seq<(u32, u64)>) -> Seq<u8>
        decreases entries.len(),
    {
        if entries.len() == 0 {
            Seq::<u8>::empty()
        } else {
            Self::entries_bytes(entries.drop_last()) + u32_le(entries.last().0) + u64_le(
                entries.last().1,
            )
        }
    }

    /// How many entries are read from `data_len` bytes that announce `n`
    /// entries: those that are there in full.
    pub open spec fn parsed_len(data_len: nat, n: nat) -> nat {
        if data_len < 4 {
            0
        } else if n <= (data_len - 4) / 12 {
            n
        } else {
            ((data_len - 4) / 12) as nat
        }
    }

    /// The entries read from `data`; none where the data cannot hold the
    /// number of entries.
    pub open spec fn parsed(data: Seq<u8>) -> Seq<(u32, u64)> {
        Seq::new(
            Self::parsed_len(data.len(), u32_from_le(data.subrange(0, 4)) as nat),
            |i: int|
                (
                    u32_from_le(data.subrange(4 + 12 * i, 4 + 12 * i + 4)),
                    u64_from_le(data.subrange(4 + 12 * i + 4, 4 + 12 * i + 12)),
                ),
        )
    }

    /// A list of entries with `base` added to every offset.
    pub open spec fn shifted(entries: Seq<(u32, u64)>, base: u64) -> Seq<(u32, u64)> {
        entries.map_values(|e: (u32, u64)| (e.0, (e.1 + base) as u64))
    }

    /// An index without entries.
    pub fn new() -> (idx: Self)
        ensures
            idx@ == Seq::<(u32, u64)>::empty(),
    {
        Self { entries: Vec::new() }
    }

    /// The index with `base` added to every offset: the offsets of pages
    /// within a column become offsets within a file where the column starts
    /// at `base`.
    pub fn rebased(&self, base: u64) -> (idx: Self)
        requires
            forall|k: int| 0 <= k < self@.len() ==> (#[trigger] self@[k]).1 + base <= u64::MAX,
        ensures
            idx@ == Self::shifted(self@, base),
    {
        let mut entries: Vec<(u32, u64)> = Vec::new();
        let mut i: usize = 0;
        while i < self.entries.len()
            invariant
                i <= self.entries.len(),
                forall|k: int| 0 <= k < self@.len() ==> (#[trigger] self@[k]).1 + base <= u64::MAX,
                entries@.len() == i,
                forall|k: int|
                    0 <= k < i ==> #[trigger] entries@[k] == (self@[k].0, (self@[k].1 + base) as u64),
            decreases self.entries.len() - i,
        {
            let (rid, off) = self.entries[i];
            assert(self@[i as int].1 + base <= u64::MAX);
            entries.push((rid, off + base));
            i += 1;
        }
        assert(entries@ =~= Self::shifted(self@, base));
        Self { entries }
    }

    /// Appends the entry of a page.
    pub fn add(&mut self, first_row_id: u32, page_offset: u64)
        ensures
            final(self)@ == old(self)@.push((first_row_id, page_offset)),
    {
        self.entries.push((first_row_id, page_offset));
    }

    /// The offset of the page that holds `row_id`: that of the last entry
    /// whose first row id is at most `row_id`, or of the first entry where
    /// every first row id is larger. `None` on an empty index.
    ///
    /// The search is by bisection, so the result is stated for entries whose
    /// first row ids never decrease.
    pub fn find_page_offset(&self, row_id: u32) -> (r: Option<u64>)
        ensures
            r is Some <==> self@.len() > 0,
            r is Some ==> exists|k: int| 0 <= k < self@.len() && r == Some(self@[k].1),
            Self::sorted(self@) && self@.len() > 0 ==> r == Some(
                self@[Self::floor_index(self@, row_id)].1,
            ),
    {
        if self.entries.len() == 0 {
            return None;
        }
        let mut lo: usize = 0;
        let mut hi: usize = self.entries.len();
        while lo < hi
            invariant
                lo <= hi <= self.entries.len(),
                Self::sorted(self@) ==> forall|i: int| 0 <= i < lo ==> self@[i].0 <= row_id,
                Self::sorted(self@) ==> forall|i: int|
                    hi <= i < self@.len() ==> self@[i].0 > row_id,
            decreases hi - lo,
        {
            let mid = lo + (hi - lo) / 2;
            if self.entries[mid].0 <= row_id {
                lo = mid + 1;
            } else {
                hi = mid;
            }
        }
        let idx = if lo == 0 {
            0
        } else {
            lo - 1
        };
        proof {
            if Self::sorted(self@) {
                Self::lemma_floor_index(self@, row_id, lo as int);
            }
        }
        Some(self.entries[idx].1)
    }

    proof fn lemma_floor_index(entries: Seq<(u32, u64)>, row_id: u32, p: int)
        requires
            0 <= p <= entries.len(),
            entries.len() > 0,
            forall|i: int| 0 <= i < p ==> entries[i].0 <= row_id,
            forall|i: int| p <= i < entries.len() ==> entries[i].0 > row_id,
        ensures
            Self::floor_index(entries, row_id) == (if p == 0 {
                0
            } else {
                p - 1
            }),
        decreases entries.len(),
    {
        if entries.len() > 1 && !(entries.last().0 <= row_id) {
            let front = entries.drop_last();
            assert forall|i: int| 0 <= i < p implies front[i].0 <= row_id by {
                assert(front[i] == entries[i]);
            }
            Self::lemma_floor_index(front, row_id, p);
        }
    }

    pub fn page_count(&self) -> (n: usize)
        ensures
            n == self@.len(),
    {
        self.entries.len()
    }

    /// The entry of the page at position `k`.
    pub fn entry(&self, k: usize) -> (e: (u32, u64))
        requires
            k < self@.len(),
        ensures
            e == self@[k as int],
    {
        self.entries[k]
    }

    pub fn serialize(&self) -> (out: Vec<u8>)
        ensures
            out@ == Self::serialized(self@),
    {
        let mut out: Vec<u8> = Vec::new();
        push_u32_le(&mut out, #[verifier::truncate] (self.entries.len() as u32));
        let ghost head = out@;
        let mut i: usize = 0;
        assert(self@.subrange(0, 0) =~= Seq::<(u32, u64)>::empty());
        assert(out@ =~= head + Self::entries_bytes(self@.subrange(0, 0)));
        while i < self.entries.len()
            invariant
                i <= self.entries.len(),
                out@ == head + Self::entries_bytes(self@.subrange(0, i as int)),
            decreases self.entries.len() - i,
        {
            let (rid, off) = self.entries[i];
            push_u32_le(&mut out, rid);
            push_u64_le(&mut out, off);
            proof {
                let next = self@.subrange(0, i + 1);
                assert(next.drop_last() =~= self@.subrange(0, i as int));
                assert(next.last() == self@[i as int]);
                assert(out@ =~= head + Self::entries_bytes(next));
            }
            i += 1;
        }
        assert(self@.subrange(0, i as int) =~= self@);
        out
    }

    pub fn deserialize(data: &[u8]) -> (idx: Self)
        ensures
            idx@ == Self::parsed(data@),
    {
        let mut entries: Vec<(u32, u64)> = Vec::new();
        if data.len() < 4 {
            assert(entries@ =~= Self::parsed(data@));
            return Self { entries };
        }
        let n = read_u32_le(data, 0);
        let mut i: u32 = 0;
        let mut b: usize = 4;
        while i < n && data.len() - b >= 12
            invariant
                i <= n,
                b == 4 + 12 * i,
                b <= data.len(),
                entries@.len() == i,
                forall|k: int|
                    0 <= k < i ==> #[trigger] entries@[k] == (
                        u32_from_le(data@.subrange(4 + 12 * k, 4 + 12 * k + 4)),
                        u64_from_le(data@.subrange(4 + 12 * k + 4, 4 + 12 * k + 12)),
                    ),
            decreases n - i,
        {
            let rid = read_u32_le(data, b);
            let off = read_u64_le(data, b + 4);
            entries.push((rid, off));
            b += 12;
            i += 1;
        }
        assert(entries@ =~= Self::parsed(data@));
        Self { entries }
    }

    proof fn lemma_entries_layout(entries: Seq<(u32, u64)>)
        ensures
            Self::entries_bytes(entries).len() == 12 * entries.len(),
            forall|i: int|
                0 <= i < entries.len() ==> #[trigger] Self::entries_bytes(entries).subrange(
                    12 * i,
                    12 * i + 12,
                ) == u32_le(entries[i].0) + u64_le(entries[i].1),
        decreases entries.len(),
    {
        if entries.len() > 0 {
            let front = entries.drop_last();
            Self::lemma_entries_layout(front);
            let e = Self::entries_bytes(entries);
            let p = Self::entries_bytes(front);
            let last = u32_le(entries.last().0) + u64_le(entries.last().1);
            assert(e =~= p + last);
            assert forall|i: int| 0 <= i < entries.len() implies #[trigger] e.subrange(
                12 * i,
                12 * i + 12,
            ) == u32_le(entries[i].0) + u64_le(entries[i].1) by {
                if i < entries.len() - 1 {
                    assert(e.subrange(12 * i, 12 * i + 12) =~= p.subrange(12 * i, 12 * i + 12));
                    assert(front[i] == entries[i]);
                } else {
                    assert(e.subrange(12 * i, 12 * i + 12) =~= last);
                }
            }
        }
    }

    /// An index of at most `u32::MAX` entries is read back from its layout
    /// as it was written.
    pub proof fn lemma_round_trip(entries: Seq<(u32, u64)>, data: Seq<u8>)
        requires
            entries.len() <= u32::MAX,
            data == Self::serialized(entries),
        ensures
            Self::parsed(data) == entries,
            data.len() == 4 + 12 * entries.len(),
    {
        Self::lemma_entries_layout(entries);
        lemma_u32_le_round_trip(entries.len() as u32);
        let eb = Self::entries_bytes(entries);
        assert(data.subrange(0, 4) =~= u32_le(entries.len() as u32));
        let back = Self::parsed(data);
        assert(back.len() == entries.len());
        assert forall|i: int| 0 <= i < entries.len() implies back[i] == entries[i] by {
            let chunk = eb.subrange(12 * i, 12 * i + 12);
            assert(chunk == u32_le(entries[i].0) + u64_le(entries[i].1));
            assert(data.subrange(4 + 12 * i, 4 + 12 * i + 4) =~= chunk.subrange(0, 4));
            assert(chunk.subrange(0, 4) =~= u32_le(entries[i].0));
            assert(data.subrange(4 + 12 * i + 4, 4 + 12 * i + 12) =~= chunk.subrange(4, 12));
            assert(chunk.subrange(4, 12) =~= u64_le(entries[i].1));
            lemma_u32_le_round_trip(entries[i].0);
            lemma_u64_le_round_trip(entries[i].1);
        }
        assert(back =~= entries);
    }
}

impl Default for OrdinalIndex {
    fn default() -> (idx: Self)
        ensures
            idx@ == Seq::<(u32, u64)>::empty(),
    {
        Self::new()
    }
}

impl Clone for OrdinalIndex {
    fn clone(&self) -> (idx: Self)
        ensures
            idx@ == self@,
    {
        let mut entries: Vec<(u32, u64)> = Vec::new();
        let mut i: usize = 0;
        while i < self.entries.len()
            invariant
                i <= self.entries.len(),
                entries@ == self.entries@.subrange(0, i as int),
            decreases self.entries.len() - i,
        {
            entries.push(self.entries[i]);
            i += 1;
            assert(entries@ =~= self.entries@.subrange(0, i as int));
        }
        assert(self.entries@.subrange(0, i as int) =~= self.entries@);
        Self { entries }
    }
}

/// The key range of one page.
#[derive(Debug)]
pub struct ZoneMapEntry {
    pub page_idx: u32,
    pub min: Vec<u8>,
    pub max: Vec<u8>,
    pub has_null: bool,
}

/// The mathematical content of a [`ZoneMapEntry`].
pub struct Zone {
    pub page_idx: u32,
    pub min: Seq<u8>,
    pub max: Seq<u8>,
    pub has_null: bool,
}

impl View for ZoneMapEntry {
    type V = Zone;

    open spec fn view(&self) -> Zone {
        Zone { page_idx: self.page_idx, min: self.min@, max: self.max@, has_null: self.has_null }
    }
}

impl Zone {
    /// Whether the key range of the page meets the probe range: the smallest
    /// key is at most `probe_max` and the largest is at least `probe_min`.
    pub open spec fn overlaps(self, probe_min: Seq<u8>, probe_max: Seq<u8>) -> bool {
        lex_le(self.min, probe_max) && lex_le(probe_min, self.max)
    }

    /// The layout of the entry: page index, null flag, then the smallest and
    /// the largest key, each with a 32-bit length.
    pub open spec fn bytes(self) -> Seq<u8> {
        u32_le(self.page_idx) + seq![if self.has_null { 1u8 } else { 0u8 }] + u32_le(
            self.min.len() as u32,
        ) + self.min + u32_le(self.max.len() as u32) + self.max
    }
}

/// The key range of every page of a column.
#[derive(Debug)]
pub struct ZoneMapIndex {
    entries: Vec<ZoneMapEntry>,
}

impl View for ZoneMapIndex {
    type V = Seq<Zone>;

    closed spec fn view(&self) -> Seq<Zone> {
        self.entries@.map_values(|e: ZoneMapEntry| e@)
    }
}

impl ZoneMapIndex {
    /// The page indexes of the entries that meet the probe range, in order.
    pub open spec fn selected(zones: Seq<Zone>, probe_min: Seq<u8>, probe_max: Seq<u8>) -> Seq<u32>
        decreases zones.len(),
    {
        if zones.len() == 0 {
            Seq::<u32>::empty()
        } else if zones.last().overlaps(probe_min, probe_max) {
            Self::selected(zones.drop_last(), probe_min, probe_max).push(zones.last().page_idx)
        } else {
            Self::selected(zones.drop_last(), probe_min, probe_max)
        }
    }

    /// The layout of the entries alone.
    pub open spec fn entries_bytes(zones: Seq<Zone>) -> Seq<u8>
        decreases zones.len(),
    {
        if zones.len() == 0 {
            Seq::<u8>::empty()
        } else {
            Self::entries_bytes(zones.drop_last()) + zones.last().bytes()
        }
    }

    /// The layout of an index: the number of entries as a 32-bit integer,
    /// then the entries.
    pub open spec fn serialized(zones: Seq<Zone>) -> Seq<u8> {
        u32_le(zones.len() as u32) + Self::entries_bytes(zones)
    }

    /// An index without entries.
    pub fn new() -> (idx: Self)
        ensures
            idx@ == Seq::<Zone>::empty(),
    {
        let idx = Self { entries: Vec::new() };
        assert(idx@ =~= Seq::<Zone>::empty());
        idx
    }

    /// Appends the key range of a page.
    pub fn add_page(&mut self, page_idx: u32, min: Vec<u8>, max: Vec<u8>, has_null: bool)
        ensures
            final(self)@ == old(self)@.push(Zone { page_idx, min: min@, max: max@, has_null }),
    {
        self.entries.push(ZoneMapEntry { page_idx, min, max, has_null });
        assert(self@ =~= old(self)@.push(Zone { page_idx, min: min@, max: max@, has_null }));
    }

    /// The indexes of the pages whose key range meets `[probe_min, probe_max]`.
    pub fn filter(&self, probe_min: &[u8], probe_max: &[u8]) -> (pages: Vec<u32>)
        ensures
            pages@ == Self::selected(self@, probe_min@, probe_max@),
    {
        let mut pages: Vec<u32> = Vec::new();
        let mut i: usize = 0;
        assert(self@.subrange(0, 0) =~= Seq::<Zone>::empty());
        while i < self.entries.len()
            invariant
                i <= self.entries.len(),
                pages@ == Self::selected(self@.subrange(0, i as int), probe_min@, probe_max@),
            decreases self.entries.len() - i,
        {
            let e = &self.entries[i];
            proof {
                let next = self@.subrange(0, i + 1);
                assert(next.drop_last() =~= self@.subrange(0, i as int));
                assert(next.last() == e@);
            }
            if !bytes_less(probe_max, e.min.as_slice()) && !bytes_less(e.max.as_slice(), probe_min) {
                pages.push(e.page_idx);
            }
            i += 1;
        }
        assert(self@.subrange(0, i as int) =~= self@);
        pages
    }

    pub fn serialize(&self) -> (out: Vec<u8>)
        ensures
            out@ == Self::serialized(self@),
    {
        let mut out: Vec<u8> = Vec::new();
        push_u32_le(&mut out, #[verifier::truncate] (self.entries.len() as u32));
        let ghost head = out@;
        let mut i: usize = 0;
        assert(self@.subrange(0, 0) =~= Seq::<Zone>::empty());
        assert(out@ =~= head + Self::entries_bytes(self@.subrange(0, 0)));
        while i < self.entries.len()
            invariant
                i <= self.entries.len(),
                out@ == head + Self::entries_bytes(self@.subrange(0, i as int)),
            decreases self.entries.len() - i,
        {
            let e = &self.entries[i];
            let ghost start = out@;
            push_u32_le(&mut out, e.page_idx);
            out.push(if e.has_null { 1u8 } else { 0u8 });
            push_u32_le(&mut out, #[verifier::truncate] (e.min.len() as u32));
            push_bytes(&mut out, e.min.as_slice());
            push_u32_le(&mut out, #[verifier::truncate] (e.max.len() as u32));
            push_bytes(&mut out, e.max.as_slice());
            proof {
                let next = self@.subrange(0, i + 1);
                assert(next.drop_last() =~= self@.subrange(0, i as int));
                assert(next.last() == e@);
                assert(out@ =~= start + e@.bytes());
                assert(out@ =~= head + Self::entries_bytes(next));
            }
            i += 1;
        }
        assert(self@.subrange(0, i as int) =~= self@);
        out
    }
}

impl Default for ZoneMapIndex {
    fn default() -> (idx: Self)
        ensures
            idx@ == Seq::<Zone>::empty(),
    {
        Self::new()
    }
}

/// Every how many rows the short key index takes a sample.
pub const SHORT_KEY_INTERVAL: u32 = 1024;

/// Samples of the key prefix of a segment: `(row_id, key_prefix)` for every
/// row whose id is a multiple of `SHORT_KEY_INTERVAL`.
#[derive(Debug)]
pub struct ShortKeyIndex {
    entries: Vec<(u32, Vec<u8>)>,
}

impl View for ShortKeyIndex {
    type V = Seq<(u32, Seq<u8>)>;

    closed spec fn view(&self) -> Seq<(u32, Seq<u8>)> {
        self.entries@.map_values(|e: (u32, Vec<u8>)| (e.0, e.1@))
    }
}

impl ShortKeyIndex {
    /// How many leading samples have a prefix strictly below `probe`.
    pub open spec fn leading_below(samples: Seq<(u32, Seq<u8>)>, probe: Seq<u8>) -> nat
        decreases samples.len(),
    {
        if samples.len() == 0 || !lex_lt(samples[0].1, probe) {
            0
        } else {
            1 + Self::leading_below(samples.drop_first(), probe)
        }
    }

    /// The row id of the last of the leading samples whose prefixes are all
    /// strictly below `probe`, or zero where the first sample is not below
    /// it. With samples in ascending order of prefix this is the largest row
    /// id whose prefix is below `probe`.
    pub open spec fn bound(samples: Seq<(u32, Seq<u8>)>, probe: Seq<u8>) -> u32 {
        if Self::leading_below(samples, probe) == 0 {
            0
        } else {
            samples[Self::leading_below(samples, probe) - 1].0
        }
    }

    /// The layout of the samples alone: for each, the row id, then the
    /// prefix with a 32-bit length.
    pub open spec fn entries_bytes(samples: Seq<(u32, Seq<u8>)>) -> Seq<u8>
        decreases samples.len(),
    {
        if samples.len() == 0 {
            Seq::<u8>::empty()
        } else {
            Self::entries_bytes(samples.drop_last()) + u32_le(samples.last().0) + u32_le(
                samples.last().1.len() as u32,
            ) + samples.last().1
        }
    }

    /// The layout of an index: the number of samples as a 32-bit integer,
    /// then the samples.
    pub open spec fn serialized(samples: Seq<(u32, Seq<u8>)>) -> Seq<u8> {
        u32_le(samples.len() as u32) + Self::entries_bytes(samples)
    }

    /// An index without samples.
    pub fn new() -> (idx: Self)
        ensures
            idx@ == Seq::<(u32, Seq<u8>)>::empty(),
    {
        let idx = Self { entries: Vec::new() };
        assert(idx@ =~= Seq::<(u32, Seq<u8>)>::empty());
        idx
    }

    /// Records the prefix of a row whose id is a multiple of
    /// `SHORT_KEY_INTERVAL`; does nothing for any other row.
    pub fn maybe_add(&mut self, row_id: u32, key_prefix: Vec<u8>)
        ensures
            final(self)@ == (if row_id % SHORT_KEY_INTERVAL == 0 {
                old(self)@.push((row_id, key_prefix@))
            } else {
                old(self)@
            }),
    {
        if row_id % SHORT_KEY_INTERVAL == 0 {
            self.entries.push((row_id, key_prefix));
            assert(self@ =~= old(self)@.push((row_id, key_prefix@)));
        }
    }

    /// The row id from which a scan for `probe` starts.
    pub fn lower_bound(&self, probe: &[u8]) -> (row_id: u32)
        ensures
            row_id == Self::bound(self@, probe@),
    {
        let mut i: usize = 0;
        assert(self@.skip(0) =~= self@);
        while i < self.entries.len() && bytes_less(self.entries[i].1.as_slice(), probe)
            invariant
                i <= self.entries.len(),
                Self::leading_below(self@, probe@) == i + Self::leading_below(
                    self@.skip(i as int),
                    probe@,
                ),
            decreases self.entries.len() - i,
        {
            proof {
                let rest = self@.skip(i as int);
                assert(rest[0] == self@[i as int]);
                assert(rest.drop_first() =~= self@.skip(i + 1));
            }
            i += 1;
        }
        proof {
            let rest = self@.skip(i as int);
            if i < self.entries.len() {
                assert(rest[0] == self@[i as int]);
            }
        }
        if i == 0 {
            0
        } else {
            self.entries[i - 1].0
        }
    }

    pub fn serialize(&self) -> (out: Vec<u8>)
        ensures
            out@ == Self::serialized(self@),
    {
        let mut out: Vec<u8> = Vec::new();
        push_u32_le(&mut out, #[verifier::truncate] (self.entries.len() as u32));
        let ghost head = out@;
        let mut i: usize = 0;
        assert(self@.subrange(0, 0) =~= Seq::<(u32, Seq<u8>)>::empty());
        assert(out@ =~= head + Self::entries_bytes(self@.subrange(0, 0)));
        while i < self.entries.len()
            invariant
                i <= self.entries.len(),
                out@ == head + Self::entries_bytes(self@.subrange(0, i as int)),
            decreases self.entries.len() - i,
        {
            let ghost start = out@;
            push_u32_le(&mut out, self.entries[i].0);
            push_u32_le(&mut out, #[verifier::truncate] (self.entries[i].1.len() as u32));
            push_bytes(&mut out, self.entries[i].1.as_slice());
            proof {
                let next = self@.subrange(0, i + 1);
                assert(next.drop_last() =~= self@.subrange(0, i as int));
                assert(next.last() == self@[i as int]);
                assert(out@ =~= head + Self::entries_bytes(next));
            }
            i += 1;
        }
        assert(self@.subrange(0, i as int) =~= self@);
        out
    }
}

impl Default for ShortKeyIndex {
    fn default() -> (idx: Self)
        ensures
            idx@ == Seq::<(u32, Seq<u8>)>::empty(),
    {
        Self::new()
    }
}

/// The second starting value of the Bloom filter's hashes.
pub const BLOOM_SECOND_SEED: u64 = 0x517c_c1b7_2722_0a95;

/// The number of bits a Bloom filter sets for each value.
pub const BLOOM_PROBES: u64 = 7;

/// The `i`-th probe of a value, before it is reduced to the size of a
/// filter: both hashes are mixed, `i` times the first hash is added, and the
/// sum is reduced modulo the first hash.
pub open spec fn bloom_probe(value: Seq<u8>, i: u64) -> usize {
    let h1 = fnv1a(FNV_OFFSET_BASIS, value);
    let h2 = fnv1a(BLOOM_SECOND_SEED, value);
    let mixed = wrapping_add(h1, (h2 >> 32) ^ h2);
    (wrapping_add(mixed, wrapping_mul(i, h1)) % (if h1 == 0 {
        1u64
    } else {
        h1
    })) as usize
}

/// The mask of a bit within its byte.
pub open spec fn bit_mask(p: int) -> u8 {
    1u8 << ((p % 8) as u8)
}

/// Whether bit `p` of a bit array is set.
pub open spec fn bit_set(bits: Seq<u8>, p: int) -> bool {
    bits[p / 8] & bit_mask(p) != 0
}

/// A bit array with bit `p` set.
pub open spec fn with_bit(bits: Seq<u8>, p: int) -> Seq<u8> {
    bits.update(p / 8, bits[p / 8] | bit_mask(p))
}

/// A bit array of `num_bits` bits with the first `k` probes of a value set.
pub open spec fn with_probes(bits: Seq<u8>, num_bits: usize, value: Seq<u8>, k: nat) -> Seq<u8>
    decreases k,
{
    if k == 0 {
        bits
    } else {
        with_bit(
            with_probes(bits, num_bits, value, (k - 1) as nat),
            (bloom_probe(value, (k - 1) as u64) % num_bits) as int,
        )
    }
}

/// Whether every probe of a value is set in a bit array of `num_bits` bits.
pub open spec fn all_probes_set(bits: Seq<u8>, num_bits: usize, value: Seq<u8>) -> bool {
    forall|i: u64| 0 <= i < BLOOM_PROBES ==> bit_set(bits, (#[trigger] bloom_probe(value, i)
        % num_bits) as int)
}

/// A bit array after a sequence of values was added, one after another.
pub open spec fn with_values(bits: Seq<u8>, num_bits: usize, values: Seq<Seq<u8>>) -> Seq<u8>
    decreases values.len(),
{
    if values.len() == 0 {
        bits
    } else {
        with_probes(
            with_values(bits, num_bits, values.drop_last()),
            num_bits,
            values.last(),
            BLOOM_PROBES as nat,
        )
    }
}

proof fn lemma_with_bit(bits: Seq<u8>, p: int, q: int)
    requires
        0 <= p < 8 * bits.len(),
        0 <= q < 8 * bits.len(),
    ensures
        with_bit(bits, p).len() == bits.len(),
        bit_set(with_bit(bits, p), p),
        bit_set(bits, q) ==> bit_set(with_bit(bits, p), q),
{
    let b = bits[p / 8];
    let s = (p % 8) as u8;
    let t = (q % 8) as u8;
    assert((b | (1u8 << s)) & (1u8 << s) != 0) by (bit_vector)
        requires
            s < 8,
    ;
    if p / 8 == q / 8 {
        assert(b & (1u8 << t) != 0 ==> (b | (1u8 << s)) & (1u8 << t) != 0) by (bit_vector);
    }
}

proof fn lemma_with_probes(
    bits: Seq<u8>,
    num_bits: usize,
    value: Seq<u8>,
    k: nat,
    q: int,
)
    requires
        0 < num_bits <= 8 * bits.len(),
        0 <= q < 8 * bits.len(),
        k <= BLOOM_PROBES,
    ensures
        with_probes(bits, num_bits, value, k).len() == bits.len(),
        bit_set(bits, q) ==> bit_set(with_probes(bits, num_bits, value, k), q),
        forall|i: u64|
            0 <= i < k ==> bit_set(
                with_probes(bits, num_bits, value, k),
                (#[trigger] bloom_probe(value, i) % num_bits) as int,
            ),
    decreases k,
{
    if k > 0 {
        let before = with_probes(bits, num_bits, value, (k - 1) as nat);
        let p = (bloom_probe(value, (k - 1) as u64) % num_bits) as int;
        lemma_with_probes(bits, num_bits, value, (k - 1) as nat, q);
        lemma_with_bit(before, p, q);
        assert forall|i: u64| 0 <= i < k implies bit_set(
            with_probes(bits, num_bits, value, k),
            (#[trigger] bloom_probe(value, i) % num_bits) as int,
        ) by {
            let pi = (bloom_probe(value, i) % num_bits) as int;
            lemma_with_bit(before, p, pi);
            if i < k - 1 {
                lemma_with_probes(bits, num_bits, value, (k - 1) as nat, pi);
            }
        }
    }
}

/// Adding a value sets all of its probes and clears none that was set: the
/// value is found afterwards, and so is every value that was found before.
pub proof fn lemma_add_keeps_members(
    bits: Seq<u8>,
    num_bits: usize,
    value: Seq<u8>,
    other: Seq<u8>,
)
    requires
        0 < num_bits <= 8 * bits.len(),
    ensures
        with_probes(bits, num_bits, value, BLOOM_PROBES as nat).len() == bits.len(),
        all_probes_set(with_probes(bits, num_bits, value, BLOOM_PROBES as nat), num_bits, value),
        all_probes_set(bits, num_bits, other) ==> all_probes_set(
            with_probes(bits, num_bits, value, BLOOM_PROBES as nat),
            num_bits,
            other,
        ),
{
    lemma_with_probes(bits, num_bits, value, BLOOM_PROBES as nat, 0);
    if all_probes_set(bits, num_bits, other) {
        assert forall|i: u64| 0 <= i < BLOOM_PROBES implies bit_set(
            with_probes(bits, num_bits, value, BLOOM_PROBES as nat),
            (#[trigger] bloom_probe(other, i) % num_bits) as int,
        ) by {
            lemma_with_probes(
                bits,
                num_bits,
                value,
                BLOOM_PROBES as nat,
                (bloom_probe(other, i) % num_bits) as int,
            );
        }
    }
}

/// Every value that was added to a filter is found in it, whatever was added
/// before or after.
pub proof fn lemma_added_values_are_found(
    bits: Seq<u8>,
    num_bits: usize,
    values: Seq<Seq<u8>>,
    i: int,
)
    requires
        0 < num_bits <= 8 * bits.len(),
        0 <= i < values.len(),
    ensures
        with_values(bits, num_bits, values).len() == bits.len(),
        all_probes_set(with_values(bits, num_bits, values), num_bits, values[i]),
    decreases values.len(),
{
    let front = values.drop_last();
    lemma_values_keep_length(bits, num_bits, front);
    let before = with_values(bits, num_bits, front);
    lemma_add_keeps_members(before, num_bits, values.last(), values[i]);
    if i < values.len() - 1 {
        lemma_added_values_are_found(bits, num_bits, front, i);
        assert(front[i] == values[i]);
    }
}

proof fn lemma_values_keep_length(bits: Seq<u8>, num_bits: usize, values: Seq<Seq<u8>>)
    requires
        0 < num_bits <= 8 * bits.len(),
    ensures
        with_values(bits, num_bits, values).len() == bits.len(),
    decreases values.len(),
{
    if values.len() > 0 {
        lemma_values_keep_length(bits, num_bits, values.drop_last());
        lemma_add_keeps_members(
            with_values(bits, num_bits, values.drop_last()),
            num_bits,
            values.last(),
            values.last(),
        );
    }
}

/// A Bloom filter over byte strings with seven probes per value.
#[derive(Debug)]
pub struct BloomFilter {
    bits: Vec<u8>,
    num_bits: usize,
}

impl BloomFilter {
    /// The bit array.
    pub closed spec fn bits(&self) -> Seq<u8> {
        self.bits@
    }

    /// The number of bits that probes are reduced to.
    pub closed spec fn num_bits(&self) -> usize {
        self.num_bits
    }

    /// Whether the filter can be probed: it has at least one bit, and the
    /// bit array holds all of its bits.
    pub open spec fn wf(&self) -> bool {
        0 < self.num_bits() <= 8 * self.bits().len()
    }

    /// Whether every probe of `value` is set.
    pub open spec fn holds(&self, value: Seq<u8>) -> bool {
        all_probes_set(self.bits(), self.num_bits(), value)
    }

    /// The layout of a filter: the number of bits as a 32-bit integer, then
    /// the bit array.
    pub open spec fn layout(num_bits: usize, bits: Seq<u8>) -> Seq<u8> {
        u32_le(num_bits as u32) + bits
    }

    /// The layout of this filter.
    pub open spec fn serialized(&self) -> Seq<u8> {
        Self::layout(self.num_bits(), self.bits())
    }

    /// A filter for `expected_ndv` distinct values: ten bits for each, and
    /// no fewer than 64, all clear.
    pub fn new(expected_ndv: usize) -> (f: Self)
        requires
            expected_ndv * 10 + 7 <= usize::MAX,
        ensures
            f.wf(),
            f.num_bits() == (if expected_ndv * 10 >= 64 {
                expected_ndv * 10
            } else {
                64
            }),
            f.bits().len() == (f.num_bits() + 7) / 8,
            forall|i: int| 0 <= i < f.bits().len() ==> f.bits()[i] == 0,
    {
        let scaled: usize = expected_ndv * 10;
        let num_bits: usize = if scaled >= 64 {
            scaled
        } else {
            64
        };
        let num_bytes: usize = (num_bits + 7) / 8;
        let mut bits: Vec<u8> = Vec::new();
        let mut i: usize = 0;
        while i < num_bytes
            invariant
                i <= num_bytes,
                bits@.len() == i,
                forall|k: int| 0 <= k < i ==> bits@[k] == 0,
            decreases num_bytes - i,
        {
            bits.push(0u8);
            i += 1;
        }
        Self { bits, num_bits }
    }

    fn probe_bits(value: &[u8]) -> (probes: Vec<usize>)
        ensures
            probes@.len() == BLOOM_PROBES,
            forall|i: u64| 0 <= i < BLOOM_PROBES ==> probes@[i as int] == #[trigger] bloom_probe(
                value@,
                i,
            ),
    {
        let h1 = fnv1a_hash(FNV_OFFSET_BASIS, value);
        let h2 = fnv1a_hash(BLOOM_SECOND_SEED, value);
        let mixed = h1.wrapping_add((h2 >> 32) ^ h2);
        let modulus: u64 = if h1 == 0 {
            1
        } else {
            h1
        };
        let mut probes: Vec<usize> = Vec::new();
        let mut i: u64 = 0;
        while i < BLOOM_PROBES
            invariant
                i <= BLOOM_PROBES,
                probes@.len() == i,
                h1 == fnv1a(FNV_OFFSET_BASIS, value@),
                h2 == fnv1a(BLOOM_SECOND_SEED, value@),
                mixed == wrapping_add(h1, (h2 >> 32) ^ h2),
                modulus == (if h1 == 0 {
                    1u64
                } else {
                    h1
                }),
                forall|k: u64| 0 <= k < i ==> probes@[k as int] == #[trigger] bloom_probe(value@, k),
            decreases BLOOM_PROBES - i,
        {
            probes.push(
                #[verifier::truncate]
                ((mixed.wrapping_add(i.wrapping_mul(h1)) % modulus) as usize),
            );
            i += 1;
        }
        probes
    }

    /// Sets the seven probes of `value`.
    pub fn add(&mut self, value: &[u8])
        requires
            old(self).wf(),
        ensures
            final(self).wf(),
            final(self).num_bits() == old(self).num_bits(),
            final(self).bits() == with_probes(
                old(self).bits(),
                old(self).num_bits(),
                value@,
                BLOOM_PROBES as nat,
            ),
            final(self).holds(value@),
            forall|other: Seq<u8>| old(self).holds(other) ==> final(self).holds(other),
    {
        let probes = Self::probe_bits(value);
        let nb = self.num_bits;
        let mut i: usize = 0;
        while i < 7
            invariant
                i <= 7,
                nb == self.num_bits,
                self.num_bits == old(self).num_bits,
                0 < nb <= 8 * old(self).bits@.len(),
                probes@.len() == BLOOM_PROBES,
                forall|k: u64|
                    0 <= k < BLOOM_PROBES ==> probes@[k as int] == #[trigger] bloom_probe(value@, k),
                self.bits@ == with_probes(old(self).bits@, nb, value@, i as nat),
                self.bits@.len() == old(self).bits@.len(),
            decreases 7 - i,
        {
            let bit: usize = probes[i] % nb;
            let shift: u8 = (bit % 8) as u8;
            let byte: u8 = self.bits[bit / 8];
            proof {
                assert(probes@[i as int] == bloom_probe(value@, i as u64));
                lemma_with_bit(self.bits@, bit as int, bit as int);
            }
            self.bits.set(bit / 8, byte | (1u8 << shift));
            i += 1;
        }
        proof {
            assert forall|other: Seq<u8>| old(self).holds(other) implies self.holds(other) by {
                lemma_add_keeps_members(old(self).bits@, nb, value@, other);
            }
            lemma_add_keeps_members(old(self).bits@, nb, value@, value@);
        }
    }

    /// Whether `value` may have been added: `false` means that it was not.
    pub fn may_contain(&self, value: &[u8]) -> (r: bool)
        requires
            self.wf(),
        ensures
            r == self.holds(value@),
    {
        let probes = Self::probe_bits(value);
        let mut i: usize = 0;
        while i < 7
            invariant
                i <= 7,
                self.wf(),
                probes@.len() == BLOOM_PROBES,
                forall|k: u64|
                    0 <= k < BLOOM_PROBES ==> probes@[k as int] == #[trigger] bloom_probe(value@, k),
                forall|k: u64|
                    0 <= k < i ==> bit_set(
                        self.bits@,
                        (#[trigger] bloom_probe(value@, k) % self.num_bits) as int,
                    ),
            decreases 7 - i,
        {
            let bit: usize = probes[i] % self.num_bits;
            let shift: u8 = (bit % 8) as u8;
            assert(probes@[i as int] == bloom_probe(value@, i as u64));
            if self.bits[bit / 8] & (1u8 << shift) == 0 {
                return false;
            }
            i += 1;
        }
        true
    }

    pub fn serialize(&self) -> (out: Vec<u8>)
        ensures
            out@ == self.serialized(),
    {
        let mut out: Vec<u8> = Vec::new();
        push_u32_le(&mut out, #[verifier::truncate] (self.num_bits as u32));
        push_bytes(&mut out, self.bits.as_slice());
        out
    }

    /// Reads a filter: the number of bits, then the bit array as it is. Data
    /// shorter than four bytes gives a filter without bits.
    pub fn deserialize(data: &[u8]) -> (f: Self)
        ensures
            data@.len() < 4 ==> f.num_bits() == 0 && f.bits() == Seq::<u8>::empty(),
            data@.len() >= 4 ==> f.num_bits() == u32_from_le(data@.subrange(0, 4)) as usize
                && f.bits() == data@.subrange(4, data@.len() as int),
    {
        if data.len() < 4 {
            return Self { bits: Vec::new(), num_bits: 0 };
        }
        let num_bits = read_u32_le(data, 0) as usize;
        Self { bits: copy_range(data, 4, data.len() - 4), num_bits }
    }
}

impl Clone for BloomFilter {
    fn clone(&self) -> (f: Self)
        ensures
            f.bits() == self.bits(),
            f.num_bits() == self.num_bits(),
    {
        Self { bits: copy_range(self.bits.as_slice(), 0, self.bits.len()), num_bits: self.num_bits }
    }
}

} // verus!
