//! Partitions and buckets: how a row finds its tablet.
//!
//! A partition is chosen by the partition key, through ranges, a list or no
//! rule at all; within the partition a bucket is chosen by the sort key.

use crate::common::{OlapError, PartitionId, TabletId};
use crate::hash::{fnv1a, fnv1a_hash, FNV_OFFSET_BASIS};
use crate::index::{bytes_less, lex_lt};
use crate::text::{decimal, push_decimal};
use std::collections::HashMap;
use vstd::prelude::*;
use vstd::string::StringExecFns;
use vstd::utf8::encode_utf8;

verus! {

/// Calls `SystemTime::elapsed` on the Unix epoch: the time since then, or
/// `None` where the clock stands before it. Nothing is claimed of the
/// result.
#[verifier::external_body]
fn time_since_epoch() -> (d: Option<std::time::Duration>) {
    std::time::UNIX_EPOCH.elapsed().ok()
}

/// Calls `Duration::subsec_nanos`: the part of a duration below one second,
/// in nanoseconds, which the standard library documents to be less than one
/// billion.
#[verifier::external_body]
fn subsec_nanos_of(d: &std::time::Duration) -> (n: u32)
    ensures
        n < NANOS_PER_SECOND,
{
    d.subsec_nanos()
}

/// The number of nanoseconds in a second.
pub const NANOS_PER_SECOND: u32 = 1_000_000_000;

/// How the rows of a partition are spread over its buckets.
#[derive(Debug)]
pub enum BucketType {
    /// By the hash of the sort key.
    Hash { bucket_columns: Vec<String>, num_buckets: u32 },
    /// By the clock, at the time of the call.
    Random { num_buckets: u32 },
}

/// The bucket of a sort key under hashing: FNV-1a of its UTF-8 bytes, modulo
/// the number of buckets.
pub open spec fn hash_bucket(key: Seq<char>, num_buckets: u32) -> u32 {
    (fnv1a(FNV_OFFSET_BASIS, encode_utf8(key)) % (num_buckets as u64)) as u32
}

impl BucketType {
    /// The number of buckets.
    pub open spec fn buckets(&self) -> u32 {
        match self {
            BucketType::Hash { num_buckets, .. } => *num_buckets,
            BucketType::Random { num_buckets } => *num_buckets,
        }
    }

    /// The bucket of a sort key, given the nanoseconds that the clock shows:
    /// under hashing the hash of the key decides, else the clock.
    pub open spec fn bucket_at(&self, key: Seq<char>, nanos: u32) -> u32 {
        match self {
            BucketType::Hash { num_buckets, .. } => hash_bucket(key, *num_buckets),
            BucketType::Random { num_buckets } => nanos % *num_buckets,
        }
    }

    pub fn num_buckets(&self) -> (n: u32)
        ensures
            n == self.buckets(),
    {
        match self {
            BucketType::Hash { num_buckets, .. } => *num_buckets,
            BucketType::Random { num_buckets } => *num_buckets,
        }
    }

    /// The bucket of a sort key when the clock shows `nanos` nanoseconds
    /// within the second.
    pub fn bucket_for(&self, key: &str, nanos: u32) -> (b: u32)
        requires
            self.buckets() > 0,
        ensures
            b == self.bucket_at(key@, nanos),
            b < self.buckets(),
    {
        match self {
            BucketType::Hash { num_buckets, .. } => {
                let h = fnv1a_hash(FNV_OFFSET_BASIS, key.as_bytes());
                (h % (*num_buckets as u64)) as u32
            },
            BucketType::Random { num_buckets } => nanos % *num_buckets,
        }
    }

    /// The bucket of a sort key.
    ///
    /// Under hashing the bucket depends on the key alone. A random bucket is
    /// taken from the nanoseconds that the clock shows within the second, so
    /// two calls may differ; it is always one of the buckets.
    pub fn bucket_for_key(&self, key: &str) -> (b: u32)
        requires
            self.buckets() > 0,
        ensures
            b < self.buckets(),
            self is Hash ==> b == hash_bucket(key@, self.buckets()),
            exists|nanos: u32| nanos < NANOS_PER_SECOND && b == #[trigger] self.bucket_at(key@, nanos),
    {
        let nanos: u32 = match self {
            BucketType::Hash { .. } => 0,
            BucketType::Random { .. } => match time_since_epoch() {
                Some(d) => subsec_nanos_of(&d),
                None => 0,
            },
        };
        let b = self.bucket_for(key, nanos);
        assert(nanos < NANOS_PER_SECOND && b == self.bucket_at(key@, nanos));
        b
    }
}

/// The tablets of one index of a partition: entry `i` is the tablet of
/// bucket `i`.
#[derive(Debug)]
pub struct MaterializedIndex {
    pub index_id: u64,
    pub tablets: Vec<TabletId>,
}

impl MaterializedIndex {
    pub fn new(index_id: u64, tablets: Vec<TabletId>) -> (idx: Self)
        ensures
            idx.index_id == index_id,
            idx.tablets == tablets,
    {
        Self { index_id, tablets }
    }

    /// The tablet of a bucket, or `None` where the index has no such bucket.
    pub open spec fn tablet_of(&self, bucket: u32) -> Option<TabletId> {
        if bucket < self.tablets@.len() {
            Some(self.tablets@[bucket as int])
        } else {
            None
        }
    }

    pub fn tablet_for_bucket(&self, bucket: u32) -> (t: Option<TabletId>)
        ensures
            t == self.tablet_of(bucket),
    {
        if (bucket as usize) < self.tablets.len() {
            Some(self.tablets[bucket as usize])
        } else {
            None
        }
    }
}

/// One partition of a table.
#[derive(Debug)]
pub struct Partition {
    pub partition_id: PartitionId,
    pub base_index: MaterializedIndex,
    pub rollup_indexes: Vec<MaterializedIndex>,
    pub bucket_type: BucketType,
    /// The version that readers see.
    pub visible_version: i64,
}

impl Partition {
    /// A partition without rollup indexes, visible at version 0.
    pub fn new(partition_id: PartitionId, base_index: MaterializedIndex, bucket_type: BucketType)
        -> (p: Self)
        ensures
            p.partition_id == partition_id,
            p.base_index == base_index,
            p.rollup_indexes@ == Seq::<MaterializedIndex>::empty(),
            p.bucket_type == bucket_type,
            p.visible_version == 0,
    {
        Self {
            partition_id,
            base_index,
            rollup_indexes: Vec::new(),
            bucket_type,
            visible_version: 0,
        }
    }

    /// The tablet of a sort key when the clock shows `nanos` nanoseconds
    /// within the second: the tablet of its bucket in the base index, or
    /// `None` where the base index has no such bucket.
    pub fn tablet_for(&self, sort_key: &str, nanos: u32) -> (t: Option<TabletId>)
        requires
            self.bucket_type.buckets() > 0,
        ensures
            t == self.base_index.tablet_of(self.bucket_type.bucket_at(sort_key@, nanos)),
    {
        let bucket = self.bucket_type.bucket_for(sort_key, nanos);
        self.base_index.tablet_for_bucket(bucket)
    }

    /// The tablet of a sort key: the tablet that `tablet_for` gives for the
    /// nanoseconds that the clock shows within the second.
    ///
    /// Under hashing the tablet is that of the bucket of the key, whatever
    /// the clock shows.
    pub fn tablet_for_key(&self, sort_key: &str) -> (t: Option<TabletId>)
        requires
            self.bucket_type.buckets() > 0,
        ensures
            exists|nanos: u32|
                nanos < NANOS_PER_SECOND && t == self.base_index.tablet_of(
                    #[trigger] self.bucket_type.bucket_at(sort_key@, nanos),
                ),
            self.bucket_type is Hash ==> t == self.base_index.tablet_of(
                hash_bucket(sort_key@, self.bucket_type.buckets()),
            ),
    {
        let bucket = self.bucket_type.bucket_for_key(sort_key);
        self.base_index.tablet_for_bucket(bucket)
    }
}

/// The upper bound of a range partition; keys are compared as byte strings.
#[derive(Debug, Clone, PartialEq, Eq, PartialOrd, Ord)]
pub struct RangeBound(pub String);

impl RangeBound {
    /// A bound above every key in use: 64 times the character `U+FFFF`.
    pub fn max_value() -> (b: Self)
        ensures
            b.0@ == Seq::new(64, |i: int| '\u{FFFF}'),
    {
        let mut s = String::new();
        let mut i: usize = 0;
        while i < 64
            invariant
                i <= 64,
                s@ == Seq::new(i as nat, |k: int| '\u{FFFF}'),
            decreases 64 - i,
        {
            proof {
                reveal_strlit("\u{FFFF}");
            }
            s.append("\u{FFFF}");
            i += 1;
            assert(s@ =~= Seq::new(i as nat, |k: int| '\u{FFFF}'));
        }
        RangeBound(s)
    }
}

/// One range of a range-partitioned table: the keys below `upper_bound`
/// that no earlier range takes.
#[derive(Debug)]
pub struct RangePartitionItem {
    pub partition_id: PartitionId,
    pub upper_bound: RangeBound,
}

/// One entry of a list-partitioned table.
#[derive(Debug)]
pub struct ListPartitionItem {
    pub key: String,
    pub partition_id: PartitionId,
}

/// The rule by which a partition key finds its partition.
#[derive(Debug)]
pub enum PartitionPolicy {
    /// The first range whose upper bound is above the key.
    Range { items: Vec<RangePartitionItem> },
    /// The entry of the key.
    List { key_to_partition: Vec<ListPartitionItem> },
    /// One partition for every key.
    Unpartitioned { partition_id: PartitionId },
}

/// Whether a key lies below a bound, both compared as UTF-8 byte strings.
pub open spec fn key_below(key: Seq<char>, bound: Seq<char>) -> bool {
    lex_lt(encode_utf8(key), encode_utf8(bound))
}

/// The partition of the first range, from position `from` on, whose upper
/// bound is above the key.
pub open spec fn range_partition(items: Seq<RangePartitionItem>, key: Seq<char>, from: int)
    -> Option<PartitionId>
    decreases items.len() - from,
{
    if from < 0 || from >= items.len() {
        None
    } else if key_below(key, items[from].upper_bound.0@) {
        Some(items[from].partition_id)
    } else {
        range_partition(items, key, from + 1)
    }
}

/// The partition of the first entry, from position `from` on, with the
/// given key.
pub open spec fn list_partition(items: Seq<ListPartitionItem>, key: Seq<char>, from: int)
    -> Option<PartitionId>
    decreases items.len() - from,
{
    if from < 0 || from >= items.len() {
        None
    } else if items[from].key@ == key {
        Some(items[from].partition_id)
    } else {
        list_partition(items, key, from + 1)
    }
}

impl PartitionPolicy {
    /// Whether no key has two entries in a list.
    pub open spec fn wf(&self) -> bool {
        match self {
            PartitionPolicy::List { key_to_partition } => forall|i: int, j: int|
                0 <= i < j < key_to_partition@.len() ==> key_to_partition@[i].key@
                    != key_to_partition@[j].key@,
            _ => true,
        }
    }

    /// The partition that the rule gives a key, if any.
    pub open spec fn resolved(&self, key: Seq<char>) -> Option<PartitionId> {
        match self {
            PartitionPolicy::Unpartitioned { partition_id } => Some(*partition_id),
            PartitionPolicy::List { key_to_partition } => list_partition(
                key_to_partition@,
                key,
                0,
            ),
            PartitionPolicy::Range { items } => range_partition(items@, key, 0),
        }
    }

    /// Finds the partition that the rule gives a key.
    pub fn resolve(&self, key: &str) -> (r: Option<PartitionId>)
        ensures
            r == self.resolved(key@),
    {
        match self {
            PartitionPolicy::Unpartitioned { partition_id } => Some(*partition_id),
            PartitionPolicy::List { key_to_partition } => {
                let wanted = key.to_owned();
                let mut i: usize = 0;
                while i < key_to_partition.len()
                    invariant
                        i <= key_to_partition.len(),
                        wanted@ == key@,
                        self.resolved(key@) == list_partition(key_to_partition@, key@, 0),
                        list_partition(key_to_partition@, key@, 0) == list_partition(
                            key_to_partition@,
                            key@,
                            i as int,
                        ),
                    decreases key_to_partition.len() - i,
                {
                    let same = key_to_partition[i].key == wanted;
                    assert(same == (key_to_partition@[i as int].key@ == key@));
                    assert(list_partition(key_to_partition@, key@, i as int) == (if same {
                        Some(key_to_partition@[i as int].partition_id)
                    } else {
                        list_partition(key_to_partition@, key@, i + 1)
                    }));
                    if same {
                        return Some(key_to_partition[i].partition_id);
                    }
                    i += 1;
                }
                None
            },
            PartitionPolicy::Range { items } => {
                let mut i: usize = 0;
                while i < items.len()
                    invariant
                        i <= items.len(),
                        self.resolved(key@) == range_partition(items@, key@, 0),
                        range_partition(items@, key@, 0) == range_partition(
                            items@,
                            key@,
                            i as int,
                        ),
                    decreases items.len() - i,
                {
                    let below = bytes_less(
                        key.as_bytes(),
                        items[i].upper_bound.0.as_str().as_bytes(),
                    );
                    assert(below == key_below(key@, items@[i as int].upper_bound.0@));
                    assert(range_partition(items@, key@, i as int) == (if below {
                        Some(items@[i as int].partition_id)
                    } else {
                        range_partition(items@, key@, i + 1)
                    }));
                    if below {
                        return Some(items[i].partition_id);
                    }
                    i += 1;
                }
                None
            },
        }
    }
}

/// The partitions of a table and the rule that chooses among them.
#[derive(Debug)]
pub struct PartitionInfo {
    pub partition_columns: Vec<String>,
    pub policy: PartitionPolicy,
    pub partitions: HashMap<PartitionId, Partition>,
}

/// Why no partition is found for a key.
pub enum PartitionFault {
    /// The rule gives the key no partition.
    NoRule,
    /// The rule gives a partition that the table does not hold.
    NoPartition(PartitionId),
}

impl PartitionInfo {
    /// The partition of a key: the one that the rule gives it, where the
    /// table holds it.
    pub open spec fn found(&self, key: Seq<char>) -> Result<Partition, PartitionFault> {
        match self.policy.resolved(key) {
            None => Err(PartitionFault::NoRule),
            Some(pid) => if self.partitions@.contains_key(pid) {
                Ok(self.partitions@[pid])
            } else {
                Err(PartitionFault::NoPartition(pid))
            },
        }
    }

    /// A range-partitioned table.
    pub fn range(
        partition_columns: Vec<String>,
        items: Vec<RangePartitionItem>,
        partitions: HashMap<PartitionId, Partition>,
    ) -> (info: Self)
        ensures
            info.partition_columns == partition_columns,
            info.policy == (PartitionPolicy::Range { items }),
            info.partitions == partitions,
    {
        Self { partition_columns, policy: PartitionPolicy::Range { items }, partitions }
    }

    /// A list-partitioned table.
    pub fn list(
        partition_columns: Vec<String>,
        mapping: Vec<ListPartitionItem>,
        partitions: HashMap<PartitionId, Partition>,
    ) -> (info: Self)
        ensures
            info.partition_columns == partition_columns,
            info.policy == (PartitionPolicy::List { key_to_partition: mapping }),
            info.partitions == partitions,
    {
        Self {
            partition_columns,
            policy: PartitionPolicy::List { key_to_partition: mapping },
            partitions,
        }
    }

    /// A table of one partition.
    pub fn unpartitioned(partition_id: PartitionId, partition: Partition) -> (info: Self)
        ensures
            info.partition_columns@ == Seq::<String>::empty(),
            info.policy == (PartitionPolicy::Unpartitioned { partition_id }),
            info.partitions@ == Map::<PartitionId, Partition>::empty().insert(
                partition_id,
                partition,
            ),
    {
        broadcast use vstd::std_specs::hash::group_hash_axioms;

        let mut partitions: HashMap<PartitionId, Partition> = HashMap::new();
        partitions.insert(partition_id, partition);
        Self {
            partition_columns: Vec::new(),
            policy: PartitionPolicy::Unpartitioned { partition_id },
            partitions,
        }
    }

    /// Finds the partition of a partition key.
    ///
    /// Fails with `PartitionNotFound`: carrying the key where the rule gives
    /// it no partition, and `pid=` with the partition id where the table
    /// does not hold the partition that the rule gives.
    pub fn find_partition(&self, key: &str) -> (r: Result<&Partition, OlapError>)
        ensures
            match self.found(key@) {
                Ok(p) => r is Ok && *r->Ok_0 == p,
                Err(PartitionFault::NoRule) => r is Err && r->Err_0 is PartitionNotFound
                    && r->Err_0->PartitionNotFound_0@ == key@,
                Err(PartitionFault::NoPartition(pid)) => r is Err && r->Err_0 is PartitionNotFound
                    && r->Err_0->PartitionNotFound_0@ == "pid="@ + decimal(pid as nat),
            },
    {
        broadcast use vstd::std_specs::hash::group_hash_axioms;

        let pid = match self.policy.resolve(key) {
            Some(pid) => pid,
            None => {
                return Err(OlapError::PartitionNotFound(key.to_owned()));
            },
        };
        match self.partitions.get(&pid) {
            Some(p) => Ok(p),
            None => {
                let mut msg = String::from_str("pid=");
                push_decimal(&mut msg, pid);
                Err(OlapError::PartitionNotFound(msg))
            },
        }
    }
}

} // verus!
