//! Metadata of tablets: column and tablet schemas, rowsets and the record
//! that a tablet keeps of itself.

use crate::common::{
    AggregateType, ColumnType, KeysType, PartitionId, RowsetId, SchemaHash, TabletId, Version,
};
use crate::text::{decimal, push_decimal};
use std::collections::HashMap;
use vstd::prelude::*;
use vstd::string::StringExecFns;
use vstd::wrapping::u32_specs::wrapping_mul;

verus! {

/// One column of a table.
#[derive(Debug)]
pub struct ColumnSchema {
    pub column_id: u32,
    pub name: String,
    pub column_type: ColumnType,
    pub is_key: bool,
    pub is_nullable: bool,
    pub aggregate_type: AggregateType,
    /// The largest length in bytes of a `Varchar` column.
    pub length: u32,
}

/// The mathematical content of a [`ColumnSchema`].
pub struct ColumnSchemaView {
    pub column_id: u32,
    pub name: Seq<char>,
    pub column_type: ColumnType,
    pub is_key: bool,
    pub is_nullable: bool,
    pub aggregate_type: AggregateType,
    pub length: u32,
}

impl View for ColumnSchema {
    type V = ColumnSchemaView;

    open spec fn view(&self) -> ColumnSchemaView {
        ColumnSchemaView {
            column_id: self.column_id,
            name: self.name@,
            column_type: self.column_type,
            is_key: self.is_key,
            is_nullable: self.is_nullable,
            aggregate_type: self.aggregate_type,
            length: self.length,
        }
    }
}

impl ColumnSchema {
    /// A key column: not nullable, not aggregated.
    pub fn key(id: u32, name: &str, column_type: ColumnType) -> (c: Self)
        ensures
            c@ == (ColumnSchemaView {
                column_id: id,
                name: name@,
                column_type,
                is_key: true,
                is_nullable: false,
                aggregate_type: AggregateType::NoAggregate,
                length: 0,
            }),
    {
        Self {
            column_id: id,
            name: name.to_owned(),
            column_type,
            is_key: true,
            is_nullable: false,
            aggregate_type: AggregateType::NoAggregate,
            length: 0,
        }
    }

    /// A value column: nullable, aggregated as given.
    pub fn value(id: u32, name: &str, column_type: ColumnType, agg: AggregateType) -> (c: Self)
        ensures
            c@ == (ColumnSchemaView {
                column_id: id,
                name: name@,
                column_type,
                is_key: false,
                is_nullable: true,
                aggregate_type: agg,
                length: 0,
            }),
    {
        Self {
            column_id: id,
            name: name.to_owned(),
            column_type,
            is_key: false,
            is_nullable: true,
            aggregate_type: agg,
            length: 0,
        }
    }

    /// A `Varchar` column of at most `max_len` bytes: nullable unless it is
    /// a key, not aggregated.
    pub fn varchar(id: u32, name: &str, max_len: u32, is_key: bool) -> (c: Self)
        ensures
            c@ == (ColumnSchemaView {
                column_id: id,
                name: name@,
                column_type: ColumnType::Varchar,
                is_key,
                is_nullable: !is_key,
                aggregate_type: AggregateType::NoAggregate,
                length: max_len,
            }),
    {
        Self {
            column_id: id,
            name: name.to_owned(),
            column_type: ColumnType::Varchar,
            is_key,
            is_nullable: !is_key,
            aggregate_type: AggregateType::NoAggregate,
            length: max_len,
        }
    }
}

impl Clone for ColumnSchema {
    fn clone(&self) -> (c: Self)
        ensures
            c@ == self@,
    {
        Self {
            column_id: self.column_id,
            name: self.name.clone(),
            column_type: self.column_type,
            is_key: self.is_key,
            is_nullable: self.is_nullable,
            aggregate_type: self.aggregate_type,
            length: self.length,
        }
    }
}

/// The multiplier of the schema hash.
pub const SCHEMA_HASH_MULTIPLIER: u32 = 2654435761;

/// The number of rows of a row block.
pub const ROWS_PER_ROW_BLOCK: u32 = 1024;

/// The contents of a sequence of column schemas.
pub open spec fn column_views(columns: Seq<ColumnSchema>) -> Seq<ColumnSchemaView> {
    columns.map_values(|c: ColumnSchema| c@)
}

/// The hash of a sequence of columns: the exclusive-or of every column id
/// times `SCHEMA_HASH_MULTIPLIER`, the product taken modulo 2^32.
pub open spec fn schema_hash_of(columns: Seq<ColumnSchemaView>) -> u32
    decreases columns.len(),
{
    if columns.len() == 0 {
        0
    } else {
        schema_hash_of(columns.drop_last()) ^ wrapping_mul(
            columns.last().column_id,
            SCHEMA_HASH_MULTIPLIER,
        )
    }
}

/// The columns whose key flag is `is_key`, in order.
pub open spec fn columns_with_key_flag(columns: Seq<ColumnSchema>, is_key: bool) -> Seq<
    ColumnSchema,
>
    decreases columns.len(),
{
    if columns.len() == 0 {
        Seq::<ColumnSchema>::empty()
    } else if columns.last().is_key == is_key {
        columns_with_key_flag(columns.drop_last(), is_key).push(columns.last())
    } else {
        columns_with_key_flag(columns.drop_last(), is_key)
    }
}

/// The columns that a sequence of references points to.
pub open spec fn referents(refs: Seq<&ColumnSchema>) -> Seq<ColumnSchema> {
    refs.map_values(|c: &ColumnSchema| *c)
}

/// The schema of a tablet.
#[derive(Debug)]
pub struct TabletSchema {
    pub schema_version: u32,
    pub keys_type: KeysType,
    pub columns: Vec<ColumnSchema>,
    pub schema_hash: SchemaHash,
    pub num_rows_per_row_block: u32,
}

/// The mathematical content of a [`TabletSchema`].
pub struct TabletSchemaView {
    pub schema_version: u32,
    pub keys_type: KeysType,
    pub columns: Seq<ColumnSchemaView>,
    pub schema_hash: SchemaHash,
    pub num_rows_per_row_block: u32,
}

impl View for TabletSchema {
    type V = TabletSchemaView;

    open spec fn view(&self) -> TabletSchemaView {
        TabletSchemaView {
            schema_version: self.schema_version,
            keys_type: self.keys_type,
            columns: column_views(self.columns@),
            schema_hash: self.schema_hash,
            num_rows_per_row_block: self.num_rows_per_row_block,
        }
    }
}

impl TabletSchema {
    /// A schema of version 1 over the given columns, with its hash.
    pub fn new(keys_type: KeysType, columns: Vec<ColumnSchema>) -> (s: Self)
        ensures
            s@ == (TabletSchemaView {
                schema_version: 1,
                keys_type,
                columns: column_views(columns@),
                schema_hash: schema_hash_of(column_views(columns@)),
                num_rows_per_row_block: ROWS_PER_ROW_BLOCK,
            }),
    {
        let mut hash: u32 = 0;
        let mut i: usize = 0;
        let ghost cv = column_views(columns@);
        assert(cv.subrange(0, 0) =~= Seq::<ColumnSchemaView>::empty());
        while i < columns.len()
            invariant
                i <= columns.len(),
                cv == column_views(columns@),
                hash == schema_hash_of(cv.subrange(0, i as int)),
            decreases columns.len() - i,
        {
            proof {
                let next = cv.subrange(0, i + 1);
                assert(next.drop_last() =~= cv.subrange(0, i as int));
                assert(next.last() == columns@[i as int]@);
            }
            hash = hash ^ columns[i].column_id.wrapping_mul(SCHEMA_HASH_MULTIPLIER);
            i += 1;
        }
        assert(cv.subrange(0, i as int) =~= cv);
        Self {
            schema_version: 1,
            keys_type,
            columns,
            schema_hash: hash,
            num_rows_per_row_block: ROWS_PER_ROW_BLOCK,
        }
    }

    fn columns_where(&self, is_key: bool) -> (r: Vec<&ColumnSchema>)
        ensures
            referents(r@) == columns_with_key_flag(self.columns@, is_key),
    {
        let mut r: Vec<&ColumnSchema> = Vec::new();
        let mut i: usize = 0;
        let ghost cols = self.columns@;
        assert(cols.subrange(0, 0) =~= Seq::<ColumnSchema>::empty());
        assert(referents(r@) =~= Seq::<ColumnSchema>::empty());
        while i < self.columns.len()
            invariant
                i <= self.columns.len(),
                cols == self.columns@,
                referents(r@) == columns_with_key_flag(cols.subrange(0, i as int), is_key),
            decreases self.columns.len() - i,
        {
            proof {
                let next = cols.subrange(0, i + 1);
                assert(next.drop_last() =~= cols.subrange(0, i as int));
                assert(next.last() == cols[i as int]);
            }
            if self.columns[i].is_key == is_key {
                let ghost before = referents(r@);
                r.push(&self.columns[i]);
                assert(referents(r@) =~= before.push(cols[i as int]));
            }
            i += 1;
        }
        assert(cols.subrange(0, i as int) =~= cols);
        r
    }

    /// The key columns, in order.
    pub fn key_columns(&self) -> (r: Vec<&ColumnSchema>)
        ensures
            referents(r@) == columns_with_key_flag(self.columns@, true),
    {
        self.columns_where(true)
    }

    /// The columns that are not keys, in order.
    pub fn value_columns(&self) -> (r: Vec<&ColumnSchema>)
        ensures
            referents(r@) == columns_with_key_flag(self.columns@, false),
    {
        self.columns_where(false)
    }

    pub fn num_columns(&self) -> (n: usize)
        ensures
            n == self@.columns.len(),
    {
        self.columns.len()
    }
}

impl Clone for TabletSchema {
    fn clone(&self) -> (s: Self)
        ensures
            s@ == self@,
    {
        let mut columns: Vec<ColumnSchema> = Vec::new();
        let mut i: usize = 0;
        while i < self.columns.len()
            invariant
                i <= self.columns.len(),
                columns@.len() == i,
                forall|k: int| 0 <= k < i ==> (#[trigger] columns@[k])@ == self.columns@[k]@,
            decreases self.columns.len() - i,
        {
            columns.push(self.columns[i].clone());
            i += 1;
        }
        assert(column_views(columns@) =~= column_views(self.columns@));
        Self {
            schema_version: self.schema_version,
            keys_type: self.keys_type,
            columns,
            schema_hash: self.schema_hash,
            num_rows_per_row_block: self.num_rows_per_row_block,
        }
    }
}

/// The life of a rowset: `Prepared`, `Committed`, `Visible`, `Stale`.
#[derive(Debug, Clone, Copy, PartialEq, Eq, Structural)]
pub enum RowsetState {
    Prepared,
    Committed,
    Visible,
    Stale,
}

/// The number of rows that one segment of a rowset holds at most.
pub const ROWS_PER_SEGMENT: u64 = 1_000_000;

/// The record of a rowset: a batch of rows of one tablet that covers one
/// interval of versions.
#[derive(Debug)]
pub struct RowsetMeta {
    pub rowset_id: RowsetId,
    pub tablet_id: TabletId,
    pub partition_id: PartitionId,
    pub version: Version,
    pub num_rows: u64,
    pub data_disk_size: u64,
    pub num_segments: u32,
    pub state: RowsetState,
    /// The relative paths of the segment files.
    pub segment_paths: Vec<String>,
}

/// The mathematical content of a [`RowsetMeta`].
pub struct RowsetView {
    pub rowset_id: RowsetId,
    pub tablet_id: TabletId,
    pub partition_id: PartitionId,
    pub version: Version,
    pub num_rows: u64,
    pub data_disk_size: u64,
    pub num_segments: u32,
    pub state: RowsetState,
    pub segment_paths: Seq<Seq<char>>,
}

impl View for RowsetMeta {
    type V = RowsetView;

    open spec fn view(&self) -> RowsetView {
        RowsetView {
            rowset_id: self.rowset_id,
            tablet_id: self.tablet_id,
            partition_id: self.partition_id,
            version: self.version,
            num_rows: self.num_rows,
            data_disk_size: self.data_disk_size,
            num_segments: self.num_segments,
            state: self.state,
            segment_paths: self.segment_paths@.map_values(|p: String| p@),
        }
    }
}

/// The name of segment `index` of a rowset: `{tablet}_{rowset}_{index}.seg`.
pub open spec fn segment_name(tablet_id: TabletId, rowset_id: RowsetId, index: u32) -> Seq<char> {
    decimal(tablet_id as nat) + "_"@ + decimal(rowset_id as nat) + "_"@ + decimal(index as nat)
        + ".seg"@
}

/// The number of segments of a rowset of `num_rows` rows: one for every
/// `ROWS_PER_SEGMENT` rows or part of them, as a 32-bit integer.
pub open spec fn segments_for(num_rows: u64) -> u32 {
    ((num_rows + ROWS_PER_SEGMENT - 1) / (ROWS_PER_SEGMENT as int)) as u32
}

impl RowsetMeta {
    /// The record of a new rowset, in state `Prepared`, with the names of
    /// its segments.
    pub fn new(
        rowset_id: RowsetId,
        tablet_id: TabletId,
        partition_id: PartitionId,
        version: Version,
        num_rows: u64,
        data_disk_size: u64,
    ) -> (r: Self)
        ensures
            r@ == (RowsetView {
                rowset_id,
                tablet_id,
                partition_id,
                version,
                num_rows,
                data_disk_size,
                num_segments: segments_for(num_rows),
                state: RowsetState::Prepared,
                segment_paths: Seq::new(
                    segments_for(num_rows) as nat,
                    |i: int| segment_name(tablet_id, rowset_id, i as u32),
                ),
            }),
    {
        let whole: u64 = num_rows / ROWS_PER_SEGMENT;
        let count: u64 = if num_rows % ROWS_PER_SEGMENT == 0 {
            whole
        } else {
            whole + 1
        };
        let num_segments: u32 = #[verifier::truncate] (count as u32);
        let mut segment_paths: Vec<String> = Vec::new();
        let mut i: u32 = 0;
        while i < num_segments
            invariant
                i <= num_segments,
                segment_paths@.len() == i,
                forall|k: int|
                    0 <= k < i ==> (#[trigger] segment_paths@[k])@ == segment_name(
                        tablet_id,
                        rowset_id,
                        k as u32,
                    ),
            decreases num_segments - i,
        {
            let mut path = String::new();
            push_decimal(&mut path, tablet_id);
            path.append("_");
            push_decimal(&mut path, rowset_id);
            path.append("_");
            push_decimal(&mut path, i as u64);
            path.append(".seg");
            assert(path@ =~= segment_name(tablet_id, rowset_id, i));
            segment_paths.push(path);
            i += 1;
        }
        let r = Self {
            rowset_id,
            tablet_id,
            partition_id,
            version,
            num_rows,
            data_disk_size,
            num_segments,
            state: RowsetState::Prepared,
            segment_paths,
        };
        assert(r@.segment_paths =~= Seq::new(
            segments_for(num_rows) as nat,
            |i: int| segment_name(tablet_id, rowset_id, i as u32),
        ));
        r
    }

    pub fn is_visible(&self) -> (r: bool)
        ensures
            r == (self.state == RowsetState::Visible),
    {
        self.state == RowsetState::Visible
    }

    pub fn mark_stale(&mut self)
        ensures
            final(self)@ == (RowsetView { state: RowsetState::Stale, ..old(self)@ }),
    {
        self.state = RowsetState::Stale;
    }
}

impl Clone for RowsetMeta {
    fn clone(&self) -> (r: Self)
        ensures
            r@ == self@,
    {
        let mut segment_paths: Vec<String> = Vec::new();
        let mut i: usize = 0;
        while i < self.segment_paths.len()
            invariant
                i <= self.segment_paths.len(),
                segment_paths@.len() == i,
                forall|k: int|
                    0 <= k < i ==> (#[trigger] segment_paths@[k])@ == self.segment_paths@[k]@,
            decreases self.segment_paths.len() - i,
        {
            segment_paths.push(self.segment_paths[i].clone());
            i += 1;
        }
        let r = Self {
            rowset_id: self.rowset_id,
            tablet_id: self.tablet_id,
            partition_id: self.partition_id,
            version: self.version,
            num_rows: self.num_rows,
            data_disk_size: self.data_disk_size,
            num_segments: self.num_segments,
            state: self.state,
            segment_paths,
        };
        assert(r@.segment_paths =~= self@.segment_paths);
        r
    }
}

/// The record that a tablet keeps of itself.
#[derive(Debug)]
pub struct TabletMeta {
    pub tablet_id: TabletId,
    pub partition_id: PartitionId,
    pub schema_hash: SchemaHash,
    pub schema: TabletSchema,
    /// The rowsets of the tablet, by rowset id.
    pub rowsets: HashMap<RowsetId, RowsetMeta>,
    /// The version up to which cumulative compaction has merged.
    pub cumulative_layer_point: i64,
    /// The largest version that a published rowset ends at.
    pub max_version: i64,
}

impl TabletMeta {
    /// The record of a tablet without rowsets: its hash is that of the
    /// schema, and no version is reached yet.
    pub fn new(tablet_id: TabletId, partition_id: PartitionId, schema: TabletSchema) -> (m: Self)
        ensures
            m.tablet_id == tablet_id,
            m.partition_id == partition_id,
            m.schema_hash == schema.schema_hash,
            m.schema == schema,
            m.rowsets@ == Map::<RowsetId, RowsetMeta>::empty(),
            m.cumulative_layer_point == -1,
            m.max_version == -1,
    {
        let schema_hash = schema.schema_hash;
        Self {
            tablet_id,
            partition_id,
            schema_hash,
            schema,
            rowsets: HashMap::new(),
            cumulative_layer_point: -1,
            max_version: -1,
        }
    }
}

} // verus!
