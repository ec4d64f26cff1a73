//! The storage engine: the registry of tablets together with the catalog.

use crate::common::{
    CompactionType, DbId, OlapError, PartitionId, RowsetId, SchemaHash, TableId, TabletId,
};
use crate::meta::{RowsetMeta, RowsetView, TabletMeta, TabletSchema};
use crate::partition::PartitionInfo;
use crate::table::{CatalogManager, DatabaseState, OlapTable};
use crate::tablet::{Candidate, Tablet, TabletManager, TabletState};
use crate::text::{decimal, push_decimal};
use vstd::prelude::*;
use vstd::string::StringExecFns;

verus! {

/// The tablets of one partition of a table that is being created.
pub struct PartitionSpec {
    pub partition_id: PartitionId,
    /// One tablet id for every bucket.
    pub tablet_ids: Vec<TabletId>,
    pub schema_hash: SchemaHash,
}

/// The most tablets that one round of compaction takes.
pub const COMPACTION_BATCH: usize = 10;

/// The state of a tablet without rowsets.
pub open spec fn fresh_tablet(tablet_id: TabletId, schema: TabletSchema) -> TabletState {
    TabletState {
        tablet_id,
        schema_hash: schema.schema_hash,
        schema: schema@,
        rowsets: Map::<RowsetId, RowsetView>::empty(),
        max_version: -1i64,
        edges: Set::<crate::common::Version>::empty(),
    }
}

/// The registry after a fresh tablet was registered for the first `upto`
/// tablet ids of a list, one after another.
pub open spec fn with_tablets(
    registry: Map<(TabletId, SchemaHash), TabletState>,
    tablet_ids: Seq<TabletId>,
    schema: TabletSchema,
    upto: int,
) -> Map<(TabletId, SchemaHash), TabletState>
    decreases upto,
{
    if upto <= 0 {
        registry
    } else {
        with_tablets(registry, tablet_ids, schema, upto - 1).insert(
            (tablet_ids[upto - 1], schema.schema_hash),
            fresh_tablet(tablet_ids[upto - 1], schema),
        )
    }
}

/// The registry after a fresh tablet was registered for every tablet id of
/// the first `upto` partitions of a list.
pub open spec fn with_partitions(
    registry: Map<(TabletId, SchemaHash), TabletState>,
    specs: Seq<PartitionSpec>,
    schema: TabletSchema,
    upto: int,
) -> Map<(TabletId, SchemaHash), TabletState>
    decreases upto,
{
    if upto <= 0 {
        registry
    } else {
        with_tablets(
            with_partitions(registry, specs, schema, upto - 1),
            specs[upto - 1].tablet_ids@,
            schema,
            specs[upto - 1].tablet_ids@.len() as int,
        )
    }
}

/// The path of a segment file: `{data_dir}/{tablet}/{rowset}_{index}.seg`.
pub open spec fn segment_path_text(
    data_dir: Seq<char>,
    tablet_id: TabletId,
    rowset_id: RowsetId,
    seg_idx: u32,
) -> Seq<char> {
    data_dir + "/"@ + decimal(tablet_id as nat) + "/"@ + decimal(rowset_id as nat) + "_"@ + decimal(
        seg_idx as nat,
    ) + ".seg"@
}

/// The storage engine of one node.
pub struct StorageEngine {
    pub data_dir: String,
    pub tablet_manager: TabletManager,
    pub catalog_manager: CatalogManager,
}

impl StorageEngine {
    /// Whether the registry of the engine is well-formed.
    pub open spec fn wf(&self) -> bool {
        self.tablet_manager.wf()
    }

    /// An engine without tablets and databases that keeps its files under
    /// `data_dir`.
    pub fn new_single_dir(data_dir: &str) -> (e: Self)
        ensures
            e.wf(),
            e.data_dir@ == data_dir@,
            e.tablet_manager@ == Map::<(TabletId, SchemaHash), TabletState>::empty(),
            e.catalog_manager@ == Map::<DbId, DatabaseState>::empty(),
    {
        Self {
            data_dir: data_dir.to_owned(),
            tablet_manager: TabletManager::new(),
            catalog_manager: CatalogManager::new(),
        }
    }

    /// Creates a database without tables, in place of any database of the
    /// same id.
    pub fn create_database(&mut self, db_id: DbId, db_name: &str) -> (r: Result<(), OlapError>)
        ensures
            r is Ok,
            final(self).data_dir == old(self).data_dir,
            final(self).tablet_manager == old(self).tablet_manager,
            final(self).catalog_manager@ == old(self).catalog_manager@.insert(
                db_id,
                DatabaseState { name: db_name@, tables: Map::<TableId, OlapTable>::empty() },
            ),
    {
        self.catalog_manager.create_database(db_id, db_name)
    }

    /// Creates a table: registers a fresh tablet for every tablet id of
    /// every partition, then adds the table to its database.
    ///
    /// Fails with `DatabaseNotFound` where the catalog has no such database;
    /// the tablets are registered all the same.
    pub fn create_table_with_partitions(
        &mut self,
        db_id: DbId,
        table_id: TableId,
        table_name: &str,
        schema: TabletSchema,
        partition_info: PartitionInfo,
        partition_specs: Vec<PartitionSpec>,
        _replication_num: u32,
    ) -> (r: Result<(), OlapError>)
        requires
            old(self).wf(),
        ensures
            final(self).wf(),
            final(self).data_dir == old(self).data_dir,
            final(self).tablet_manager@ == with_partitions(
                old(self).tablet_manager@,
                partition_specs@,
                schema,
                partition_specs@.len() as int,
            ),
            !old(self).catalog_manager@.contains_key(db_id) ==> r == Err::<(), OlapError>(
                OlapError::DatabaseNotFound(db_id),
            ) && final(self).catalog_manager@ == old(self).catalog_manager@,
            old(self).catalog_manager@.contains_key(db_id) ==> r is Ok && final(self).catalog_manager@.contains_key(db_id) && final(self).catalog_manager@[db_id].name
                == old(self).catalog_manager@[db_id].name && final(self).catalog_manager@[db_id].tables.dom() == old(self).catalog_manager@[db_id].tables.dom().insert(table_id) && {
                let t = final(self).catalog_manager@[db_id].tables[table_id];
                &&& t.table_id == table_id
                &&& t.table_name@ == table_name@
                &&& t.schema == schema
                &&& t.partition_info == partition_info
            } && forall|other: TableId|
                other != table_id && old(self).catalog_manager@[db_id].tables.contains_key(other)
                    ==> #[trigger] final(self).catalog_manager@[db_id].tables[other] == old(self).catalog_manager@[db_id].tables[other],
    {
        let mut p: usize = 0;
        while p < partition_specs.len()
            invariant
                p <= partition_specs.len(),
                self.wf(),
                self.data_dir == old(self).data_dir,
                self.catalog_manager == old(self).catalog_manager,
                self.tablet_manager@ == with_partitions(
                    old(self).tablet_manager@,
                    partition_specs@,
                    schema,
                    p as int,
                ),
            decreases partition_specs.len() - p,
        {
            let spec = &partition_specs[p];
            let ghost start = self.tablet_manager@;
            let mut i: usize = 0;
            while i < spec.tablet_ids.len()
                invariant
                    i <= spec.tablet_ids.len(),
                    self.wf(),
                    self.data_dir == old(self).data_dir,
                    self.catalog_manager == old(self).catalog_manager,
                    self.tablet_manager@ == with_tablets(start, spec.tablet_ids@, schema, i as int),
                decreases spec.tablet_ids.len() - i,
            {
                let tid = spec.tablet_ids[i];
                let meta = TabletMeta::new(tid, spec.partition_id, schema.clone());
                proof {
                    Self::lemma_fresh(meta, tid, schema);
                }
                let _ = self.tablet_manager.create_tablet(meta);
                i += 1;
            }
            p += 1;
        }
        let table = OlapTable::new(table_id, table_name, schema, partition_info);
        let ghost added = table;
        let r = self.catalog_manager.add_table(db_id, table);
        proof {
            if old(self).catalog_manager@.contains_key(db_id) {
                let tables = old(self).catalog_manager@[db_id].tables;
                assert(self.catalog_manager@[db_id].tables == tables.insert(table_id, added));
                assert(self.catalog_manager@[db_id].tables.dom() =~= tables.dom().insert(table_id));
            }
        }
        r
    }

    proof fn lemma_fresh(meta: TabletMeta, tablet_id: TabletId, schema: TabletSchema)
        requires
            meta.tablet_id == tablet_id,
            meta.schema_hash == meta.schema.schema_hash,
            meta.schema@ == schema@,
            meta.rowsets@ == Map::<RowsetId, RowsetMeta>::empty(),
            meta.max_version == -1,
        ensures
            meta.schema_hash == schema.schema_hash,
            TabletState::of_meta(meta) == fresh_tablet(tablet_id, schema),
    {
        let state = TabletState::of_meta(meta);
        assert(state.rowsets =~= Map::<RowsetId, RowsetView>::empty());
        assert(state.edges =~= Set::<crate::common::Version>::empty());
    }

    /// Registers a new tablet with the given record, in place of any tablet
    /// registered under the same id and schema hash.
    pub fn create_tablet(&mut self, meta: TabletMeta) -> (r: Result<(), OlapError>)
        requires
            old(self).wf(),
        ensures
            final(self).wf(),
            r is Ok,
            final(self).data_dir == old(self).data_dir,
            final(self).catalog_manager == old(self).catalog_manager,
            final(self).tablet_manager@ == old(self).tablet_manager@.insert(
                (meta.tablet_id, meta.schema_hash),
                TabletState::of_meta(meta),
            ),
    {
        self.tablet_manager.create_tablet(meta)
    }

    /// The tablet registered under an id and a schema hash.
    ///
    /// Fails with `TabletNotFound`, carrying the id, where there is none.
    pub fn get_tablet(&self, tablet_id: TabletId, schema_hash: SchemaHash) -> (r: Result<
        &Tablet,
        OlapError,
    >)
        requires
            self.wf(),
        ensures
            self.tablet_manager@.contains_key((tablet_id, schema_hash)) ==> r is Ok && r->Ok_0@
                == self.tablet_manager@[(tablet_id, schema_hash)] && r->Ok_0@.wf(),
            !self.tablet_manager@.contains_key((tablet_id, schema_hash)) ==> r == Err::<
                &Tablet,
                OlapError,
            >(OlapError::TabletNotFound(tablet_id)),
    {
        self.tablet_manager.get_tablet(tablet_id, schema_hash)
    }

    /// Removes the tablet registered under an id and a schema hash.
    ///
    /// Fails with `TabletNotFound`, carrying the id, where there is none.
    pub fn drop_tablet(&mut self, tablet_id: TabletId, schema_hash: SchemaHash) -> (r: Result<
        (),
        OlapError,
    >)
        requires
            old(self).wf(),
        ensures
            final(self).wf(),
            final(self).data_dir == old(self).data_dir,
            final(self).catalog_manager == old(self).catalog_manager,
            final(self).tablet_manager@ == old(self).tablet_manager@.remove(
                (tablet_id, schema_hash),
            ),
            old(self).tablet_manager@.contains_key((tablet_id, schema_hash)) ==> r is Ok,
            !old(self).tablet_manager@.contains_key((tablet_id, schema_hash)) ==> r == Err::<
                (),
                OlapError,
            >(OlapError::TabletNotFound(tablet_id)),
    {
        self.tablet_manager.drop_tablet(tablet_id, schema_hash)
    }

    /// Publishes a rowset on the tablet registered under an id and a schema
    /// hash: the rowset becomes visible there.
    ///
    /// Fails with `TabletNotFound` where there is no such tablet, and with
    /// `VersionExists` where the tablet holds a rowset of the same id; the
    /// engine is then unchanged.
    pub fn publish_rowset(
        &mut self,
        tablet_id: TabletId,
        schema_hash: SchemaHash,
        rowset: RowsetMeta,
    ) -> (r: Result<(), OlapError>)
        requires
            old(self).wf(),
        ensures
            final(self).wf(),
            final(self).data_dir == old(self).data_dir,
            final(self).catalog_manager == old(self).catalog_manager,
            !old(self).tablet_manager@.contains_key((tablet_id, schema_hash)) ==> r == Err::<
                (),
                OlapError,
            >(OlapError::TabletNotFound(tablet_id)) && final(self).tablet_manager@ == old(self).tablet_manager@,
            old(self).tablet_manager@.contains_key((tablet_id, schema_hash)) && old(self).tablet_manager@[(tablet_id, schema_hash)].rowsets.contains_key(rowset.rowset_id)
                ==> r == Err::<(), OlapError>(OlapError::VersionExists(rowset.version)) && final(self).tablet_manager@ == old(self).tablet_manager@,
            old(self).tablet_manager@.contains_key((tablet_id, schema_hash)) && !old(self).tablet_manager@[(tablet_id, schema_hash)].rowsets.contains_key(rowset.rowset_id)
                ==> r is Ok && final(self).tablet_manager@ == old(self).tablet_manager@.insert(
                (tablet_id, schema_hash),
                old(self).tablet_manager@[(tablet_id, schema_hash)].published(rowset@),
            ),
    {
        self.tablet_manager.publish_rowset(tablet_id, schema_hash, rowset)
    }

    /// The tablets to compact next: the ids of the first `COMPACTION_BATCH`
    /// candidates, in the order of descending scores.
    pub fn schedule_compaction(&self, ctype: CompactionType) -> (ids: Vec<TabletId>)
        requires
            self.wf(),
        ensures
            exists|candidates: Seq<Candidate>|
                {
                    &&& candidates.len() == self.tablet_manager@.dom().len()
                    &&& forall|i: int|
                        0 <= i < candidates.len() ==> self.tablet_manager.is_candidate(
                            #[trigger] candidates[i],
                        )
                    &&& forall|k: (TabletId, SchemaHash)|
                        self.tablet_manager@.contains_key(k) ==> #[trigger] TabletManager::names(
                            candidates,
                            k,
                        )
                    &&& crate::tablet::scores_descend(candidates)
                    &&& ids@.len() == (if candidates.len() <= COMPACTION_BATCH {
                        candidates.len()
                    } else {
                        COMPACTION_BATCH as nat
                    })
                    &&& forall|i: int| 0 <= i < ids@.len() ==> #[trigger] ids@[i] == candidates[i].0
                },
    {
        let candidates = self.tablet_manager.collect_compaction_candidates(ctype);
        let mut ids: Vec<TabletId> = Vec::new();
        let mut i: usize = 0;
        while i < candidates.len() && i < COMPACTION_BATCH
            invariant
                i <= candidates.len(),
                i <= COMPACTION_BATCH,
                ids@.len() == i,
                forall|k: int| 0 <= k < i ==> #[trigger] ids@[k] == candidates@[k].0,
            decreases candidates.len() - i,
        {
            ids.push(candidates[i].0);
            i += 1;
        }
        ids
    }

    /// The number of tablets registered.
    pub fn tablet_count(&self) -> (n: usize)
        requires
            self.wf(),
        ensures
            self.tablet_manager@.dom().finite(),
            n == (if self.tablet_manager@.dom().len() <= usize::MAX {
                self.tablet_manager@.dom().len()
            } else {
                usize::MAX as nat
            }),
    {
        self.tablet_manager.tablet_count()
    }

    /// The path of a segment file under the data directory.
    pub fn segment_path(&self, tablet_id: TabletId, rowset_id: RowsetId, seg_idx: u32) -> (path:
        String)
        ensures
            path@ == segment_path_text(self.data_dir@, tablet_id, rowset_id, seg_idx),
    {
        let mut path = self.data_dir.clone();
        path.append("/");
        push_decimal(&mut path, tablet_id);
        path.append("/");
        push_decimal(&mut path, rowset_id);
        path.append("_");
        push_decimal(&mut path, seg_idx as u64);
        path.append(".seg");
        path
    }
}

} // verus!
