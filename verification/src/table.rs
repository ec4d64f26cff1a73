//! Tables and the catalog of databases.

use crate::common::{DbId, OlapError, TableId, TabletId};
use crate::meta::TabletSchema;
use crate::partition::{PartitionFault, PartitionInfo, NANOS_PER_SECOND};
use crate::text::decimal;
use std::collections::HashMap;
use vstd::prelude::*;

verus! {

broadcast use vstd::std_specs::hash::group_hash_axioms;

/// A table: its schema and its partitions.
pub struct OlapTable {
    pub table_id: TableId,
    pub table_name: String,
    pub schema: TabletSchema,
    pub partition_info: PartitionInfo,
}

impl OlapTable {
    /// Whether every partition of the table has at least one bucket.
    pub open spec fn wf(&self) -> bool {
        forall|pid: u64| #[trigger]
            self.partition_info.partitions@.contains_key(pid)
                ==> self.partition_info.partitions@[pid].bucket_type.buckets() > 0
    }

    pub fn new(
        table_id: TableId,
        table_name: &str,
        schema: TabletSchema,
        partition_info: PartitionInfo,
    ) -> (t: Self)
        ensures
            t.table_id == table_id,
            t.table_name@ == table_name@,
            t.schema == schema,
            t.partition_info == partition_info,
    {
        Self { table_id, table_name: table_name.to_owned(), schema, partition_info }
    }

    /// The tablet of a row: the partition key finds the partition, the sort
    /// key finds the bucket, and the bucket finds the tablet in the base
    /// index of the partition.
    ///
    /// Fails with `PartitionNotFound` where no partition is found, and,
    /// carrying the sort key, where the base index has no such bucket.
    /// Under random bucketing the bucket follows the nanoseconds that the
    /// clock shows within the second.
    pub fn tablet_for_row(&self, partition_key: &str, sort_key: &str) -> (r: Result<
        TabletId,
        OlapError,
    >)
        requires
            self.wf(),
        ensures
            match self.partition_info.found(partition_key@) {
                Ok(p) => exists|nanos: u32|
                    nanos < NANOS_PER_SECOND && (match p.base_index.tablet_of(
                        #[trigger] p.bucket_type.bucket_at(sort_key@, nanos),
                    ) {
                        Some(t) => r == Ok::<TabletId, OlapError>(t),
                        None => r is Err && r->Err_0 is PartitionNotFound
                            && r->Err_0->PartitionNotFound_0@ == sort_key@,
                    }),
                Err(PartitionFault::NoRule) => r is Err && r->Err_0 is PartitionNotFound
                    && r->Err_0->PartitionNotFound_0@ == partition_key@,
                Err(PartitionFault::NoPartition(pid)) => r is Err && r->Err_0 is PartitionNotFound
                    && r->Err_0->PartitionNotFound_0@ == "pid="@ + decimal(pid as nat),
            },
    {
        let partition = match self.partition_info.find_partition(partition_key) {
            Ok(p) => p,
            Err(e) => {
                return Err(e);
            },
        };
        proof {
            let pid = self.partition_info.policy.resolved(partition_key@)->0;
            assert(self.partition_info.partitions@.contains_key(pid));
        }
        match partition.tablet_for_key(sort_key) {
            Some(t) => Ok(t),
            None => Err(OlapError::PartitionNotFound(sort_key.to_owned())),
        }
    }
}

struct Database {
    db_id: DbId,
    db_name: String,
    tables: HashMap<TableId, OlapTable>,
}

/// The state of one database of the catalog.
pub struct DatabaseState {
    pub name: Seq<char>,
    pub tables: Map<TableId, OlapTable>,
}

/// The catalog: databases and their tables.
pub struct CatalogManager {
    databases: HashMap<DbId, Database>,
}

impl View for CatalogManager {
    type V = Map<DbId, DatabaseState>;

    closed spec fn view(&self) -> Map<DbId, DatabaseState> {
        Map::new(
            |d: DbId| self.databases@.contains_key(d),
            |d: DbId|
                DatabaseState {
                    name: self.databases@[d].db_name@,
                    tables: self.databases@[d].tables@,
                },
        )
    }
}

impl CatalogManager {
    /// A catalog without databases.
    pub fn new() -> (c: Self)
        ensures
            c@ == Map::<DbId, DatabaseState>::empty(),
    {
        let c = Self { databases: HashMap::new() };
        assert(c@ =~= Map::<DbId, DatabaseState>::empty());
        c
    }

    /// Creates a database without tables, in place of any database of the
    /// same id.
    pub fn create_database(&mut self, db_id: DbId, db_name: &str) -> (r: Result<(), OlapError>)
        ensures
            r is Ok,
            final(self)@ == old(self)@.insert(
                db_id,
                DatabaseState { name: db_name@, tables: Map::<TableId, OlapTable>::empty() },
            ),
    {
        self.databases.insert(
            db_id,
            Database { db_id, db_name: db_name.to_owned(), tables: HashMap::new() },
        );
        assert(self@ =~= old(self)@.insert(
            db_id,
            DatabaseState { name: db_name@, tables: Map::<TableId, OlapTable>::empty() },
        ));
        Ok(())
    }

    /// Adds a table to a database, in place of any table of the same id.
    ///
    /// Fails with `DatabaseNotFound` where the catalog has no such database.
    pub fn add_table(&mut self, db_id: DbId, table: OlapTable) -> (r: Result<(), OlapError>)
        ensures
            !old(self)@.contains_key(db_id) ==> r == Err::<(), OlapError>(
                OlapError::DatabaseNotFound(db_id),
            ) && final(self)@ == old(self)@,
            old(self)@.contains_key(db_id) ==> r is Ok && final(self)@ == old(self)@.insert(
                db_id,
                DatabaseState {
                    name: old(self)@[db_id].name,
                    tables: old(self)@[db_id].tables.insert(table.table_id, table),
                },
            ),
    {
        let mut db = match self.databases.remove(&db_id) {
            Some(db) => db,
            None => {
                assert(self@ =~= old(self)@);
                return Err(OlapError::DatabaseNotFound(db_id));
            },
        };
        let ghost id = table.table_id;
        db.tables.insert(table.table_id, table);
        self.databases.insert(db_id, db);
        assert(self@ =~= old(self)@.insert(
            db_id,
            DatabaseState {
                name: old(self)@[db_id].name,
                tables: old(self)@[db_id].tables.insert(id, table),
            },
        ));
        Ok(())
    }

    /// The table of a database.
    ///
    /// Fails with `DatabaseNotFound` where the catalog has no such database
    /// and with `TableNotFound` where the database has no such table.
    pub fn get_table(&self, db_id: DbId, table_id: TableId) -> (r: Result<&OlapTable, OlapError>)
        ensures
            !self@.contains_key(db_id) ==> r == Err::<&OlapTable, OlapError>(
                OlapError::DatabaseNotFound(db_id),
            ),
            self@.contains_key(db_id) && !self@[db_id].tables.contains_key(table_id) ==> r == Err::<
                &OlapTable,
                OlapError,
            >(OlapError::TableNotFound(db_id, table_id)),
            self@.contains_key(db_id) && self@[db_id].tables.contains_key(table_id) ==> r is Ok
                && *r->Ok_0 == self@[db_id].tables[table_id],
    {
        let db = match self.databases.get(&db_id) {
            Some(db) => db,
            None => {
                return Err(OlapError::DatabaseNotFound(db_id));
            },
        };
        match db.tables.get(&table_id) {
            Some(t) => Ok(t),
            None => Err(OlapError::TableNotFound(db_id, table_id)),
        }
    }

    /// Removes a table from a database.
    ///
    /// Fails with `DatabaseNotFound` where the catalog has no such database
    /// and with `TableNotFound` where the database has no such table.
    pub fn drop_table(&mut self, db_id: DbId, table_id: TableId) -> (r: Result<(), OlapError>)
        ensures
            !old(self)@.contains_key(db_id) ==> r == Err::<(), OlapError>(
                OlapError::DatabaseNotFound(db_id),
            ) && final(self)@ == old(self)@,
            old(self)@.contains_key(db_id) && !old(self)@[db_id].tables.contains_key(table_id)
                ==> r == Err::<(), OlapError>(OlapError::TableNotFound(db_id, table_id))
                && final(self)@ == old(self)@,
            old(self)@.contains_key(db_id) && old(self)@[db_id].tables.contains_key(table_id)
                ==> r is Ok && final(self)@ == old(self)@.insert(
                db_id,
                DatabaseState {
                    name: old(self)@[db_id].name,
                    tables: old(self)@[db_id].tables.remove(table_id),
                },
            ),
    {
        let mut db = match self.databases.remove(&db_id) {
            Some(db) => db,
            None => {
                assert(self@ =~= old(self)@);
                return Err(OlapError::DatabaseNotFound(db_id));
            },
        };
        let removed = db.tables.remove(&table_id);
        self.databases.insert(db_id, db);
        match removed {
            Some(_) => {
                assert(self@ =~= old(self)@.insert(
                    db_id,
                    DatabaseState {
                        name: old(self)@[db_id].name,
                        tables: old(self)@[db_id].tables.remove(table_id),
                    },
                ));
                Ok(())
            },
            None => {
                assert(old(self)@[db_id].tables.remove(table_id) =~= old(self)@[db_id].tables);
                assert(self@ =~= old(self)@);
                Err(OlapError::TableNotFound(db_id, table_id))
            },
        }
    }
}

impl Default for CatalogManager {
    fn default() -> (c: Self)
        ensures
            c@ == Map::<DbId, DatabaseState>::empty(),
    {
        Self::new()
    }
}

} // verus!
