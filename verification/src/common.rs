//! Identifiers, versions, small enumerations and the error type shared by
//! every component.

use crate::text::{decimal, push_decimal, push_signed_decimal, signed_decimal};
use vstd::prelude::*;
use vstd::string::StringExecFns;

verus! {

pub type TabletId = u64;

pub type PartitionId = u64;

pub type SchemaHash = u32;

pub type DbId = u64;

pub type TableId = u64;

pub type RowsetId = u64;

/// The closed interval `[start, end]` of versions that one rowset covers.
#[derive(Debug, Clone, Copy, PartialEq, Eq, Hash, Structural)]
pub struct Version {
    pub start: i64,
    pub end: i64,
}

impl Version {
    /// The rendering `[start,end]`.
    pub open spec fn text(self) -> Seq<char> {
        "["@ + signed_decimal(self.start as int) + ","@ + signed_decimal(self.end as int) + "]"@
    }

    /// Whether the interval holds exactly one version.
    pub open spec fn is_point(self) -> bool {
        self.start == self.end
    }

    pub fn new(start: i64, end: i64) -> (v: Self)
        ensures
            v.start == start,
            v.end == end,
    {
        Self { start, end }
    }

    /// The interval that holds `v` alone.
    pub fn point(v: i64) -> (r: Self)
        ensures
            r.start == v,
            r.end == v,
            r.is_point(),
    {
        Self::new(v, v)
    }

    /// Renders the interval as `[start,end]`.
    pub fn to_text(&self) -> (s: String)
        ensures
            s@ == self.text(),
    {
        let mut s = String::from_str("[");
        push_signed_decimal(&mut s, self.start);
        s.append(",");
        push_signed_decimal(&mut s, self.end);
        s.append("]");
        s
    }
}

#[derive(Debug, Clone, Copy, PartialEq, Eq, Structural)]
pub enum KeysType {
    /// Value columns carry an aggregate function.
    Aggregate,
    /// Rows with the same key keep the newest version.
    Unique,
    /// Every row is kept.
    Duplicate,
}

#[derive(Debug, Clone, Copy, PartialEq, Eq, Structural)]
pub enum ColumnType {
    Int8,
    Int16,
    Int32,
    Int64,
    Float32,
    Float64,
    Varchar,
    Date,
}

#[derive(Debug, Clone, Copy, PartialEq, Eq, Structural)]
pub enum AggregateType {
    /// The column is not aggregated.
    NoAggregate,
    Sum,
    Max,
    Min,
    Replace,
}

#[derive(Debug, Clone, Copy, PartialEq, Eq, Structural)]
pub enum StorageMedium {
    Hdd,
    Ssd,
}

#[derive(Debug, Clone, Copy, PartialEq, Eq, Structural)]
pub enum CompactionType {
    Base,
    Cumulative,
}

/// Every failure the engine reports.
#[derive(Debug, Clone, PartialEq, Eq)]
pub enum OlapError {
    /// The registry holds no tablet under the requested key.
    TabletNotFound(TabletId),
    /// The database exists but holds no such table.
    TableNotFound(DbId, TableId),
    /// The catalog holds no such database.
    DatabaseNotFound(DbId),
    /// No range, list entry or bucket matches the key.
    PartitionNotFound(String),
    /// A rowset with the same id was published before.
    VersionExists(Version),
    /// No chain of rowsets covers the requested version range.
    MissingVersions(String),
    /// Truncated or invalid segment bytes.
    SegmentIo(String),
    /// Malformed codec payload.
    Encoding(String),
    /// A block could not be compressed or decompressed.
    Compression(String),
    /// A page or footer checksum does not match its bytes.
    ChecksumMismatch,
    /// A row does not have one value per column.
    SchemaMismatch,
    /// Reserved for features that are not provided.
    Unsupported(String),
}

impl OlapError {
    /// The human-readable message of the error.
    pub open spec fn text(self) -> Seq<char> {
        match self {
            OlapError::TabletNotFound(id) => "tablet not found: tablet_id="@ + decimal(id as nat),
            OlapError::TableNotFound(db, table) => "table not found: db_id="@ + decimal(db as nat)
                + " table_id="@ + decimal(table as nat),
            OlapError::DatabaseNotFound(db) => "database not found: db_id="@ + decimal(db as nat),
            OlapError::PartitionNotFound(key) => "partition not found for key: "@ + key@,
            OlapError::VersionExists(v) => "version already exists: "@ + v.text(),
            OlapError::MissingVersions(range) => "missing versions in range "@ + range@,
            OlapError::SegmentIo(msg) => "segment I/O error: "@ + msg@,
            OlapError::Encoding(msg) => "encoding error: "@ + msg@,
            OlapError::Compression(msg) => "compression error: "@ + msg@,
            OlapError::ChecksumMismatch => "checksum mismatch"@,
            OlapError::SchemaMismatch => "schema mismatch"@,
            OlapError::Unsupported(msg) => "unsupported: "@ + msg@,
        }
    }

    /// Renders the message of the error.
    pub fn to_text(&self) -> (s: String)
        ensures
            s@ == self.text(),
    {
        match self {
            OlapError::TabletNotFound(id) => {
                let mut s = String::from_str("tablet not found: tablet_id=");
                push_decimal(&mut s, *id);
                s
            },
            OlapError::TableNotFound(db, table) => {
                let mut s = String::from_str("table not found: db_id=");
                push_decimal(&mut s, *db);
                s.append(" table_id=");
                push_decimal(&mut s, *table);
                s
            },
            OlapError::DatabaseNotFound(db) => {
                let mut s = String::from_str("database not found: db_id=");
                push_decimal(&mut s, *db);
                s
            },
            OlapError::PartitionNotFound(key) => String::from_str(
                "partition not found for key: ",
            ).concat(key.as_str()),
            OlapError::VersionExists(v) => {
                let text = v.to_text();
                String::from_str("version already exists: ").concat(text.as_str())
            },
            OlapError::MissingVersions(range) => String::from_str(
                "missing versions in range ",
            ).concat(range.as_str()),
            OlapError::SegmentIo(msg) => String::from_str("segment I/O error: ").concat(
                msg.as_str(),
            ),
            OlapError::Encoding(msg) => String::from_str("encoding error: ").concat(msg.as_str()),
            OlapError::Compression(msg) => String::from_str("compression error: ").concat(
                msg.as_str(),
            ),
            OlapError::ChecksumMismatch => String::from_str("checksum mismatch"),
            OlapError::SchemaMismatch => String::from_str("schema mismatch"),
            OlapError::Unsupported(msg) => String::from_str("unsupported: ").concat(msg.as_str()),
        }
    }
}

} // verus!
