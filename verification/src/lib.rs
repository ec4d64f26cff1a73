//! Core of a single-node, column-oriented analytical storage engine.
//!
//! The crate covers four areas: the segment file format with its codec
//! pipeline, the version graph used for consistent reads, the sharded tablet
//! registry with compaction scoring, and partition plus bucket routing.
//! Every function is stated over mathematical models of the data and proved
//! against them.

pub mod checksum;
pub mod column_writer;
pub mod common;
pub mod compression;
pub mod encoding;
pub mod field_type;
pub mod hash;
pub mod index;
pub mod meta;
pub mod page;
pub mod partition;
pub mod segment;
pub mod storage;
pub mod table;
pub mod tablet;
pub mod text;
pub mod wire;

