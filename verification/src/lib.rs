//! A column-family emulation and batched-mutation layer for a flat, ordered,
//! transactional key-value store. Several logical keyspaces ("column
//! families") are multiplexed onto one physical keyspace by a verified key
//! codec; bounded cursors, a buffered write batch with save points, and a
//! sorted-table adapter are built on top of it.

pub mod compact;
pub mod db_vector;
pub mod engine;
pub mod error;
pub mod import;
pub mod iterator;
pub mod keyspace;
pub mod order;
pub mod perf_context;
pub mod snapshot;
pub mod sst;
pub mod table_properties;
pub mod utils;
pub mod write_batch;
