//! Chunk scheduling engine of a storage network: groups dataset chunks into
//! scheduling units, tracks worker health and capacity, and assigns units to
//! workers with replication.
pub mod bundler;
pub mod config;
pub mod data_chunk;
pub mod scheduler;
pub mod scheduling_unit;
pub mod storage;
pub mod worker_registry;
pub mod worker_state;
