//! Storage primitives of the todb key-value engine: byte codecs, block and
//! SST builders, block iterators, merging iterators, the memtable, and the
//! small common types (error codes, memory contexts, options).

pub mod block;
pub mod buf;
pub mod builder;
pub mod catalog;
pub mod codec;
pub mod common;
pub mod disk_manager;
pub mod engine;
pub mod errors;
pub mod format;
pub mod iterators;
pub mod key;
pub mod log_service;
pub mod lsm_iter;
pub mod lsm_state;
pub mod lsm_store;
pub mod memory;
pub mod memtable;
pub mod skiplist;
pub mod meta_manager;
pub mod row_data;
pub mod row_key;
pub mod std_types;
pub mod storage_layer;
