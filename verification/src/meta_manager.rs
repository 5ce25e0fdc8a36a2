//! Routing metadata of tables, shards and replication groups.

use vstd::prelude::*;
use crate::engine::{ShardId, TableId};
use crate::log_service::RgId;
use crate::storage_layer::Engine;

verus! {

/// The default replication group, home of the system tables.
pub const DEFAULT_RG: RgId = 0;

/// Where a table's shard lives: the engine and shard that serve it.
#[derive(Clone)]
pub struct ShardMeta {
    pub table_id: TableId,
    pub shard_id: ShardId,
    pub engine: Engine,
}

/// A replication group: its replication factor and members.
#[derive(Clone)]
pub struct ReplicaGroup {
    pub rg_id: RgId,
    pub rf: u32,
    pub members: Vec<u64>,
}

} // verus!
