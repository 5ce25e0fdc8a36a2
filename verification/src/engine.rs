//! Shard and table identifiers, and the per-table option of each engine.

use vstd::prelude::*;
use crate::lsm_state::LsmTableOption;

verus! {

/// Identifies a shard within the storage layer.
pub type ShardId = u64;

/// Identifies a table.
pub type TableId = u64;

pub const DEFAULT_SHARD: ShardId = 0;

/// Per-table option, one variant per engine.
#[derive(Clone)]
pub enum TableOption {
    LsmTree(LsmTableOption),
}

} // verus!
