//! Engine kinds and their engine-level options.

use vstd::prelude::*;
use crate::lsm_state::LsmEngineOption;

verus! {

/// Engine kind; routes each shard to its engine.
#[derive(Eq, PartialEq, Hash, Clone, Debug, Structural)]
pub enum Engine {
    LsmTree,
}

/// Engine-level option, one variant per engine.
#[derive(Clone)]
pub enum EngineOption {
    LsmTree(LsmEngineOption),
}

} // verus!
