//! Allocator statistics, in bytes.

use vstd::prelude::*;

verus! {

/// The process allocator, whose statistics the node reports.
pub struct Allocator;

/// A snapshot of the allocator's counters, in bytes.
#[derive(Debug, Clone)]
pub struct AllocStats {
    pub allocated: u64,
    pub active: u64,
    pub resident: u64,
    pub mapped: u64,
    pub metadata: u64,
    pub retained: u64,
}

} // verus!
