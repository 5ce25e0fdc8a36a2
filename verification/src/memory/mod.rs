//! Memory accounting: per-component contexts and allocator statistics.

pub mod allocator;
pub mod context;

pub use allocator::{AllocStats, Allocator};
pub use context::{MemoryContext, MemoryContextId, MemoryContextTree};
