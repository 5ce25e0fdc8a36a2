//! Options of a replication group's write-ahead log.

use vstd::prelude::*;

verus! {

pub type RgId = u64;

/// Per-replication-group options, applied to the group's log store.
#[derive(Clone)]
pub struct RgOption {
    pub rf: u32,
    pub wal_buffer_size: usize,
    /// Interval between log syncs, in milliseconds.
    pub wal_sync_interval: u64,
    pub wal_segment_size: u64,
}

impl Default for RgOption {
    /// One replica, a 1 MiB buffer, a sync every 100 ms, 64 MiB segments.
    fn default() -> (o: Self)
        ensures
            o.rf == 1,
            o.wal_buffer_size == 1024 * 1024,
            o.wal_sync_interval == 100,
            o.wal_segment_size == 64 * 1024 * 1024,
    {
        RgOption {
            rf: 1,
            wal_buffer_size: 1024 * 1024,
            wal_sync_interval: 100,
            wal_segment_size: 64 * 1024 * 1024,
        }
    }
}

} // verus!
