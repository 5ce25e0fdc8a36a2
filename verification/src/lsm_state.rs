//! The LSM tree's state (the active memtable, the immutable memtables
//! waiting to be flushed, the SST levels), its transitions, and the options
//! of the engine and of its tables.

use vstd::prelude::*;
use std::sync::Arc;
use bytes::Bytes;
use crate::buf::bytes_view;
use crate::memtable::MemTable;
use crate::std_types::share;

verus! {

/// Metadata of a flushed SST file.
pub struct SstMeta {
    pub id: u64,
    /// The smallest and the largest key in the file.
    pub key_range: (Bytes, Bytes),
    pub file_size: u64,
}

impl View for SstMeta {
    /// Id, smallest key, largest key, file size.
    type V = (u64, Seq<u8>, Seq<u8>, u64);

    open spec fn view(&self) -> (u64, Seq<u8>, Seq<u8>, u64) {
        (self.id, bytes_view(self.key_range.0), bytes_view(self.key_range.1), self.file_size)
    }
}

impl Clone for SstMeta {
    fn clone(&self) -> (c: Self)
        ensures
            c@ == self@,
    {
        SstMeta {
            id: self.id,
            key_range: (self.key_range.0.clone(), self.key_range.1.clone()),
            file_size: self.file_size,
        }
    }
}

/// The SST files of one level, in order.
pub struct LevelMeta {
    pub level: u32,
    pub ssts: Vec<SstMeta>,
}

/// The views of a sequence of SST metadata.
pub open spec fn metas_view(ssts: Seq<SstMeta>) -> Seq<(u64, Seq<u8>, Seq<u8>, u64)> {
    Seq::new(ssts.len(), |i: int| ssts[i]@)
}

impl View for LevelMeta {
    type V = (u32, Seq<(u64, Seq<u8>, Seq<u8>, u64)>);

    open spec fn view(&self) -> (u32, Seq<(u64, Seq<u8>, Seq<u8>, u64)>) {
        (self.level, metas_view(self.ssts@))
    }
}

/// A copy of a sequence of SST metadata.
fn copy_metas(ssts: &Vec<SstMeta>) -> (c: Vec<SstMeta>)
    ensures
        metas_view(c@) == metas_view(ssts@),
{
    let mut out: Vec<SstMeta> = Vec::new();
    let mut i: usize = 0;
    while i < ssts.len()
        invariant
            i <= ssts@.len(),
            out@.len() == i,
            forall|k: int| 0 <= k < i ==> (#[trigger] out@[k])@ == ssts@[k]@,
        decreases ssts@.len() - i,
    {
        out.push(ssts[i].clone());
        i = i + 1;
    }
    assert(metas_view(out@) =~= metas_view(ssts@));
    out
}

impl Clone for LevelMeta {
    fn clone(&self) -> (c: Self)
        ensures
            c@ == self@,
    {
        LevelMeta { level: self.level, ssts: copy_metas(&self.ssts) }
    }
}

/// The views of a sequence of levels.
pub open spec fn levels_view(levels: Seq<LevelMeta>) -> Seq<(u32, Seq<(u64, Seq<u8>, Seq<u8>, u64)>)> {
    Seq::new(levels.len(), |i: int| levels[i]@)
}

/// A copy of a sequence of levels.
fn copy_levels(levels: &Vec<LevelMeta>) -> (c: Vec<LevelMeta>)
    ensures
        levels_view(c@) == levels_view(levels@),
{
    let mut out: Vec<LevelMeta> = Vec::new();
    let mut i: usize = 0;
    while i < levels.len()
        invariant
            i <= levels@.len(),
            out@.len() == i,
            forall|k: int| 0 <= k < i ==> (#[trigger] out@[k])@ == levels@[k]@,
        decreases levels@.len() - i,
    {
        out.push(levels[i].clone());
        i = i + 1;
    }
    assert(levels_view(out@) =~= levels_view(levels@));
    out
}

/// The memtable flushed next: the last of the immutable memtables, which
/// are kept newest first.
pub open spec fn oldest(imms: Seq<Arc<MemTable>>) -> Option<Arc<MemTable>> {
    if imms.len() > 0 {
        Some(imms.last())
    } else {
        None
    }
}

/// The levels after a flushed SST joins level 0 (created if there is no
/// level yet).
pub open spec fn with_l0_sst(
    levels: Seq<(u32, Seq<(u64, Seq<u8>, Seq<u8>, u64)>)>,
    meta: (u64, Seq<u8>, Seq<u8>, u64),
) -> Seq<(u32, Seq<(u64, Seq<u8>, Seq<u8>, u64)>)> {
    if levels.len() == 0 {
        seq![(0u32, seq![meta])]
    } else {
        levels.update(0, (levels[0].0, levels[0].1.push(meta)))
    }
}

/// A snapshot of the LSM tree. Immutable memtables are kept newest first
/// (`imm_memtables[0]` was switched out last) and flushed oldest first
/// (`imm_memtables.last()` is next).
pub struct LsmState {
    pub active_mem: Arc<MemTable>,
    pub imm_memtables: Vec<Arc<MemTable>>,
    pub levels: Vec<LevelMeta>,
}

impl LsmState {
    /// The initial state: an empty active memtable, nothing to flush, no
    /// level.
    pub fn new() -> (s: Self)
        ensures
            s.active_mem@ == Map::<Seq<u8>, Option<Seq<u8>>>::empty(),
            s.imm_memtables@.len() == 0,
            s.levels@.len() == 0,
    {
        LsmState { active_mem: Arc::new(MemTable::new()), imm_memtables: Vec::new(), levels: Vec::new() }
    }

    /// The state after switching the active memtable out once it has reached
    /// `memtable_size_limit`: a fresh active memtable, the old one in front of
    /// the immutable ones, the levels unchanged. `None` while the active
    /// memtable is below the limit (someone else switched it already).
    pub fn switch_memtable(&self, memtable_size_limit: usize) -> (r: Option<LsmState>)
        ensures
            r is None <==> (*self.active_mem).memory() < memtable_size_limit,
            r matches Some(n) ==> {
                &&& n.active_mem@ == Map::<Seq<u8>, Option<Seq<u8>>>::empty()
                &&& (*n.active_mem).memory() == 0
                &&& n.imm_memtables@ == seq![self.active_mem] + self.imm_memtables@
                &&& levels_view(n.levels@) == levels_view(self.levels@)
            },
    {
        if self.active_mem.estimate_memory() < memtable_size_limit {
            return None;
        }
        let mut imms: Vec<Arc<MemTable>> = Vec::new();
        imms.push(share(&self.active_mem));
        let mut i: usize = 0;
        while i < self.imm_memtables.len()
            invariant
                i <= self.imm_memtables@.len(),
                imms@ == seq![self.active_mem] + self.imm_memtables@.take(i as int),
            decreases self.imm_memtables@.len() - i,
        {
            imms.push(share(&self.imm_memtables[i]));
            assert(self.imm_memtables@.take(i + 1) =~= self.imm_memtables@.take(i as int).push(
                self.imm_memtables@[i as int],
            ));
            i = i + 1;
        }
        assert(self.imm_memtables@.take(self.imm_memtables@.len() as int) =~= self.imm_memtables@);
        Some(LsmState {
            active_mem: Arc::new(MemTable::new()),
            imm_memtables: imms,
            levels: copy_levels(&self.levels),
        })
    }

    /// The immutable memtable to flush next, if any.
    pub fn oldest_imm(&self) -> (r: Option<Arc<MemTable>>)
        ensures
            r == oldest(self.imm_memtables@),
    {
        let n = self.imm_memtables.len();
        if n == 0 {
            None
        } else {
            Some(share(&self.imm_memtables[n - 1]))
        }
    }

    /// The state after the oldest immutable memtable was flushed to the SST
    /// described by `meta`: that memtable leaves the queue and the SST joins
    /// level 0.
    pub fn with_flushed_oldest(&self, meta: SstMeta) -> (r: LsmState)
        ensures
            r.active_mem == self.active_mem,
            r.imm_memtables@ == (if self.imm_memtables@.len() > 0 {
                self.imm_memtables@.drop_last()
            } else {
                self.imm_memtables@
            }),
            levels_view(r.levels@) == with_l0_sst(levels_view(self.levels@), meta@),
    {
        let n = self.imm_memtables.len();
        let keep: usize = if n > 0 { n - 1 } else { 0 };
        let mut imms: Vec<Arc<MemTable>> = Vec::new();
        let mut i: usize = 0;
        while i < keep
            invariant
                keep <= self.imm_memtables@.len(),
                i <= keep,
                imms@ == self.imm_memtables@.take(i as int),
            decreases keep - i,
        {
            imms.push(share(&self.imm_memtables[i]));
            assert(self.imm_memtables@.take(i + 1) =~= self.imm_memtables@.take(i as int).push(
                self.imm_memtables@[i as int],
            ));
            i = i + 1;
        }
        assert(self.imm_memtables@.len() > 0 ==> self.imm_memtables@.take(keep as int)
            =~= self.imm_memtables@.drop_last());
        assert(self.imm_memtables@.len() == 0 ==> self.imm_memtables@.take(keep as int)
            =~= self.imm_memtables@);
        let ghost mv = meta@;
        let mut levels = copy_levels(&self.levels);
        if levels.len() == 0 {
            let mut ssts: Vec<SstMeta> = Vec::new();
            ssts.push(meta);
            levels.push(LevelMeta { level: 0, ssts });
            assert(metas_view(levels@[0].ssts@) =~= seq![mv]);
            assert(levels_view(levels@) =~= seq![(0u32, seq![mv])]);
        } else {
            let mut first = levels.remove(0);
            let ghost before = first@;
            first.ssts.push(meta);
            assert(metas_view(first.ssts@) =~= before.1.push(mv));
            levels.insert(0, first);
            assert(levels_view(levels@) =~= with_l0_sst(levels_view(self.levels@), mv));
        }
        LsmState { active_mem: share(&self.active_mem), imm_memtables: imms, levels }
    }
}

/// Switching the active memtable out never changes which memtable is
/// flushed next while others are waiting; with none waiting, the one just
/// switched out is next.
pub proof fn lemma_switch_keeps_flush_order(active: Arc<MemTable>, imms: Seq<Arc<MemTable>>)
    ensures
        oldest(seq![active] + imms) == (if imms.len() > 0 {
            oldest(imms)
        } else {
            Some(active)
        }),
{
}

/// Flushing takes the oldest memtable off the queue and leaves the others
/// in their order; the memtable flushed after it is the next oldest.
pub proof fn lemma_flush_takes_oldest(imms: Seq<Arc<MemTable>>)
    requires
        imms.len() > 0,
    ensures
        oldest(imms) == Some(imms[imms.len() - 1]),
        imms.drop_last() + seq![imms.last()] == imms,
        imms.len() > 1 ==> oldest(imms.drop_last()) == Some(imms[imms.len() - 2]),
{
    assert(imms.drop_last() + seq![imms.last()] =~= imms);
}

/// Engine-level options (one set per engine).
#[derive(Clone)]
pub struct LsmEngineOption {
    /// Directory of the engine's files.
    pub data_dir: String,
    pub block_size: usize,
    /// Worker threads of the cross-shard flush scheduler.
    pub flush_threads: usize,
    /// Compaction threads (reserved).
    pub compaction_threads: usize,
    /// Interval of the passive flush sweep, in milliseconds.
    pub flush_interval: u64,
}

impl Default for LsmEngineOption {
    /// Data under `./data`, 4 KiB blocks, two flush and two compaction
    /// threads, a sweep every ten seconds.
    fn default() -> (o: Self)
        ensures
            o.data_dir@ == "./data"@,
            o.block_size == 4096,
            o.flush_threads == 2,
            o.compaction_threads == 2,
            o.flush_interval == 10_000,
    {
        LsmEngineOption {
            data_dir: "./data".to_owned(),
            block_size: 4096,
            flush_threads: 2,
            compaction_threads: 2,
            flush_interval: 10_000,
        }
    }
}

/// Table-level options, shared by all shards of a table.
#[derive(Clone)]
pub struct LsmTableOption {
    pub partition_type: PartitionType,
    pub compression: CompressionStrategy,
    pub memtable_size_limit: usize,
    /// Immutable memtables allowed before writes force a flush.
    pub max_imm_memtables: usize,
}

impl Default for LsmTableOption {
    /// No partitioning, standard compaction, 4 MiB memtables, at most four
    /// immutable memtables.
    fn default() -> (o: Self)
        ensures
            o.partition_type == PartitionType::Unpartitioned,
            o.compression == CompressionStrategy::Standard,
            o.memtable_size_limit == 4 * 1024 * 1024,
            o.max_imm_memtables == 4,
    {
        LsmTableOption {
            partition_type: PartitionType::Unpartitioned,
            compression: CompressionStrategy::Standard,
            memtable_size_limit: 4 * 1024 * 1024,
            max_imm_memtables: 4,
        }
    }
}

#[derive(Clone, Copy, Debug, PartialEq, Eq, Structural)]
pub enum PartitionType {
    /// Not partitioned.
    Unpartitioned,
    Hash,
    Range,
}

/// How eagerly a table is compacted.
#[derive(Clone, Copy, Debug, PartialEq, Eq, Structural)]
pub enum CompressionStrategy {
    /// No compaction pressure.
    Disabled,
    Standard,
    Aggressive,
}

} // verus!
