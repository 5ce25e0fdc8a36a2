use std::sync::Arc;
use bytes::Bytes;
use todb::lsm_state::{LevelMeta, LsmState, SstMeta};
use todb::memtable::MemTable;

fn meta(id: u64, lo: &str, hi: &str) -> SstMeta {
    SstMeta { id, key_range: (Bytes::from(lo.to_string()), Bytes::from(hi.to_string())), file_size: 100 * id }
}

fn full_state() -> LsmState {
    let mut mem = MemTable::new();
    mem.put(Bytes::from("k"), Bytes::from("v"));
    LsmState { active_mem: Arc::new(mem), imm_memtables: Vec::new(), levels: Vec::new() }
}

#[test]
fn new_state_is_empty() {
    let s = LsmState::new();
    assert!(s.active_mem.is_empty());
    assert!(s.imm_memtables.is_empty());
    assert!(s.levels.is_empty());
    assert!(s.oldest_imm().is_none());
}

#[test]
fn switch_waits_for_the_size_limit() {
    let s = full_state();
    assert!(s.switch_memtable(1000).is_none());
    assert!(s.switch_memtable(2).is_some());
}

#[test]
fn switched_memtables_are_flushed_oldest_first() {
    let s0 = full_state();
    let first = s0.active_mem.clone();
    let mut s1 = s0.switch_memtable(0).unwrap();
    assert!(s1.active_mem.is_empty());
    assert_eq!(s1.imm_memtables.len(), 1);
    s1.active_mem = Arc::new({
        let mut m = MemTable::new();
        m.put(Bytes::from("x"), Bytes::from("y"));
        m
    });
    let second = s1.active_mem.clone();
    let s2 = s1.switch_memtable(0).unwrap();
    assert_eq!(s2.imm_memtables.len(), 2);
    assert!(Arc::ptr_eq(&s2.imm_memtables[0], &second));
    assert!(Arc::ptr_eq(&s2.oldest_imm().unwrap(), &first));

    let s3 = s2.with_flushed_oldest(meta(1, "k", "k"));
    assert_eq!(s3.imm_memtables.len(), 1);
    assert!(Arc::ptr_eq(&s3.oldest_imm().unwrap(), &second));
    assert_eq!(s3.levels.len(), 1);
    assert_eq!(s3.levels[0].level, 0);
    assert_eq!(s3.levels[0].ssts.len(), 1);
    assert_eq!(s3.levels[0].ssts[0].id, 1);

    let s4 = s3.with_flushed_oldest(meta(2, "x", "x"));
    assert!(s4.imm_memtables.is_empty());
    let ids: Vec<u64> = s4.levels[0].ssts.iter().map(|m| m.id).collect();
    assert_eq!(ids, vec![1, 2]);
    assert_eq!(s4.levels[0].ssts[1].key_range.0, Bytes::from("x"));
}

#[test]
fn flushed_sst_joins_existing_level_zero() {
    let mut s = LsmState::new();
    s.levels.push(LevelMeta { level: 0, ssts: vec![meta(7, "a", "b")] });
    s.levels.push(LevelMeta { level: 1, ssts: vec![meta(3, "c", "d")] });
    let t = s.with_flushed_oldest(meta(9, "e", "f"));
    assert_eq!(t.levels.len(), 2);
    let l0: Vec<u64> = t.levels[0].ssts.iter().map(|m| m.id).collect();
    assert_eq!(l0, vec![7, 9]);
    assert_eq!(t.levels[1].ssts[0].id, 3);
    assert_eq!(t.levels[1].level, 1);
}

#[test]
fn engine_and_group_options_have_documented_defaults() {
    let o = todb::lsm_state::LsmEngineOption::default();
    assert_eq!(o.data_dir, "./data");
    assert_eq!(o.block_size, 4096);
    assert_eq!(o.flush_threads, 2);
    assert_eq!(o.compaction_threads, 2);
    assert_eq!(o.flush_interval, 10_000);
    let g = todb::log_service::RgOption::default();
    assert_eq!(g.rf, 1);
    assert_eq!(g.wal_buffer_size, 1024 * 1024);
    assert_eq!(g.wal_sync_interval, 100);
    assert_eq!(g.wal_segment_size, 64 * 1024 * 1024);
}
