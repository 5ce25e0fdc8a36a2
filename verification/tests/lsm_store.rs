use std::sync::Arc;

use bytes::Bytes;
use todb::block::{InMemoryBlockReader, InMemoryBlockWriter};
use todb::builder::sst::SstBuilder;
use todb::builder::{DefaultSstWriter, SstOption};
use todb::iterators::scan_iter::ScanIter;
use todb::iterators::sst_iter::SstIter;
use todb::iterators::storage_iter::{ForwardIter, IterRead};
use todb::lsm_iter::{LsmForwardScan, ScanBound};
use todb::lsm_state::{LevelMeta, LsmState, SstMeta};
use todb::lsm_store::build_merged_iter;
use todb::memtable::{Entry, MemTable};

fn b(s: &str) -> Bytes {
    Bytes::from(s.to_string())
}

fn sst(entries: &[(&str, Option<&str>)]) -> SstIter<InMemoryBlockReader> {
    let option = SstOption::default().block_size(128);
    let mut builder =
        SstBuilder::new(DefaultSstWriter::new(InMemoryBlockWriter::new(), &option), option.clone());
    for (k, v) in entries {
        match v {
            Some(v) => builder.add(b(k), b(v)).unwrap(),
            None => builder.add_delete(b(k)).unwrap(),
        }
    }
    let (footer, writer) = builder.finish().unwrap();
    let reader = Arc::new(InMemoryBlockReader::new(Bytes::from(writer.into_inner().into_inner()), 128));
    SstIter::new(reader, footer, option).unwrap()
}

fn memtable(entries: &[(&str, Option<&str>)]) -> Arc<MemTable> {
    let mut m = MemTable::new();
    for (k, v) in entries {
        match v {
            Some(v) => m.put(b(k), b(v)),
            None => m.delete(b(k)),
        }
    }
    Arc::new(m)
}

fn meta(id: u64, lo: &str, hi: &str) -> SstMeta {
    SstMeta { id, key_range: (b(lo), b(hi)), file_size: 0 }
}

fn scan_all<S: ScanIter>(s: &mut S) -> Vec<(String, Option<String>)> {
    let mut out = vec![];
    while s.valid() {
        let k = String::from_utf8(s.key().unwrap().to_vec()).unwrap();
        let v = match s.value().unwrap() {
            Entry::Put(v) => Some(String::from_utf8(v).unwrap()),
            Entry::Delete => None,
        };
        out.push((k, v));
        s.next().unwrap();
    }
    out
}

#[test]
fn merged_iter_prefers_memtables_then_level_zero_then_deeper_levels() {
    let state = LsmState {
        active_mem: memtable(&[("b", Some("mem-b")), ("c", None)]),
        imm_memtables: vec![memtable(&[("a", Some("imm-a"))])],
        levels: vec![
            LevelMeta { level: 0, ssts: vec![meta(3, "a", "d")] },
            LevelMeta { level: 1, ssts: vec![meta(1, "d", "e"), meta(2, "f", "g")] },
        ],
    };
    let l0 = vec![sst(&[("a", Some("l0-a")), ("c", Some("l0-c")), ("d", Some("l0-d"))])];
    let ln = vec![vec![
        sst(&[("d", Some("l1-d")), ("e", Some("l1-e"))]),
        sst(&[("f", Some("l1-f")), ("g", None)]),
    ]];
    let merged = build_merged_iter(&state, l0, ln).unwrap();
    let mut scan = LsmForwardScan::new(merged, ScanBound::Unbounded, ScanBound::Unbounded);
    scan.init().unwrap();
    assert_eq!(
        scan_all(&mut scan),
        vec![
            ("a".to_string(), Some("imm-a".to_string())),
            ("b".to_string(), Some("mem-b".to_string())),
            ("c".to_string(), None),
            ("d".to_string(), Some("l0-d".to_string())),
            ("e".to_string(), Some("l1-e".to_string())),
            ("f".to_string(), Some("l1-f".to_string())),
            ("g".to_string(), None),
        ]
    );
}

// Level 0's merge yields every version of a key, the newest SST's first.
#[test]
fn merged_iter_prefers_the_newest_level_zero_sst() {
    let state = LsmState {
        active_mem: memtable(&[]),
        imm_memtables: vec![],
        levels: vec![LevelMeta { level: 0, ssts: vec![meta(1, "a", "b"), meta(2, "a", "a")] }],
    };
    let l0 = vec![sst(&[("a", Some("old-a")), ("b", Some("old-b"))]), sst(&[("a", Some("new-a"))])];
    let merged = build_merged_iter(&state, l0, vec![]).unwrap();
    let mut scan = LsmForwardScan::new(merged, ScanBound::Unbounded, ScanBound::Unbounded);
    scan.init().unwrap();
    assert_eq!(
        scan_all(&mut scan),
        vec![
            ("a".to_string(), Some("new-a".to_string())),
            ("a".to_string(), Some("old-a".to_string())),
            ("b".to_string(), Some("old-b".to_string())),
        ]
    );
}

#[test]
fn merged_iter_over_an_empty_state_is_empty() {
    let state = LsmState::new();
    let mut merged = build_merged_iter::<InMemoryBlockReader>(&state, vec![], vec![]).unwrap();
    assert!(!merged.valid());
    ForwardIter::seek_to_first(&mut merged).unwrap();
    assert!(!merged.valid());
}

#[test]
fn merged_iter_seek_lands_across_sources() {
    let state = LsmState {
        active_mem: memtable(&[("m", Some("mem-m"))]),
        imm_memtables: vec![],
        levels: vec![
            LevelMeta { level: 0, ssts: vec![] },
            LevelMeta { level: 1, ssts: vec![meta(1, "a", "k"), meta(2, "p", "p")] },
        ],
    };
    let ln = vec![vec![sst(&[("a", Some("1")), ("k", Some("2"))]), sst(&[("p", Some("3"))])]];
    let mut merged = build_merged_iter(&state, vec![], ln).unwrap();
    ForwardIter::seek(&mut merged, b"l").unwrap();
    assert_eq!(merged.key().unwrap(), b"m");
    ForwardIter::next(&mut merged).unwrap();
    assert_eq!(merged.key().unwrap(), b"p");
    ForwardIter::next(&mut merged).unwrap();
    assert!(!merged.valid());
}

#[test]
fn flushed_memtable_reads_back_from_its_sst() {
    let imm = memtable(&[("k1", Some("v1")), ("k3", None), ("k2", Some("v2"))]);
    let option = SstOption::default().block_size(256);
    let builder =
        SstBuilder::new(DefaultSstWriter::new(InMemoryBlockWriter::new(), &option), option.clone());
    let (footer, writer) = todb::lsm_store::build_sst_from_memtable(&imm, builder).unwrap();
    assert_eq!(footer.first_key, b("k1"));
    assert_eq!(footer.last_key, b("k3"));
    let reader = Arc::new(InMemoryBlockReader::new(Bytes::from(writer.into_inner().into_inner()), 256));
    let iter = SstIter::new(reader, footer, option).unwrap();
    let mut scan = LsmForwardScan::new(iter, ScanBound::Unbounded, ScanBound::Unbounded);
    scan.init().unwrap();
    assert_eq!(
        scan_all(&mut scan),
        vec![
            ("k1".to_string(), Some("v1".to_string())),
            ("k2".to_string(), Some("v2".to_string())),
            ("k3".to_string(), None),
        ]
    );
}

#[test]
fn flushing_an_empty_memtable_gives_empty_footer_keys() {
    let imm = memtable(&[]);
    let option = SstOption::default().block_size(256);
    let builder =
        SstBuilder::new(DefaultSstWriter::new(InMemoryBlockWriter::new(), &option), option.clone());
    let (footer, _writer) = todb::lsm_store::build_sst_from_memtable(&imm, builder).unwrap();
    assert!(footer.first_key.is_empty());
    assert!(footer.last_key.is_empty());
}

#[test]
fn flush_refuses_a_table_with_an_entry_too_large_for_a_block() {
    let small = memtable(&[("k1", Some("v1")), ("k2", None)]);
    assert!(todb::lsm_store::memtable_fits(&small, 128));
    let big_value = "x".repeat(200);
    let big = memtable(&[("k1", Some("v1")), ("k2", Some(big_value.as_str()))]);
    assert!(!todb::lsm_store::memtable_fits(&big, 128));
    // a key of 99 bytes leaves no room for its index entry in a 128-byte block
    let long_key = "k".repeat(99);
    assert!(!todb::lsm_store::memtable_fits(&memtable(&[(long_key.as_str(), None)]), 128));

    let option = SstOption::default().block_size(128);
    let builder =
        SstBuilder::new(DefaultSstWriter::new(InMemoryBlockWriter::new(), &option), option.clone());
    assert!(matches!(
        todb::lsm_store::flush_memtable(&big, builder),
        Err(todb::errors::StorageError::InvalidValue(_))
    ));
    let builder =
        SstBuilder::new(DefaultSstWriter::new(InMemoryBlockWriter::new(), &option), option.clone());
    let (footer, _w) = todb::lsm_store::flush_memtable(&small, builder).unwrap();
    assert_eq!(footer.first_key, b("k1"));
    assert_eq!(footer.last_key, b("k2"));
}
