use bytes::Bytes;
use todb::iterators::entry_decode_iter::{EntryDecodeIter, EntryValue};
use todb::iterators::map_iter::MapIter;
use todb::iterators::scan_iter::ScanIter;
use todb::iterators::storage_iter::{ForwardIter, IterRead, ReverseIter};
use todb::iterators::two_merge_iter::TwoMergeIter;
use todb::iterators::vec_iter::VecIter;
use todb::lsm_iter::{LsmForwardScan, ScanBound};
use todb::memtable::{Entry, MemTable};

fn b(s: &str) -> Bytes {
    Bytes::from(s.to_string())
}

fn value_bytes(v: &EntryValue) -> Option<Vec<u8>> {
    match v {
        EntryValue::Put(p) => Some(p.clone()),
        EntryValue::Delete => None,
    }
}

fn put(v: &[u8]) -> Vec<u8> {
    let mut e = vec![1, 0];
    e.extend_from_slice(v);
    e
}

#[test]
fn map_iter_shows_memtable_entries_as_decoded_values() {
    let mut mem = MemTable::new();
    mem.put(b("a"), b("1"));
    mem.put(b("b"), b("2"));
    mem.delete(b("b"));
    mem.put(b("c"), b("3"));
    let mut it = MapIter::new(mem.iter());
    ForwardIter::seek_to_first(&mut it).unwrap();
    let mut seen = vec![];
    while it.valid() {
        let v = it.value().unwrap();
        seen.push((it.key().unwrap().to_vec(), value_bytes(&v)));
        ForwardIter::next(&mut it).unwrap();
    }
    assert_eq!(
        seen,
        vec![
            (b"a".to_vec(), Some(b"1".to_vec())),
            (b"b".to_vec(), None),
            (b"c".to_vec(), Some(b"3".to_vec())),
        ]
    );
}

#[test]
fn map_iter_reverse_and_seek_go_to_the_memtable() {
    let mut mem = MemTable::new();
    for key in ["a", "c", "e"] {
        mem.put(b(key), b(key));
    }
    let mut it = MapIter::new(mem.iter());
    ReverseIter::seek(&mut it, b"d").unwrap();
    assert_eq!(it.key().unwrap(), b"c");
    ReverseIter::next(&mut it).unwrap();
    assert_eq!(it.key().unwrap(), b"a");
    ForwardIter::seek(&mut it, b"b").unwrap();
    assert_eq!(it.key().unwrap(), b"c");
    assert_eq!(value_bytes(&it.value().unwrap()), Some(b"c".to_vec()));
}

#[test]
fn memtable_shadows_older_sorted_run_in_a_merge() {
    let mut mem = MemTable::new();
    mem.put(b("b"), b("new"));
    mem.delete(b("c"));
    let older = EntryDecodeIter::new(VecIter::new(vec![
        (b"a".to_vec(), put(b"old-a")),
        (b"b".to_vec(), put(b"old-b")),
        (b"c".to_vec(), put(b"old-c")),
        (b"d".to_vec(), put(b"old-d")),
    ]));
    let merged = TwoMergeIter::new(MapIter::new(mem.iter()), older).unwrap();
    let mut scan = LsmForwardScan::new(merged, ScanBound::Unbounded, ScanBound::Unbounded);
    scan.init().unwrap();
    let mut out = vec![];
    while scan.valid() {
        out.push((scan.key().unwrap().to_vec(), scan.value().unwrap()));
        scan.next().unwrap();
    }
    assert_eq!(
        out,
        vec![
            (b"a".to_vec(), Entry::Put(b"old-a".to_vec())),
            (b"b".to_vec(), Entry::Put(b"new".to_vec())),
            (b"c".to_vec(), Entry::Delete),
            (b"d".to_vec(), Entry::Put(b"old-d".to_vec())),
        ]
    );
}
