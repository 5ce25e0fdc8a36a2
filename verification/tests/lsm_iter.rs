use bytes::Bytes;
use todb::iterators::entry_decode_iter::EntryDecodeIter;
use todb::iterators::scan_iter::ScanIter;
use todb::iterators::vec_iter::VecIter;
use todb::lsm_iter::{LsmForwardScan, LsmReverseScan, ScanBound};
use todb::memtable::Entry;

fn put(v: &[u8]) -> Vec<u8> {
    let mut e = vec![1, 0];
    e.extend_from_slice(v);
    e
}

fn source() -> EntryDecodeIter<VecIter> {
    EntryDecodeIter::new(VecIter::new(vec![
        (b"a".to_vec(), put(b"1")),
        (b"b".to_vec(), vec![1, 1]),
        (b"c".to_vec(), put(b"3")),
        (b"d".to_vec(), put(b"4")),
    ]))
}

fn collect<S: ScanIter>(s: &mut S) -> Vec<(Vec<u8>, Entry<Vec<u8>>)> {
    let mut out = vec![];
    while s.valid() {
        out.push((s.key().unwrap().to_vec(), s.value().unwrap()));
        s.next().unwrap();
    }
    out
}

#[test]
fn forward_scan_respects_inclusive_lower_and_exclusive_upper() {
    let mut s = LsmForwardScan::new(
        source(),
        ScanBound::Included(Bytes::from("b")),
        ScanBound::Excluded(Bytes::from("d")),
    );
    s.init().unwrap();
    assert_eq!(
        collect(&mut s),
        vec![(b"b".to_vec(), Entry::Delete), (b"c".to_vec(), Entry::Put(b"3".to_vec()))]
    );
}

#[test]
fn forward_scan_exclusive_lower_skips_the_bound_key() {
    let mut s = LsmForwardScan::new(
        source(),
        ScanBound::Excluded(Bytes::from("a")),
        ScanBound::Included(Bytes::from("c")),
    );
    s.init().unwrap();
    let keys: Vec<Vec<u8>> = collect(&mut s).into_iter().map(|(k, _)| k).collect();
    assert_eq!(keys, vec![b"b".to_vec(), b"c".to_vec()]);
}

#[test]
fn forward_scan_unbounded_sees_everything() {
    let mut s = LsmForwardScan::new(source(), ScanBound::Unbounded, ScanBound::Unbounded);
    s.init().unwrap();
    assert_eq!(collect(&mut s).len(), 4);
}

#[test]
fn reverse_scan_respects_bounds() {
    let mut s = LsmReverseScan::new(
        source(),
        ScanBound::Excluded(Bytes::from("a")),
        ScanBound::Excluded(Bytes::from("d")),
    );
    s.init().unwrap();
    let keys: Vec<Vec<u8>> = collect(&mut s).into_iter().map(|(k, _)| k).collect();
    assert_eq!(keys, vec![b"c".to_vec(), b"b".to_vec()]);
}

#[test]
fn reverse_scan_inclusive_upper_starts_at_the_bound() {
    let mut s = LsmReverseScan::new(
        source(),
        ScanBound::Unbounded,
        ScanBound::Included(Bytes::from("c")),
    );
    s.init().unwrap();
    let got = collect(&mut s);
    assert_eq!(got[0], (b"c".to_vec(), Entry::Put(b"3".to_vec())));
    assert_eq!(got.len(), 3);
}
