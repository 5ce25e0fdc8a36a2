use bytes::Bytes;
use todb::builder::data_block::DataBlockBuilder;
use todb::builder::sst::SstOption;
use todb::iterators::block_iter::NormalBlockIter;
use todb::iterators::raw_entry::RawEntry;
use todb::iterators::storage_iter::{AsArray, ForwardIter, IterRead, ReverseIter};

fn raw_entry_bytes(entry: &RawEntry) -> Vec<u8> {
    entry.as_array().to_vec()
}

// Layout: count(u32) | key_offsets+sentinel | value_offsets+sentinel | keys | values
fn build_block(entries: &[(&[u8], &[u8])]) -> Bytes {
    let count = entries.len();
    let header_size = 4 + (count + 1) * 4 + (count + 1) * 4;

    let mut key_off = header_size;
    let mut key_offsets: Vec<usize> = entries
        .iter()
        .map(|(k, _)| {
            let o = key_off;
            key_off += k.len();
            o
        })
        .collect();
    key_offsets.push(key_off);

    let mut val_off = key_off;
    let mut val_offsets: Vec<usize> = entries
        .iter()
        .map(|(_, v)| {
            let o = val_off;
            val_off += v.len();
            o
        })
        .collect();
    val_offsets.push(val_off);

    let mut buf = Vec::new();
    buf.extend_from_slice(&(count as u32).to_be_bytes());
    for &o in &key_offsets {
        buf.extend_from_slice(&(o as u32).to_be_bytes());
    }
    for &o in &val_offsets {
        buf.extend_from_slice(&(o as u32).to_be_bytes());
    }
    for (k, _) in entries {
        buf.extend_from_slice(k);
    }
    for (_, v) in entries {
        buf.extend_from_slice(v);
    }
    Bytes::from(buf)
}

fn make_iter() -> NormalBlockIter {
    let block = build_block(&[(b"apple", b"v1"), (b"banana", b"v2"), (b"cherry", b"v3")]);
    let mut iter = NormalBlockIter::new(block).unwrap();
    ForwardIter::seek_to_first(&mut iter).unwrap();
    iter
}

#[test]
fn block_iter_test_seek_to_first() {
    let iter = make_iter();
    assert!(iter.valid());
    assert_eq!(iter.key().unwrap(), b"apple");
    assert_eq!(raw_entry_bytes(&iter.value().unwrap()), b"v1");
}

#[test]
fn test_next_iterates_all() {
    let mut iter = make_iter();
    assert_eq!(iter.key().unwrap(), b"apple");
    assert_eq!(raw_entry_bytes(&iter.value().unwrap()), b"v1");
    ForwardIter::next(&mut iter).unwrap();
    assert_eq!(iter.key().unwrap(), b"banana");
    assert_eq!(raw_entry_bytes(&iter.value().unwrap()), b"v2");
    ForwardIter::next(&mut iter).unwrap();
    assert_eq!(iter.key().unwrap(), b"cherry");
    assert_eq!(raw_entry_bytes(&iter.value().unwrap()), b"v3");
    ForwardIter::next(&mut iter).unwrap();
    assert!(!iter.valid());
}

#[test]
fn block_iter_test_seek_exact_match() {
    let mut iter = make_iter();
    ForwardIter::seek(&mut iter, b"banana").unwrap();
    assert!(iter.valid());
    assert_eq!(iter.key().unwrap(), b"banana");
    assert_eq!(raw_entry_bytes(&iter.value().unwrap()), b"v2");
}

#[test]
fn block_iter_test_seek_between_keys() {
    let mut iter = make_iter();
    ForwardIter::seek(&mut iter, b"b").unwrap();
    assert!(iter.valid());
    assert_eq!(iter.key().unwrap(), b"banana");
}

#[test]
fn test_seek_before_first() {
    let mut iter = make_iter();
    ForwardIter::seek(&mut iter, b"aaa").unwrap();
    assert!(iter.valid());
    assert_eq!(iter.key().unwrap(), b"apple");
}

#[test]
fn test_seek_after_last() {
    let mut iter = make_iter();
    ForwardIter::seek(&mut iter, b"zzz").unwrap();
    assert!(!iter.valid());
}

#[test]
fn reverse_block_iteration_and_upper_seek() {
    let mut iter = make_iter();
    ReverseIter::seek_to_first(&mut iter).unwrap();
    assert_eq!(iter.key().unwrap(), b"cherry");
    ReverseIter::seek(&mut iter, b"c").unwrap();
    assert_eq!(iter.key().unwrap(), b"banana");
    ReverseIter::next(&mut iter).unwrap();
    assert_eq!(iter.key().unwrap(), b"apple");
    ReverseIter::next(&mut iter).unwrap();
    assert!(!iter.valid());
    ReverseIter::seek(&mut iter, b"a").unwrap();
    assert!(!iter.valid());
}

#[test]
fn block_written_by_builder_reads_back() {
    let option = SstOption::default().block_size(128);
    let mut b = DataBlockBuilder::new(&option);
    b.add(Bytes::from("a"), Bytes::from("1"));
    b.add_delete(Bytes::from("b"));
    let block = b.finish();
    let mut iter = NormalBlockIter::new(block).unwrap();
    ForwardIter::seek_to_first(&mut iter).unwrap();
    assert_eq!(iter.key().unwrap(), b"a");
    assert_eq!(raw_entry_bytes(&iter.value().unwrap()), vec![1, 0, b'1']);
    ForwardIter::next(&mut iter).unwrap();
    assert_eq!(iter.key().unwrap(), b"b");
    assert_eq!(raw_entry_bytes(&iter.value().unwrap()), vec![1, 1]);
    ForwardIter::next(&mut iter).unwrap();
    assert!(!iter.valid());
}

#[test]
fn empty_block_is_invalid() {
    let mut iter = NormalBlockIter::new(build_block(&[])).unwrap();
    ForwardIter::seek_to_first(&mut iter).unwrap();
    assert!(!iter.valid());
    assert!(iter.key().is_none());
}

#[test]
fn block_with_ranges_outside_it_fails_when_positioned() {
    // one entry whose key range runs past the end of the block
    let mut buf = Vec::new();
    buf.extend_from_slice(&1u32.to_be_bytes());
    buf.extend_from_slice(&20u32.to_be_bytes());
    buf.extend_from_slice(&200u32.to_be_bytes());
    buf.extend_from_slice(&20u32.to_be_bytes());
    buf.extend_from_slice(&20u32.to_be_bytes());
    let mut iter = NormalBlockIter::new(Bytes::from(buf)).unwrap();
    assert!(!iter.valid());
    assert!(matches!(
        ForwardIter::seek_to_first(&mut iter),
        Err(todb::errors::StorageError::InvalidValue(_))
    ));
    assert!(matches!(
        ReverseIter::seek(&mut iter, b"a"),
        Err(todb::errors::StorageError::InvalidValue(_))
    ));
    assert!(!iter.valid());
    // a header that does not fit is refused at once
    assert!(matches!(
        NormalBlockIter::new(Bytes::from(vec![0u8, 0])),
        Err(todb::errors::StorageError::InvalidValue(_))
    ));
    assert!(NormalBlockIter::new(Bytes::from(vec![0u8, 0, 0, 9, 0, 0, 0, 0])).is_err());
}

#[test]
fn block_with_no_entries_is_empty_whatever_its_offsets() {
    // count 0, key sentinel 100, value sentinel 100: the offsets are never read
    let mut buf = Vec::new();
    buf.extend_from_slice(&0u32.to_be_bytes());
    buf.extend_from_slice(&100u32.to_be_bytes());
    buf.extend_from_slice(&100u32.to_be_bytes());
    let mut iter = NormalBlockIter::new(Bytes::from(buf)).unwrap();
    assert!(!iter.valid());
    ForwardIter::seek_to_first(&mut iter).unwrap();
    assert!(!iter.valid());
    ReverseIter::seek_to_first(&mut iter).unwrap();
    assert!(!iter.valid());
    ForwardIter::seek(&mut iter, b"k").unwrap();
    assert!(!iter.valid());
}
