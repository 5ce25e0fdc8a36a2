use todb::block::Position;
use todb::iterators::entry_decode_iter::{EntryDecodeIter, EntryValue};
use todb::iterators::index_entry_decode_iter::IndexEntryDecodeIter;
use todb::iterators::storage_iter::{AsArray, ForwardIter, IterRead, ReverseIter};
use todb::iterators::vec_iter::VecIter;
use todb::memtable::Entry;

fn input(items: &[(&[u8], &[u8])]) -> VecIter {
    VecIter::new(items.iter().map(|(k, v)| (k.to_vec(), v.to_vec())).collect())
}

fn put(payload: &[u8]) -> Vec<u8> {
    let mut entry = vec![1, 0];
    entry.extend_from_slice(payload);
    entry
}

fn index_entry(offset: u64) -> Vec<u8> {
    let mut entry = vec![1u8];
    entry.extend_from_slice(&offset.to_be_bytes());
    entry
}

#[test]
fn seek_to_first_decodes_current_entry_payload() {
    let first = put(b"v1");
    let mut iter = EntryDecodeIter::new(input(&[(b"k1", &first)]));

    ForwardIter::seek_to_first(&mut iter).unwrap();

    assert!(iter.valid());
    assert_eq!(iter.key().unwrap(), b"k1" as &[u8]);
    assert_eq!(iter.value().unwrap().as_array(), b"v1");
}

#[test]
fn entry_decode_iter_seek_decodes_target_entry_payload() {
    let first = put(b"v1");
    let second = put(b"v2");
    let mut iter = EntryDecodeIter::new(input(&[(b"k1", &first), (b"k2", &second)]));

    ForwardIter::seek(&mut iter, b"k2").unwrap();

    assert!(iter.valid());
    assert_eq!(iter.key().unwrap(), b"k2" as &[u8]);
    assert_eq!(iter.value().unwrap().as_array(), b"v2");
}

#[test]
fn next_decodes_next_entry_payload() {
    let first = put(b"v1");
    let second = put(b"v2");
    let mut iter = EntryDecodeIter::new(input(&[(b"k1", &first), (b"k2", &second)]));

    ForwardIter::seek_to_first(&mut iter).unwrap();
    ForwardIter::next(&mut iter).unwrap();

    assert!(iter.valid());
    assert_eq!(iter.key().unwrap(), b"k2" as &[u8]);
    assert_eq!(iter.value().unwrap().as_array(), b"v2");
}

#[test]
fn delete_entry_decodes_to_delete_variant() {
    let mut iter = EntryDecodeIter::new(input(&[(b"k1", b"\x01\x01")]));

    ForwardIter::seek_to_first(&mut iter).unwrap();

    assert!(iter.valid());
    assert!(matches!(iter.value().unwrap(), EntryValue::Delete));
}

#[test]
fn unknown_data_entry_version_returns_error() {
    let mut iter = EntryDecodeIter::new(input(&[(b"k1", b"\x02\x00abc")]));

    assert!(ForwardIter::seek_to_first(&mut iter).is_err());
}

#[test]
fn invalid_entry_kind_returns_error_when_positioning() {
    let mut iter = EntryDecodeIter::new(input(&[(b"k1", b"\x01\x02bad")]));

    assert!(ForwardIter::seek_to_first(&mut iter).is_err());
}

#[test]
fn entry_header_too_short_returns_error() {
    let mut iter = EntryDecodeIter::new(input(&[(b"k1", b"\x01")]));
    assert!(ForwardIter::seek_to_first(&mut iter).is_err());
}

#[test]
fn entry_value_converts_to_memtable_entry() {
    let e: Entry<Vec<u8>> = Entry::from(EntryValue::Put(b"x".to_vec()));
    assert_eq!(e, Entry::Put(b"x".to_vec()));
    let d: Entry<Vec<u8>> = Entry::from(EntryValue::Delete);
    assert_eq!(d, Entry::Delete);
    assert_eq!(EntryValue::Delete.as_array(), b"");
}

#[test]
fn seek_to_first_decodes_index_payload() {
    let first = index_entry(0xAB);
    let mut iter = IndexEntryDecodeIter::new(input(&[(b"k1", &first)]));

    ForwardIter::seek_to_first(&mut iter).unwrap();

    assert!(iter.valid());
    assert_eq!(iter.key().unwrap(), b"k1" as &[u8]);
    assert_eq!(Position::from(iter.value().unwrap()).offset, 0xAB);
}

#[test]
fn index_entry_decode_iter_seek_decodes_target_entry_payload() {
    let first = index_entry(0x10);
    let second = index_entry(0x20);
    let mut iter = IndexEntryDecodeIter::new(input(&[(b"k1", &first), (b"k2", &second)]));

    ForwardIter::seek(&mut iter, b"k2").unwrap();

    assert!(iter.valid());
    assert_eq!(Position::from(iter.value().unwrap()).offset, 0x20);
}

#[test]
fn unknown_version_returns_error_when_positioning() {
    let mut iter = IndexEntryDecodeIter::new(input(&[(b"k1", b"\x02abcdefgh")]));

    assert!(ForwardIter::seek_to_first(&mut iter).is_err());
}

#[test]
fn short_payload_returns_error_when_positioning() {
    let mut iter = IndexEntryDecodeIter::new(input(&[(b"k1", b"\x01abc")]));

    assert!(ForwardIter::seek_to_first(&mut iter).is_err());
}

#[test]
fn index_reverse_iteration_decodes_from_last() {
    let a = index_entry(1);
    let b = index_entry(2);
    let mut iter = IndexEntryDecodeIter::new(input(&[(b"a", &a), (b"b", &b)]));
    ReverseIter::seek_to_first(&mut iter).unwrap();
    assert_eq!(iter.key().unwrap(), b"b" as &[u8]);
    ReverseIter::next(&mut iter).unwrap();
    assert_eq!(Position::from(iter.value().unwrap()).offset, 1);
    ReverseIter::next(&mut iter).unwrap();
    assert!(!iter.valid());
}

#[test]
fn index_seek_lower_bound_lands_on_first_end_key_not_below_target() {
    let a = index_entry(10);
    let b = index_entry(20);
    let mut iter = IndexEntryDecodeIter::new(input(&[(b"b", &a), (b"d", &b)]));
    iter.seek_lower_bound(b"c").unwrap();
    assert_eq!(Position::from(iter.value().unwrap()).offset, 20);
    iter.seek_lower_bound(b"e").unwrap();
    assert!(!iter.valid());
}
