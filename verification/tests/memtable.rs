use bytes::Bytes;
use todb::memtable::{Entry, MemTable};
use todb::iterators::storage_iter::{ForwardIter, IterRead, ReverseIter};

fn k(s: &str) -> Bytes {
    Bytes::from(s.to_string())
}

fn v(s: &str) -> Bytes {
    Bytes::from(s.to_string())
}

#[test]
fn test_put_then_seek() {
    let mut mem = MemTable::new();
    mem.put(k("hello"), v("world"));
    let mut iter = mem.iter();
    let target = k("hello");
    ForwardIter::seek(&mut iter, target.as_ref()).unwrap();
    assert!(iter.valid());
    assert_eq!(iter.key().unwrap(), k("hello").as_ref());
    assert_eq!(iter.value(), Some(Entry::Put(v("world"))));
}

#[test]
fn test_delete_then_seek() {
    let mut mem = MemTable::new();
    mem.put(k("hello"), v("world"));
    mem.delete(k("hello"));
    let mut iter = mem.iter();
    let target = k("hello");
    ForwardIter::seek(&mut iter, target.as_ref()).unwrap();
    assert!(iter.valid());
    assert_eq!(iter.key().unwrap(), k("hello").as_ref());
    assert_eq!(iter.value(), Some(Entry::Delete));
}

#[test]
fn test_overwrite_returns_latest() {
    let mut mem = MemTable::new();
    mem.put(k("key"), v("v1"));
    mem.put(k("key"), v("v2"));
    let mut iter = mem.iter();
    let target = k("key");
    ForwardIter::seek(&mut iter, target.as_ref()).unwrap();
    assert!(iter.valid());
    assert_eq!(iter.value(), Some(Entry::Put(v("v2"))));
}

#[test]
fn test_seek_missing_key_lands_on_next() {
    let mut mem = MemTable::new();
    mem.put(k("a"), v("1"));
    mem.put(k("c"), v("3"));
    let mut iter = mem.iter();
    let target = k("b");
    ForwardIter::seek(&mut iter, target.as_ref()).unwrap();
    assert!(iter.valid());
    assert_eq!(iter.key().unwrap(), k("c").as_ref());
}

#[test]
fn memtable_test_seek_to_first() {
    let mut mem = MemTable::new();
    mem.put(k("b"), v("2"));
    mem.put(k("a"), v("1"));
    mem.put(k("c"), v("3"));
    let mut iter = mem.iter();
    ForwardIter::seek_to_first(&mut iter).unwrap();
    assert!(iter.valid());
    assert_eq!(iter.key().unwrap(), k("a").as_ref());
}

#[test]
fn test_next_traverses_in_order() {
    let mut mem = MemTable::new();
    mem.put(k("a"), v("1"));
    mem.delete(k("b"));
    mem.put(k("c"), v("3"));
    let mut iter = mem.iter();
    ForwardIter::seek_to_first(&mut iter).unwrap();

    assert_eq!(iter.key().unwrap(), k("a").as_ref());
    assert_eq!(iter.value(), Some(Entry::Put(v("1"))));
    ForwardIter::next(&mut iter).unwrap();

    assert_eq!(iter.key().unwrap(), k("b").as_ref());
    assert_eq!(iter.value(), Some(Entry::Delete));
    ForwardIter::next(&mut iter).unwrap();

    assert_eq!(iter.key().unwrap(), k("c").as_ref());
    assert_eq!(iter.value(), Some(Entry::Put(v("3"))));
    ForwardIter::next(&mut iter).unwrap();

    assert!(!iter.valid());
}

#[test]
fn test_empty_memtable_is_invalid() {
    let mem = MemTable::new();
    let mut iter = mem.iter();
    ForwardIter::seek_to_first(&mut iter).unwrap();
    assert!(!iter.valid());
}

#[test]
fn memtable_reverse_traverses_in_descending_order() {
    let mut mem = MemTable::new();
    mem.put(k("b"), v("2"));
    mem.put(k("a"), v("1"));
    mem.delete(k("c"));
    let mut iter = mem.iter();
    ReverseIter::seek_to_first(&mut iter).unwrap();
    assert_eq!(iter.key().unwrap(), k("c").as_ref());
    assert_eq!(iter.value(), Some(Entry::Delete));
    ReverseIter::next(&mut iter).unwrap();
    assert_eq!(iter.key().unwrap(), k("b").as_ref());
    ReverseIter::next(&mut iter).unwrap();
    assert_eq!(iter.key().unwrap(), k("a").as_ref());
    ReverseIter::next(&mut iter).unwrap();
    assert!(!iter.valid());
}

#[test]
fn memtable_reverse_seek_lands_on_last_key_not_above_target() {
    let mut mem = MemTable::new();
    mem.put(k("a"), v("1"));
    mem.put(k("c"), v("3"));
    let mut iter = mem.iter();
    ReverseIter::seek(&mut iter, k("b").as_ref()).unwrap();
    assert_eq!(iter.key().unwrap(), k("a").as_ref());
    ReverseIter::seek(&mut iter, k("c").as_ref()).unwrap();
    assert_eq!(iter.key().unwrap(), k("c").as_ref());
    ReverseIter::seek(&mut iter, k("0").as_ref()).unwrap();
    assert!(!iter.valid());
    ForwardIter::seek(&mut iter, k("d").as_ref()).unwrap();
    assert!(!iter.valid());
}

#[test]
fn memtable_counts_keys_and_sizes() {
    let mut mem = MemTable::new();
    assert!(mem.is_empty());
    assert_eq!(mem.estimate_memory(), 0);
    mem.put(k("key"), v("value"));
    assert_eq!(mem.estimate_memory(), 8);
    mem.put(k("key"), v("v"));
    assert_eq!(mem.estimate_memory(), 12);
    mem.delete(k("other"));
    assert_eq!(mem.estimate_memory(), 17);
    assert_eq!(mem.len(), 2);
    assert!(!mem.is_empty());
}
