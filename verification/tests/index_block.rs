use bytes::Bytes;
use todb::block::Position;
use todb::builder::index_block::IndexBlockBuilder;
use todb::builder::sst::SstOption;

fn option() -> SstOption {
    SstOption::default()
}

fn be32(buf: &[u8], at: usize) -> u32 {
    u32::from_be_bytes(buf[at..at + 4].try_into().unwrap())
}

#[test]
fn index_block_test_empty_block_layout() {
    let mut b = IndexBlockBuilder::new(&option());
    let buf = b.finish();
    assert_eq!(buf.len(), option().block_size);
    assert_eq!(&buf[..4], &0u32.to_be_bytes());
}

#[test]
fn index_block_test_single_entry_layout() {
    let mut b = IndexBlockBuilder::new(&option());
    b.add(Bytes::from("k"), Position { offset: 0xAB });
    let buf = b.finish();

    assert_eq!(be32(&buf, 0), 1);
    assert_eq!(be32(&buf, 4), 20);
    assert_eq!(be32(&buf, 8), 21);
    assert_eq!(be32(&buf, 12), 21);
    assert_eq!(be32(&buf, 16), 30);
    assert_eq!(&buf[20..21], b"k");
    assert_eq!(buf[21], 1);
    assert_eq!(u64::from_be_bytes(buf[22..30].try_into().unwrap()), 0xAB);
    assert_eq!(buf.len(), option().block_size);
}

#[test]
fn index_block_test_two_entry_layout() {
    let mut b = IndexBlockBuilder::new(&option());
    b.add(Bytes::from("ab"), Position { offset: 0x10 });
    b.add(Bytes::from("c"), Position { offset: 0x20 });
    let buf = b.finish();

    assert_eq!(be32(&buf, 0), 2);
    let key0 = be32(&buf, 4) as usize;
    let key1 = be32(&buf, 8) as usize;
    let key_sent = be32(&buf, 12) as usize;
    let val0 = be32(&buf, 16) as usize;
    let val1 = be32(&buf, 20) as usize;
    let val_sent = be32(&buf, 24) as usize;

    assert_eq!(key0, 28);
    assert_eq!(key1, 30);
    assert_eq!(key_sent, 31);
    assert_eq!(val0, 31);
    assert_eq!(val1, 40);
    assert_eq!(val_sent, 49);

    assert_eq!(&buf[key0..key1], b"ab");
    assert_eq!(&buf[key1..key_sent], b"c");
    assert_eq!(buf[val0], 1);
    assert_eq!(u64::from_be_bytes(buf[val0 + 1..val1].try_into().unwrap()), 0x10);
    assert_eq!(buf[val1], 1);
    assert_eq!(u64::from_be_bytes(buf[val1 + 1..val_sent].try_into().unwrap()), 0x20);
}

#[test]
fn test_size_estimation_accounts_for_versioned_index_value() {
    let mut b = IndexBlockBuilder::new(&option());
    b.add(Bytes::from("ab"), Position { offset: 1 });
    assert_eq!(b.estimated_size(), 19);
    assert!(!b.would_exceed(&Bytes::from("c"), &Position { offset: 2 }));
}

#[test]
fn index_block_test_would_exceed_accounts_for_fixed_header() {
    let option = SstOption::default().block_size(29);
    let b = IndexBlockBuilder::new(&option);
    assert!(b.would_exceed(&Bytes::from("k"), &Position { offset: 1 }));
}

#[test]
fn index_block_test_finish_resets_builder() {
    let mut b = IndexBlockBuilder::new(&option());
    b.add(Bytes::from("k"), Position { offset: 1 });
    let _ = b.finish();
    assert!(b.is_empty());
    assert_eq!(b.estimated_size(), 0);
}

#[test]
fn index_block_last_entry_is_latest_added() {
    let mut b = IndexBlockBuilder::new(&option());
    assert!(b.last_entry().is_none());
    b.add(Bytes::from("a"), Position { offset: 7 });
    b.add(Bytes::from("b"), Position { offset: 9 });
    let e = b.last_entry().unwrap();
    assert_eq!(e.end_key, Bytes::from("b"));
    assert_eq!(e.child, Position { offset: 9 });
    assert_eq!(b.entry_count(), 2);
}
