use bytes::Bytes;
use todb::builder::data_block::DataBlockBuilder;
use todb::builder::sst::SstOption;

fn option() -> SstOption {
    SstOption::default()
}

fn be32(buf: &[u8], at: usize) -> u32 {
    u32::from_be_bytes(buf[at..at + 4].try_into().unwrap())
}

#[test]
fn data_block_test_empty_block_layout() {
    let mut b = DataBlockBuilder::new(&option());
    let buf = b.finish();
    assert_eq!(buf.len(), option().block_size);
    assert_eq!(&buf[..4], &0u32.to_be_bytes());
}

#[test]
fn data_block_test_single_entry_layout() {
    let mut b = DataBlockBuilder::new(&option());
    b.add(Bytes::from("k"), Bytes::from("v"));
    let buf = b.finish();

    assert_eq!(be32(&buf, 0), 1);
    assert_eq!(be32(&buf, 4), 20);
    assert_eq!(be32(&buf, 8), 21);
    assert_eq!(be32(&buf, 12), 21);
    assert_eq!(be32(&buf, 16), 24);
    assert_eq!(&buf[20..21], b"k");
    assert_eq!(&buf[21..24], &[1, 0, b'v']);
    assert_eq!(buf.len(), option().block_size);
}

#[test]
fn data_block_test_two_entry_layout() {
    let mut b = DataBlockBuilder::new(&option());
    b.add(Bytes::from("ab"), Bytes::from("xy"));
    b.add(Bytes::from("c"), Bytes::from("z"));
    let buf = b.finish();

    assert_eq!(be32(&buf, 0), 2);
    let key0 = be32(&buf, 4) as usize;
    let key1 = be32(&buf, 8) as usize;
    let key_sent = be32(&buf, 12) as usize;
    let val0 = be32(&buf, 16) as usize;
    let val1 = be32(&buf, 20) as usize;
    let val_sent = be32(&buf, 24) as usize;

    assert_eq!(key0, 28);
    assert_eq!(key1, 30);
    assert_eq!(key_sent, 31);
    assert_eq!(val0, 31);
    assert_eq!(val1, 35);
    assert_eq!(val_sent, 38);

    assert_eq!(&buf[key0..key1], b"ab");
    assert_eq!(&buf[key1..key_sent], b"c");
    assert_eq!(&buf[val0..val1], &[1, 0, b'x', b'y']);
    assert_eq!(&buf[val1..val_sent], &[1, 0, b'z']);
}

#[test]
fn test_delete_entry_layout() {
    let mut b = DataBlockBuilder::new(&option());
    b.add_delete(Bytes::from("k"));
    let buf = b.finish();

    assert_eq!(be32(&buf, 0), 1);
    assert_eq!(&buf[20..21], b"k");
    assert_eq!(&buf[21..23], &[1, 1]);
}

#[test]
fn data_block_test_would_exceed_accounts_for_fixed_header() {
    let option = SstOption::default().block_size(23);
    let b = DataBlockBuilder::new(&option);
    assert!(b.would_exceed(&Bytes::from("k"), &Bytes::from("v")));
}

#[test]
fn data_block_test_finish_resets_builder() {
    let mut b = DataBlockBuilder::new(&option());
    b.add(Bytes::from("k"), Bytes::from("v"));
    let _ = b.finish();
    assert!(b.is_empty());
    assert_eq!(b.estimated_size(), 0);
}

#[test]
fn data_block_estimate_counts_key_value_offsets_and_header() {
    let mut b = DataBlockBuilder::new(&option());
    b.add(Bytes::from("ab"), Bytes::from("xyz"));
    // 2 + 3 + 8 offset bytes + 2 header bytes
    assert_eq!(b.estimated_size(), 15);
    let option = SstOption::default().block_size(28);
    let b = DataBlockBuilder::new(&option);
    // 12 + (1 + 1 + 10) = 24 fits in 28.
    assert!(!b.would_exceed(&Bytes::from("k"), &Bytes::from("v")));
}

#[test]
fn data_block_cut_to_small_block_size() {
    let option = SstOption::default().block_size(16);
    let mut b = DataBlockBuilder::new(&option);
    let buf = b.finish();
    assert_eq!(buf.len(), 16);
    assert_eq!(&buf[..12], &[0, 0, 0, 0, 0, 0, 0, 12, 0, 0, 0, 12]);
    assert_eq!(&buf[12..], &[0, 0, 0, 0]);
}
