use bytes::Bytes;
use todb::block::{InMemoryBlockWriter, Position};
use todb::builder::sst::SstBuilder;
use todb::builder::{DefaultSstWriter, SstFooter, SstOption};
use todb::iterators::block_iter::NormalBlockIter;
use todb::iterators::storage_iter::{AsArray, ForwardIter, IterRead};

fn fixed_builder(block_size: usize) -> SstBuilder<DefaultSstWriter<InMemoryBlockWriter>> {
    let option = SstOption::default().block_size(block_size);
    SstBuilder::new(DefaultSstWriter::new(InMemoryBlockWriter::new(), &option), option)
}

fn make_key(i: u64) -> Bytes {
    Bytes::copy_from_slice(&i.to_be_bytes())
}

fn make_value(i: u64) -> Bytes {
    Bytes::from(format!("value_{}", i))
}

#[test]
fn test_build_single_data_block() {
    let mut builder = fixed_builder(4096);
    for i in 0..10u64 {
        builder.add(make_key(i), make_value(i)).unwrap();
    }
    let (footer, _) = builder.finish().unwrap();
    assert!(footer.tree_height >= 1);
}

#[test]
fn test_build_multi_block_with_index() {
    let mut builder = fixed_builder(256);
    for i in 0..10000u64 {
        builder.add(make_key(i), make_value(i)).unwrap();
    }
    let (footer, _) = builder.finish().unwrap();
    assert!(footer.tree_height >= 2);
}

#[test]
fn test_build_produces_bytes() {
    let mut builder = fixed_builder(256);
    for i in 0..100u64 {
        builder.add(make_key(i), make_value(i)).unwrap();
    }
    let (footer, sst_writer) = builder.finish().unwrap();
    let writer = sst_writer.into_inner();
    let buf = writer.into_inner();
    assert!(!buf.is_empty());
    assert!(footer.root_index_block_position.offset < buf.len() as u64);
}

#[test]
fn test_footer_encodes_fields_and_keys() {
    let footer = SstFooter {
        root_index_block_position: Position { offset: 0x0102_0304_0506_0708 },
        tree_height: 0x1112_1314,
        first_key: Bytes::from_static(b"aaa"),
        last_key: Bytes::from_static(b"zzz"),
    };
    let encoded = footer.encode();
    assert!(encoded.len() >= SstFooter::MIN_LEN);
    let decoded = SstFooter::decode(&encoded).unwrap();
    assert_eq!(decoded, footer);
}

#[test]
fn test_footer_empty_keys() {
    let footer = SstFooter {
        root_index_block_position: Position { offset: 0 },
        tree_height: 0,
        first_key: Bytes::new(),
        last_key: Bytes::new(),
    };
    let encoded = footer.encode();
    assert_eq!(encoded.len(), SstFooter::MIN_LEN);
    let decoded = SstFooter::decode(&encoded).unwrap();
    assert_eq!(decoded, footer);
}

#[test]
fn test_footer_rejects_truncated_trailer() {
    assert!(SstFooter::decode(&[0u8; 3]).is_err());
}

#[test]
fn test_builder_writes_footer_after_blocks() {
    let block_size = 256;
    let mut builder = fixed_builder(block_size);
    for i in 0..100u64 {
        builder.add(make_key(i), make_value(i)).unwrap();
    }

    let (footer, sst_writer) = builder.finish().unwrap();
    let writer = sst_writer.into_inner();
    let buf = writer.into_inner();

    let body_len = u32::from_be_bytes(buf[buf.len() - 4..].try_into().unwrap()) as usize;
    let footer_start = buf.len() - body_len - 4;
    assert_eq!(footer_start % block_size, 0);
    assert_eq!(footer.root_index_block_position.offset as usize % block_size, 0);

    let decoded = SstFooter::decode(&buf[footer_start..]).unwrap();
    assert_eq!(decoded, footer);
}

#[test]
fn test_empty_sst_writes_only_footer() {
    let (footer, sst_writer) = fixed_builder(256).finish().unwrap();
    let buf = sst_writer.into_inner().into_inner();
    assert_eq!(buf.len(), SstFooter::MIN_LEN);
    assert_eq!(footer.root_index_block_position, Position { offset: 0 });
    assert_eq!(footer.tree_height, 0);
    assert!(footer.first_key.is_empty());
    assert!(footer.last_key.is_empty());
    assert_eq!(SstFooter::decode(&buf).unwrap(), footer);
}

#[test]
fn test_build_empty() {
    let builder = fixed_builder(256);
    let (footer, _) = builder.finish().unwrap();
    assert_eq!(footer.root_index_block_position, Position { offset: 0 });
}

#[test]
fn test_builder_footer_records_first_and_last_key() {
    let mut builder = fixed_builder(4096);
    for i in 0..100u64 {
        builder.add(make_key(i), make_value(i)).unwrap();
    }
    let (footer, _) = builder.finish().unwrap();
    assert_eq!(footer.first_key, make_key(0));
    assert_eq!(footer.last_key, make_key(99));
}

#[test]
fn test_builder_footer_empty_when_no_entries() {
    let (footer, _) = fixed_builder(4096).finish().unwrap();
    assert!(footer.first_key.is_empty());
    assert!(footer.last_key.is_empty());
}

#[test]
fn footer_decode_rejects_key_lengths_past_body() {
    // Body of 20 bytes claiming a 5-byte first key.
    let mut buf = vec![0u8; 20];
    buf[12..16].copy_from_slice(&5u32.to_be_bytes());
    buf.extend_from_slice(&20u32.to_be_bytes());
    assert!(SstFooter::decode(&buf).is_err());
}

#[test]
fn sst_with_deletes_writes_footer_keys() {
    let mut builder = fixed_builder(256);
    builder.add(make_key(1), make_value(1)).unwrap();
    builder.add_delete(make_key(2)).unwrap();
    let (footer, w) = builder.finish().unwrap();
    assert_eq!(footer.first_key, make_key(1));
    assert_eq!(footer.last_key, make_key(2));
    let buf = w.into_inner().into_inner();
    // One data block, one index block, then the footer.
    assert_eq!(buf.len(), 2 * 256 + footer.encode().len());
}

#[test]
fn first_data_block_holds_the_first_entries_in_order() {
    let mut builder = fixed_builder(128);
    for i in 0..20u64 {
        builder.add(make_key(i), make_value(i)).unwrap();
    }
    let (_, sst_writer) = builder.finish().unwrap();
    let buf = sst_writer.into_inner().into_inner();
    let mut it = NormalBlockIter::new(Bytes::copy_from_slice(&buf[0..128])).unwrap();
    ForwardIter::seek_to_first(&mut it).unwrap();
    let mut n = 0u64;
    while it.valid() {
        assert_eq!(it.key().unwrap(), make_key(n).as_ref());
        let stored = it.value().unwrap().as_array().to_vec();
        assert_eq!(&stored[2..], make_value(n).as_ref());
        assert_eq!(stored[1], 0);
        ForwardIter::next(&mut it).unwrap();
        n += 1;
    }
    assert!(n > 0 && n < 20);
}
