use std::sync::Arc;

use bytes::Bytes;
use todb::block::{InMemoryBlockReader, InMemoryBlockWriter};
use todb::builder::sst::SstBuilder;
use todb::builder::{DefaultSstWriter, SstFooter, SstOption};
use todb::iterators::index_tree_iter::IndexTreeIter;
use todb::iterators::sst_iter::SstIter;
use todb::iterators::storage_iter::{AsArray, ForwardIter, IterRead, ReverseIter};

fn make_key(i: u64) -> Bytes {
    Bytes::copy_from_slice(&i.to_be_bytes())
}

fn make_value(i: u64) -> Bytes {
    Bytes::from(format!("value_{:04}", i))
}

fn make_short_value(i: u64) -> Bytes {
    Bytes::from(format!("v{}", i))
}

fn build_with(n: u64, block_size: usize, value: fn(u64) -> Bytes) -> (Vec<u8>, SstFooter, SstOption) {
    let option = SstOption::default().block_size(block_size);
    let mut builder =
        SstBuilder::new(DefaultSstWriter::new(InMemoryBlockWriter::new(), &option), option.clone());
    for i in 0..n {
        builder.add(make_key(i), value(i)).unwrap();
    }
    let (footer, sst_writer) = builder.finish().unwrap();
    (sst_writer.into_inner().into_inner(), footer, option)
}

fn build_sst(n: u64, block_size: usize) -> (Vec<u8>, SstFooter, SstOption) {
    build_with(n, block_size, make_value)
}

fn make_iter(n: u64, block_size: usize) -> SstIter<InMemoryBlockReader> {
    let (bytes, footer, option) = build_sst(n, block_size);
    let reader = Arc::new(InMemoryBlockReader::new(Bytes::from(bytes), block_size));
    SstIter::new(reader, footer, option).unwrap()
}

// ── index tree ──

#[test]
fn test_seek_lands_on_block_containing_key() {
    let (data, footer, option) = build_with(100, 64, make_short_value);
    let reader = Arc::new(InMemoryBlockReader::new(Bytes::from(data), 64));
    let mut iter = IndexTreeIter::new(reader, &footer, &option).unwrap();
    ForwardIter::seek(&mut iter, make_key(50).as_ref()).unwrap();

    assert!(iter.valid());
    let pos = iter.value().unwrap();
    assert!(pos.offset > 0);
}

#[test]
fn test_seek_past_last_key_is_invalid() {
    let (data, footer, option) = build_with(10, 64, make_short_value);
    let reader = Arc::new(InMemoryBlockReader::new(Bytes::from(data), 64));
    let mut iter = IndexTreeIter::new(reader, &footer, &option).unwrap();
    ForwardIter::seek(&mut iter, make_key(1000).as_ref()).unwrap();

    assert!(!iter.valid());
}

#[test]
fn index_tree_forward_and_backward_visit_the_same_blocks() {
    let (data, footer, option) = build_sst(40, 64);
    assert!(footer.tree_height >= 4);
    let reader = Arc::new(InMemoryBlockReader::new(Bytes::from(data), 64));
    let mut iter = IndexTreeIter::new(reader, &footer, &option).unwrap();

    let mut forward = Vec::new();
    ForwardIter::seek_to_first(&mut iter).unwrap();
    while iter.valid() {
        forward.push((iter.key().unwrap().to_vec(), iter.value().unwrap().offset));
        ForwardIter::next(&mut iter).unwrap();
    }

    let mut backward = Vec::new();
    ReverseIter::seek_to_first(&mut iter).unwrap();
    while iter.valid() {
        backward.push((iter.key().unwrap().to_vec(), iter.value().unwrap().offset));
        ReverseIter::next(&mut iter).unwrap();
    }
    backward.reverse();

    assert!(!forward.is_empty());
    assert_eq!(forward, backward);
    // the leaf entries end at the last key of their blocks, in key order
    assert_eq!(forward.last().unwrap().0, make_key(39).to_vec());
    for w in forward.windows(2) {
        assert!(w[0].0 < w[1].0);
    }
}

#[test]
fn index_tree_reverse_seek_past_last_key_starts_from_last_block() {
    let (data, footer, option) = build_sst(40, 64);
    let reader = Arc::new(InMemoryBlockReader::new(Bytes::from(data), 64));
    let mut iter = IndexTreeIter::new(reader, &footer, &option).unwrap();
    ReverseIter::seek(&mut iter, make_key(1000).as_ref()).unwrap();
    assert!(iter.valid());
    assert_eq!(iter.key().unwrap(), make_key(39).as_ref());
}

#[test]
fn index_tree_of_empty_sst_is_invalid() {
    let (data, footer, option) = build_sst(0, 256);
    let reader = Arc::new(InMemoryBlockReader::new(Bytes::from(data), 256));
    let mut iter = IndexTreeIter::new(reader, &footer, &option).unwrap();
    ForwardIter::seek_to_first(&mut iter).unwrap();
    assert!(!iter.valid());
    ReverseIter::seek_to_first(&mut iter).unwrap();
    assert!(!iter.valid());
    assert!(iter.value().is_none());
}

// ── SST ──

#[test]
fn test_empty_sst_is_invalid() {
    let mut iter = make_iter(0, 256);
    ForwardIter::seek_to_first(&mut iter).unwrap();
    assert!(!iter.valid());
}

#[test]
fn test_seek_to_first_returns_first_key() {
    let mut iter = make_iter(200, 256);
    ForwardIter::seek_to_first(&mut iter).unwrap();
    assert!(iter.valid());
    assert_eq!(iter.key().unwrap(), make_key(0).as_ref());
    assert_eq!(iter.value().unwrap().as_array(), make_value(0).as_ref());
}

#[test]
fn test_next_iterates_all_keys_in_order() {
    let n = 200u64;
    let mut iter = make_iter(n, 256);
    ForwardIter::seek_to_first(&mut iter).unwrap();
    for i in 0..n {
        assert!(iter.valid(), "expected valid at i={}", i);
        assert_eq!(iter.key().unwrap(), make_key(i).as_ref());
        assert_eq!(iter.value().unwrap().as_array(), make_value(i).as_ref());
        ForwardIter::next(&mut iter).unwrap();
    }
    assert!(!iter.valid(), "expected invalid after last entry");
}

#[test]
fn test_deep_tree_full_scan_reaches_all_keys() {
    let n = 40u64;
    let mut iter = make_iter(n, 64);
    let (_bytes, footer, _option) = build_sst(n, 64);
    assert!(footer.tree_height >= 4, "expected deep tree, got height={}", footer.tree_height);

    ForwardIter::seek_to_first(&mut iter).unwrap();
    assert_eq!(iter.key().unwrap(), make_key(0).as_ref(), "seek_to_first must land on key 0");
    for i in 0..n {
        assert!(iter.valid(), "expected valid at i={}", i);
        assert_eq!(iter.key().unwrap(), make_key(i).as_ref(), "key mismatch at i={}", i);
        assert_eq!(iter.value().unwrap().as_array(), make_value(i).as_ref());
        ForwardIter::next(&mut iter).unwrap();
    }
    assert!(!iter.valid(), "expected invalid after last entry");
}

#[test]
fn test_reverse_deep_tree_full_scan_reaches_all_keys() {
    let n = 40u64;
    let (bytes, footer, _option) = build_sst(n, 64);
    assert!(footer.tree_height >= 4, "expected deep tree");
    let reader = Arc::new(InMemoryBlockReader::new(Bytes::from(bytes), 64));
    let mut iter = SstIter::new(reader, footer, SstOption::default().block_size(64)).unwrap();
    ReverseIter::seek_to_first(&mut iter).unwrap();
    assert_eq!(iter.key().unwrap(), make_key(n - 1).as_ref(), "reverse seek must land on last key");
    let mut got: Vec<u64> = Vec::new();
    while iter.valid() {
        let k = iter.key().unwrap();
        got.push(u64::from_be_bytes(k[..8].try_into().unwrap()));
        ReverseIter::next(&mut iter).unwrap();
    }
    let expect: Vec<u64> = (0..n).rev().collect();
    assert_eq!(got, expect);
}

#[test]
fn sst_iter_test_seek_exact_match() {
    let mut iter = make_iter(200, 256);
    let k = make_key(100);
    ForwardIter::seek(&mut iter, k.as_ref()).unwrap();
    assert!(iter.valid());
    assert_eq!(iter.key().unwrap(), k.as_ref());
    assert_eq!(iter.value().unwrap().as_array(), make_value(100).as_ref());
}

#[test]
fn sst_iter_test_seek_between_keys() {
    let mut iter = make_iter(200, 256);
    let mut between = make_key(50).to_vec();
    *between.last_mut().unwrap() += 1;
    ForwardIter::seek(&mut iter, &between).unwrap();
    assert!(iter.valid());
    assert_eq!(iter.key().unwrap(), make_key(51).as_ref());
}

#[test]
fn test_seek_before_first_key() {
    let mut iter = make_iter(200, 256);
    let before = vec![0u8; 7];
    ForwardIter::seek(&mut iter, &before).unwrap();
    assert!(iter.valid());
    assert_eq!(iter.key().unwrap(), make_key(0).as_ref());
}

#[test]
fn test_seek_after_last_key() {
    let mut iter = make_iter(200, 256);
    let beyond = make_key(u64::MAX);
    ForwardIter::seek(&mut iter, beyond.as_ref()).unwrap();
    assert!(!iter.valid());
}

#[test]
fn sst_reverse_seek_lands_on_last_key_not_above_target() {
    let mut iter = make_iter(200, 256);
    // between key(50) and key(51): the last key not above it is key(50)
    let mut between = make_key(50).to_vec();
    between.push(0);
    ReverseIter::seek(&mut iter, &between).unwrap();
    assert!(iter.valid());
    assert_eq!(iter.key().unwrap(), make_key(50).as_ref());
    ReverseIter::next(&mut iter).unwrap();
    assert_eq!(iter.key().unwrap(), make_key(49).as_ref());

    // past the last key: the last key
    ReverseIter::seek(&mut iter, make_key(u64::MAX).as_ref()).unwrap();
    assert_eq!(iter.key().unwrap(), make_key(199).as_ref());

    // before the first key: nothing
    ReverseIter::seek(&mut iter, &[0u8; 7]).unwrap();
    assert!(!iter.valid());
}

#[test]
fn sst_reverse_seek_steps_back_over_blocks_whose_keys_are_all_above_target() {
    let n = 200u64;
    let (bytes, footer, option) = build_sst(n, 256);
    let reader = Arc::new(InMemoryBlockReader::new(Bytes::from(bytes), 256));
    let mut iter = SstIter::new(reader, footer, option).unwrap();
    // every key from a seek lands on the key itself going backward
    for i in (0..n).step_by(7) {
        ReverseIter::seek(&mut iter, make_key(i).as_ref()).unwrap();
        assert!(iter.valid());
        assert_eq!(iter.key().unwrap(), make_key(i).as_ref());
        // and just below a key, on the key before it
        if i > 0 {
            let mut below = make_key(i).to_vec();
            *below.last_mut().unwrap() -= 1;
            below.push(0xff);
            ReverseIter::seek(&mut iter, &below).unwrap();
            assert_eq!(iter.key().unwrap(), make_key(i - 1).as_ref());
        }
    }
}

#[test]
fn checked_open_accepts_a_built_sst_and_scans_it() {
    let (bytes, footer, option) = build_sst(200, 128);
    let reader = Arc::new(InMemoryBlockReader::new(Bytes::from(bytes), 128));
    assert!(todb::iterators::sst_iter::check_sst(&reader, &footer).unwrap());
    let mut iter = SstIter::open(reader, footer, option).unwrap();
    ForwardIter::seek_to_first(&mut iter).unwrap();
    let mut n = 0u64;
    while iter.valid() {
        assert_eq!(iter.key().unwrap(), make_key(n).as_ref());
        n += 1;
        ForwardIter::next(&mut iter).unwrap();
    }
    assert_eq!(n, 200);
}

#[test]
fn checked_open_refuses_a_corrupt_data_block() {
    let (mut bytes, footer, option) = build_sst(50, 128);
    // the first data block announces far more entries than it holds
    bytes[0] = 0xff;
    let reader = Arc::new(InMemoryBlockReader::new(Bytes::from(bytes), 128));
    assert!(!todb::iterators::sst_iter::check_sst(&reader, &footer).unwrap());
    assert!(matches!(
        SstIter::open(reader, footer, option),
        Err(todb::errors::StorageError::InvalidValue(_))
    ));
}

#[test]
fn checked_open_refuses_an_index_whose_keys_disagree_with_its_children() {
    let (bytes, footer, option) = build_sst(50, 128);
    let reader = Arc::new(InMemoryBlockReader::new(Bytes::from(bytes.clone()), 128));
    assert!(todb::iterators::sst_iter::check_sst(&reader, &footer).unwrap());
    // flip the last byte of the last key of the SST in the first data block
    // holding it: the index no longer matches the data block's last key
    let mut corrupt = bytes;
    let last = make_key(49);
    let pos = corrupt
        .windows(last.len())
        .position(|w| w == last.as_ref())
        .unwrap();
    corrupt[pos + last.len() - 1] ^= 0x80;
    let reader = Arc::new(InMemoryBlockReader::new(Bytes::from(corrupt), 128));
    assert!(SstIter::open(reader, footer, option).is_err());
}

#[test]
fn built_ssts_of_many_sizes_read_back_every_entry() {
    for bs in [96usize, 128, 160] {
        for n in 1u64..600 {
            let option = SstOption::default().block_size(bs);
            let mut builder = SstBuilder::new(
                DefaultSstWriter::new(InMemoryBlockWriter::new(), &option),
                option.clone(),
            );
            for i in 0..n {
                builder.add(make_key(i), Bytes::from(vec![(i % 251) as u8; 40])).unwrap();
            }
            let (footer, writer) = builder.finish().unwrap();
            let bytes = Bytes::from(writer.into_inner().into_inner());
            let reader = Arc::new(InMemoryBlockReader::new(bytes, bs));
            let mut iter = SstIter::open(reader, footer, option).unwrap();
            ForwardIter::seek_to_first(&mut iter).unwrap();
            let mut i = 0u64;
            while iter.valid() {
                assert_eq!(iter.key().unwrap(), make_key(i).as_ref());
                i += 1;
                ForwardIter::next(&mut iter).unwrap();
            }
            assert_eq!(i, n, "block size {bs}, {n} entries");
        }
    }
}
