use std::sync::Arc;

use bytes::Bytes;
use todb::block::{InMemoryBlockReader, InMemoryBlockWriter};
use todb::builder::sst::SstBuilder;
use todb::builder::{DefaultSstWriter, SstOption};
use todb::iterators::sst_iter::SstIter;
use todb::iterators::storage_iter::{ForwardIter, IterRead};

fn scan_count(n: u64, bs: usize) -> u64 {
    let option = SstOption::default().block_size(bs);
    let mut builder =
        SstBuilder::new(DefaultSstWriter::new(InMemoryBlockWriter::new(), &option), option.clone());
    for i in 0..n {
        builder.add(Bytes::copy_from_slice(&i.to_be_bytes()), Bytes::from(format!("v{}", i))).unwrap();
    }
    let (footer, w) = builder.finish().unwrap();
    let bytes = w.into_inner().into_inner();
    let reader = Arc::new(InMemoryBlockReader::new(Bytes::from(bytes), bs));
    let mut it = SstIter::new(reader, footer, option).unwrap();
    ForwardIter::seek_to_first(&mut it).unwrap();
    let mut c = 0;
    while it.valid() {
        c += 1;
        ForwardIter::next(&mut it).unwrap();
    }
    c
}

#[test]
fn sweep_full_scans() {
    let mut bad = Vec::new();
    for bs in [64usize, 72, 96, 128] {
        for n in 1..400u64 {
            let c = scan_count(n, bs);
            if c != n {
                bad.push((bs, n, c));
            }
        }
    }
    assert!(bad.is_empty(), "short scans: {:?}", &bad[..bad.len().min(20)]);
}

