use std::sync::Arc;

use bytes::Bytes;
use todb::block::{BlockReader, BlockWriter, InMemoryBlockReader, InMemoryBlockWriter, Position};
use todb::errors::{StorageError, StorageResult};

#[test]
fn test_position_is_offset_only() {
    let p = Position { offset: 42 };
    assert_eq!(p.offset, 42);
}

#[test]
fn test_reader_reports_block_size() {
    let reader = InMemoryBlockReader::new(Bytes::new(), 4096);
    assert_eq!(reader.block_size(), 4096);
}

#[test]
fn test_reader_reads_fixed_size_block() -> StorageResult<()> {
    let block_size = 4;
    let data = vec![1u8, 2, 3, 4, 5, 6, 7, 8];
    let reader = InMemoryBlockReader::new(Bytes::from(data), block_size);

    let b0 = reader.read_block(&Position { offset: 0 })?;
    let b1 = reader.read_block(&Position { offset: 4 })?;

    assert_eq!(b0.as_ref(), &[1, 2, 3, 4]);
    assert_eq!(b1.as_ref(), &[5, 6, 7, 8]);
    Ok(())
}

#[test]
fn test_reader_handles_short_last_block() -> StorageResult<()> {
    let block_size = 4;
    let data = vec![0u8, 0, 0, 0, 9, 8, 7];
    let reader = InMemoryBlockReader::new(Bytes::from(data), block_size);

    let b = reader.read_block(&Position { offset: 4 })?;
    assert_eq!(b.as_ref(), &[9, 8, 7]);
    Ok(())
}

#[test]
fn test_in_memory_writer_appends_and_returns_position() -> StorageResult<()> {
    let mut writer = InMemoryBlockWriter::new();

    let p1 = writer.write_block(&[1u8, 2, 3])?;
    let p2 = writer.write_block(&[4u8, 5])?;

    assert_eq!(p1, Position { offset: 0 });
    assert_eq!(p2, Position { offset: 3 });
    assert_eq!(writer.as_slice(), &[1, 2, 3, 4, 5]);
    Ok(())
}

#[test]
fn test_writer_reader_round_trip() -> StorageResult<()> {
    let block_size = 4;
    let mut writer = InMemoryBlockWriter::new();

    let p1 = writer.write_block(&[0u8, 1, 2, 3])?;
    let p2 = writer.write_block(&[3u8, 2, 1, 0])?;

    assert_eq!(p1, Position { offset: 0 });
    assert_eq!(p2, Position { offset: 4 });

    let reader = InMemoryBlockReader::new(Bytes::from(writer.into_inner()), block_size);
    let b1 = reader.read_block(&p1)?;
    let b2 = reader.read_block(&p2)?;

    assert_eq!(b1.as_ref(), &[0, 1, 2, 3]);
    assert_eq!(b2.as_ref(), &[3, 2, 1, 0]);
    Ok(())
}

#[test]
fn test_arc_block_reader() -> StorageResult<()> {
    let block_size = 4;
    let data = vec![1u8, 2, 3, 4, 5, 6, 7, 8];
    let reader = Arc::new(InMemoryBlockReader::new(Bytes::from(data), block_size));

    let guard = reader.read_block(&Position { offset: 0 })?;
    assert_eq!(&*guard, &[1, 2, 3, 4]);
    assert_eq!(reader.block_size(), 4);
    Ok(())
}

#[test]
fn reader_rejects_position_past_end() {
    let reader = InMemoryBlockReader::new(Bytes::from(vec![1u8, 2]), 4);
    match reader.read_block(&Position { offset: 3 }) {
        Err(StorageError::InvalidKey(_)) => {}
        other => panic!("expected InvalidKey, got {:?}", other),
    }
    // The end itself is a valid (empty) block.
    assert_eq!(reader.read_block(&Position { offset: 2 }).unwrap().len(), 0);
}

#[test]
fn position_from_bytes_reads_big_endian() {
    let p = Position::from_bytes(&[0, 0, 0, 0, 0, 0, 0x01, 0x02]);
    assert_eq!(p.offset, 0x0102);
}
