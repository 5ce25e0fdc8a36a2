//! Block positions, block writers and block readers.

use vstd::prelude::*;
use bytes::Bytes;
use crate::buf::{bytes_as_slice, bytes_slice, bytes_view};
use crate::codec::{be_value, read_u64_be};
use crate::errors::{StorageError, StorageResult};

verus! {

/// File position of a block: a byte offset.
#[derive(Debug, Clone, Copy, PartialEq, Eq, Structural)]
pub struct Position {
    pub offset: u64,
}

impl View for Position {
    type V = u64;

    open spec fn view(&self) -> u64 {
        self.offset
    }
}

impl Position {
    /// Reads a position from its 8-byte big-endian encoding.
    pub fn from_bytes(value: &[u8]) -> (p: Position)
        requires
            value@.len() == 8,
        ensures
            p.offset == be_value(value@),
    {
        let offset = read_u64_be(value, 0);
        assert(value@.subrange(0, 8) =~= value@);
        Position { offset }
    }
}

/// A sink of blocks (memory, file, ...). `content` is everything written so
/// far; a write appends the block and reports where it starts.
pub trait BlockWriter {
    spec fn content(&self) -> Seq<u8>;

    /// How many more bytes writes are sure to accept.
    spec fn capacity(&self) -> int;

    fn write_block(&mut self, data: &[u8]) -> (r: StorageResult<Position>)
        ensures
            data@.len() <= old(self).capacity() ==> r is Ok,
            r is Ok ==> final(self).capacity() == old(self).capacity() - data@.len(),
            r is Err ==> final(self).capacity() == old(self).capacity(),
            r is Ok ==> {
                &&& r->Ok_0.offset == old(self).content().len()
                &&& final(self).content() == old(self).content() + data@
            },
            r is Err ==> final(self).content() == old(self).content(),
    ;
}

/// In-memory block writer: appends blocks to a `Vec<u8>`.
pub struct InMemoryBlockWriter {
    buf: Vec<u8>,
    next_offset: u64,
}

impl InMemoryBlockWriter {
    /// The bytes written so far.
    pub closed spec fn view(&self) -> Seq<u8> {
        self.buf@
    }

    #[verifier::type_invariant]
    spec fn wf(&self) -> bool {
        self.next_offset == self.buf@.len()
    }

    pub fn new() -> (w: Self)
        ensures
            w.view() == Seq::<u8>::empty(),
    {
        Self { buf: Vec::new(), next_offset: 0 }
    }

    pub fn into_inner(self) -> (v: Vec<u8>)
        ensures
            v@ == self.view(),
    {
        self.buf
    }

    pub fn as_slice(&self) -> (s: &[u8])
        ensures
            s@ == self.view(),
    {
        self.buf.as_slice()
    }
}

impl BlockWriter for InMemoryBlockWriter {
    open spec fn content(&self) -> Seq<u8> {
        self.view()
    }

    /// Offsets are `u64`: the total written stays within `u64::MAX`.
    open spec fn capacity(&self) -> int {
        u64::MAX - self.view().len()
    }

    /// Appends the block. Offsets are `u64`: a write that would carry the
    /// total past `u64::MAX` is refused with `InternalError` and writes
    /// nothing.
    fn write_block(&mut self, data: &[u8]) -> (r: StorageResult<Position>)
        ensures
            r is Ok <==> old(self).view().len() + data@.len() <= u64::MAX,
            r is Err ==> final(self).view() == old(self).view() && r->Err_0 is InternalError,
    {
        proof {
            use_type_invariant(&*self);
        }
        let size = data.len() as u64;
        if data.len() as u128 > (u64::MAX - self.next_offset) as u128 {
            return Err(StorageError::InternalError("block offset overflow".to_owned()));
        }
        let mut this = InMemoryBlockWriter::new();
        std::mem::swap(&mut this, self);
        let InMemoryBlockWriter { mut buf, next_offset } = this;
        let offset = next_offset;
        let ghost old_buf = buf@;
        let mut i: usize = 0;
        while i < data.len()
            invariant
                i <= data@.len(),
                buf@ == old_buf + data@.subrange(0, i as int),
            decreases data@.len() - i,
        {
            buf.push(data[i]);
            assert(data@.subrange(0, i + 1) =~= data@.subrange(0, i as int).push(data@[i as int]));
            i += 1;
        }
        assert(data@.subrange(0, data@.len() as int) =~= data@);
        *self = InMemoryBlockWriter { buf, next_offset: offset + size };
        Ok(Position { offset })
    }
}

/// A source of fixed-size blocks.
pub trait BlockReader {
    spec fn source(&self) -> Seq<u8>;

    spec fn spec_block_size(&self) -> nat;

    /// A read at `offset` succeeds.
    spec fn readable(&self, offset: u64) -> bool;

    fn read_block(&self, position: &Position) -> (r: StorageResult<Bytes>)
        ensures
            self.readable(position.offset) == (r is Ok),
            r is Ok ==> bytes_view(r->Ok_0) == read_window(
                self.source(),
                position.offset as int,
                self.spec_block_size(),
            ),
    ;

    fn block_size(&self) -> (n: usize)
        ensures
            n == self.spec_block_size(),
    ;
}

/// A shared reader reads what the reader it shares reads.
impl<R: BlockReader> BlockReader for std::sync::Arc<R> {
    open spec fn source(&self) -> Seq<u8> {
        (**self).source()
    }

    open spec fn spec_block_size(&self) -> nat {
        (**self).spec_block_size()
    }

    open spec fn readable(&self, offset: u64) -> bool {
        (**self).readable(offset)
    }

    fn read_block(&self, position: &Position) -> (r: StorageResult<Bytes>) {
        (**self).read_block(position)
    }

    fn block_size(&self) -> (n: usize) {
        (**self).block_size()
    }
}

/// The up-to-`size` bytes of `src` starting at `start`.
pub open spec fn read_window(src: Seq<u8>, start: int, size: nat) -> Seq<u8> {
    let end = if start + size <= src.len() {
        start + size
    } else {
        src.len() as int
    };
    src.subrange(start, end)
}

/// In-memory block reader over a shared buffer.
pub struct InMemoryBlockReader {
    buf: Bytes,
    block_size: usize,
}

impl InMemoryBlockReader {
    pub closed spec fn view(&self) -> (Seq<u8>, nat) {
        (bytes_view(self.buf), self.block_size as nat)
    }

    pub fn new(buf: Bytes, block_size: usize) -> (r: Self)
        ensures
            r.view() == (bytes_view(buf), block_size as nat),
    {
        Self { buf, block_size }
    }
}

impl BlockReader for InMemoryBlockReader {
    open spec fn source(&self) -> Seq<u8> {
        self.view().0
    }

    open spec fn spec_block_size(&self) -> nat {
        self.view().1
    }

    /// Any offset up to the end of the buffer can be read.
    open spec fn readable(&self, offset: u64) -> bool {
        offset <= self.source().len()
    }

    /// Reads the block at `position`: `block_size` bytes, or fewer when the
    /// buffer ends first. A position past the end is `InvalidKey`.
    fn read_block(&self, position: &Position) -> (r: StorageResult<Bytes>)
        ensures
            r is Ok <==> position.offset <= self.source().len(),
            r is Err ==> r->Err_0 is InvalidKey,
    {
        let len = bytes_as_slice(&self.buf).len();
        if position.offset > len as u64 {
            return Err(StorageError::InvalidKey("position out of bounds".to_owned()));
        }
        let start = position.offset as usize;
        let end = if self.block_size <= len - start {
            start + self.block_size
        } else {
            len
        };
        Ok(bytes_slice(&self.buf, start, end))
    }

    fn block_size(&self) -> (n: usize) {
        self.block_size
    }
}

} // verus!
