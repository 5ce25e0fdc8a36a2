//! SST file writers: raw block writers plus the footer.

use vstd::prelude::*;
use crate::block::{BlockWriter, Position};
use crate::builder::footer::SstFooter;
use crate::builder::sst::SstOption;
use crate::errors::StorageResult;

verus! {

/// SST format writer: fixed-size block slots followed by the footer.
/// `content` is everything written so far; `slot_size` is the block size.
pub trait SstWriter {
    spec fn content(&self) -> Seq<u8>;

    spec fn slot_size(&self) -> nat;

    /// How many more bytes writes are sure to accept.
    spec fn capacity(&self) -> int;

    /// Writes one block slot; the block must be exactly one slot long.
    fn write_block(&mut self, data: &[u8]) -> (r: StorageResult<Position>)
        requires
            data@.len() == old(self).slot_size(),
        ensures
            final(self).slot_size() == old(self).slot_size(),
            data@.len() <= old(self).capacity() ==> r is Ok,
            r is Ok ==> final(self).capacity() == old(self).capacity() - data@.len(),
            r is Err ==> final(self).capacity() == old(self).capacity(),
            r is Ok ==> {
                &&& r->Ok_0.offset == old(self).content().len()
                &&& final(self).content() == old(self).content() + data@
            },
            r is Err ==> final(self).content() == old(self).content(),
    ;

    /// Writes the encoded footer.
    fn write_footer(&mut self, footer: &SstFooter) -> (r: StorageResult<Position>)
        ensures
            final(self).slot_size() == old(self).slot_size(),
            footer.encoded().len() <= old(self).capacity() ==> r is Ok,
            r is Ok ==> final(self).capacity() == old(self).capacity() - footer.encoded().len(),
            r is Err ==> final(self).capacity() == old(self).capacity(),
            r is Ok ==> {
                &&& r->Ok_0.offset == old(self).content().len()
                &&& final(self).content() == old(self).content() + footer.encoded()
            },
            r is Err ==> final(self).content() == old(self).content(),
    ;
}

/// Default SST writer over any raw block writer.
pub struct DefaultSstWriter<W: BlockWriter> {
    inner: W,
    option: SstOption,
}

impl<W: BlockWriter> DefaultSstWriter<W> {
    pub closed spec fn inner_view(&self) -> W {
        self.inner
    }

    pub fn new(inner: W, option: &SstOption) -> (w: Self)
        ensures
            w.inner_view() == inner,
            w.slot_size() == option.block_size,
    {
        Self { inner, option: SstOption { block_size: option.block_size } }
    }

    pub fn into_inner(self) -> (w: W)
        ensures
            w == self.inner_view(),
    {
        self.inner
    }
}

impl<W: BlockWriter> SstWriter for DefaultSstWriter<W> {
    open spec fn content(&self) -> Seq<u8> {
        self.inner_view().content()
    }

    closed spec fn slot_size(&self) -> nat {
        self.option.block_size as nat
    }

    open spec fn capacity(&self) -> int {
        self.inner_view().capacity()
    }

    fn write_block(&mut self, data: &[u8]) -> (r: StorageResult<Position>) {
        self.inner.write_block(data)
    }

    /// The footer is not a block slot, so it is written as it is.
    fn write_footer(&mut self, footer: &SstFooter) -> (r: StorageResult<Position>) {
        let bytes = footer.encode();
        self.inner.write_block(bytes.as_slice())
    }
}

} // verus!
