//! Raw entry bytes as yielded by a block iterator.

use vstd::prelude::*;
use crate::codec::append_bytes;
use crate::iterators::storage_iter::AsArray;

verus! {

/// The raw bytes stored for one entry.
pub struct RawEntry {
    buf: Vec<u8>,
}

impl View for RawEntry {
    type V = Seq<u8>;

    closed spec fn view(&self) -> Seq<u8> {
        self.buf@
    }
}

impl RawEntry {
    /// Copies the bytes of `buf`.
    pub fn from_slice(buf: &[u8]) -> (e: RawEntry)
        ensures
            e@ == buf@,
    {
        let mut v: Vec<u8> = Vec::new();
        append_bytes(&mut v, buf);
        RawEntry { buf: v }
    }
}

impl AsArray for RawEntry {
    open spec fn array_view(&self) -> Seq<u8> {
        self@
    }

    fn as_array(&self) -> (s: &[u8]) {
        self.buf.as_slice()
    }
}

} // verus!
