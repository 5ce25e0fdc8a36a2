//! Decodes the stored bytes of index entries (`[version][child offset]`)
//! into child block positions.

use vstd::prelude::*;
use crate::block::Position;
use crate::builder::index_block::{INDEX_VALUE_LEN, INDEX_VALUE_VERSION};
use crate::codec::{append_bytes, be_value};
use crate::errors::{StorageError, StorageResult};
use crate::iterators::raw_entry::RawEntry;
use crate::iterators::storage_iter::{
    head_matches, item_val, tail, AsArray, ForwardIter, IterBase, IterRead, ReverseIter,
};

verus! {

/// The 8-byte child offset of a decoded index entry.
pub struct IndexEntryValue {
    buf: Vec<u8>,
}

impl IndexEntryValue {
    #[verifier::type_invariant]
    spec fn holds_offset(&self) -> bool {
        self.buf@.len() == 8
    }
}

impl View for IndexEntryValue {
    type V = Seq<u8>;

    closed spec fn view(&self) -> Seq<u8> {
        self.buf@
    }
}

impl AsArray for IndexEntryValue {
    open spec fn array_view(&self) -> Seq<u8> {
        self@
    }

    fn as_array(&self) -> (s: &[u8]) {
        self.buf.as_slice()
    }
}

impl From<IndexEntryValue> for Position {
    fn from(value: IndexEntryValue) -> (p: Position) {
        proof {
            use_type_invariant(&value);
        }
        Position::from_bytes(value.buf.as_slice())
    }
}

impl vstd::std_specs::convert::FromSpecImpl<IndexEntryValue> for Position {
    open spec fn obeys_from_spec() -> bool {
        true
    }

    open spec fn from_spec(v: IndexEntryValue) -> Position {
        Position { offset: be_value(v@) as u64 }
    }
}

/// The stored bytes are a known version byte followed by an 8-byte offset.
pub open spec fn index_header_ok(raw: Seq<u8>) -> bool {
    &&& raw.len() >= 1
    &&& raw[0] == INDEX_VALUE_VERSION
    &&& raw.len() == INDEX_VALUE_LEN
}

/// Each item's stored bytes replaced by the child offset bytes they carry.
pub open spec fn index_items(items: Seq<(Seq<u8>, Seq<u8>)>) -> Seq<(Seq<u8>, Seq<u8>)> {
    Seq::new(items.len(), |i: int| (items[i].0, items[i].1.skip(1)))
}

/// The decoded form of one current item.
pub open spec fn index_current(c: Option<(Seq<u8>, Seq<u8>)>) -> Option<(Seq<u8>, Seq<u8>)> {
    match c {
        Some(it) => Some((it.0, it.1.skip(1))),
        None => None,
    }
}

proof fn lemma_index_head(c: Option<(Seq<u8>, Seq<u8>)>, rest: Seq<(Seq<u8>, Seq<u8>)>)
    requires
        head_matches(c, rest),
    ensures
        head_matches(index_current(c), index_items(rest)),
{
}

proof fn lemma_index_tail(rest: Seq<(Seq<u8>, Seq<u8>)>)
    ensures
        index_items(tail(rest)) == tail(index_items(rest)),
{
    assert(index_items(tail(rest)) =~= tail(index_items(rest)));
}

struct IndexEntryHeader {
    _format_version: u8,
    payload_start: usize,
}

/// Dropping the first item keeps every header valid.
proof fn lemma_index_headers_ok_tail(items: Seq<(Seq<u8>, Seq<u8>)>)
    ensures
        index_headers_ok(items) ==> index_headers_ok(tail(items)),
{
    if index_headers_ok(items) && items.len() > 0 {
        assert forall|i: int| 0 <= i < tail(items).len() implies #[trigger] index_header_ok(tail(items)[i].1) by {
            assert(tail(items)[i] == items[i + 1]);
        }
    }
}

/// Every item's stored bytes carry a valid header.
pub open spec fn index_headers_ok(items: Seq<(Seq<u8>, Seq<u8>)>) -> bool {
    forall|i: int| 0 <= i < items.len() ==> #[trigger] index_header_ok(items[i].1)
}

/// Decodes the entries of an index-block iterator `I` on the fly.
pub struct IndexEntryDecodeIter<I> {
    input: I,
    header: Option<IndexEntryHeader>,
}

impl<I> IndexEntryDecodeIter<I> {
    pub closed spec fn inner(&self) -> I {
        self.input
    }

    /// Nothing has been decoded yet.
    pub closed spec fn fresh(&self) -> bool {
        self.header is None
    }

    /// Wraps `input`; nothing is decoded until the iterator is positioned.
    pub fn new(input: I) -> (s: Self)
        ensures
            s.inner() == input,
            s.fresh(),
    {
        IndexEntryDecodeIter { input, header: None }
    }

    /// Checks the version byte and the length of one stored index value.
    /// Fails with `InvalidValue` on an empty buffer, an unknown version or a
    /// payload that is not exactly one offset.
    fn decode_header(&self, buf: &[u8]) -> (r: StorageResult<IndexEntryHeader>)
        ensures
            r is Ok <==> index_header_ok(buf@),
            r matches Ok(h) ==> h.payload_start == 1,
            r matches Err(e) ==> e is InvalidValue,
    {
        if buf.len() == 0 {
            return Err(StorageError::InvalidValue("index entry header too short".to_owned()));
        }
        let format_version = buf[0];
        if format_version != INDEX_VALUE_VERSION {
            return Err(StorageError::InvalidValue("unknown index entry version".to_owned()));
        }
        if buf.len() != INDEX_VALUE_LEN {
            return Err(
                StorageError::InvalidValue("invalid index entry payload length".to_owned()),
            );
        }
        Ok(IndexEntryHeader { _format_version: format_version, payload_start: 1 })
    }
}

impl<I> IndexEntryDecodeIter<I> where I: IterRead + IterBase<Value = RawEntry> {
    /// Decodes the header of the input's current entry. Succeeds when the
    /// input is exhausted or its current entry is a valid index value.
    fn refresh(&mut self) -> (r: StorageResult<()>)
        requires
            old(self).input.wf(),
        ensures
            final(self).input == old(self).input,
            final(self).wf(),
            old(self).input.current() is None ==> r is Ok,
            old(self).input.current() is Some && old(self).input.ready() ==> (r is Ok
                <==> index_header_ok(item_val(old(self).input.current()->0))),
            r is Ok ==> final(self).ready() == old(self).input.ready(),
    {
        self.header = None;
        if !self.input.valid() {
            return Ok(());
        }
        let value = match self.input.value() {
            Some(v) => v,
            None => {
                return Err(
                    StorageError::InvalidValue(
                        "valid iterator has no index entry value".to_owned(),
                    ),
                );
            },
        };
        let h = self.decode_header(value.as_array())?;
        self.header = Some(h);
        Ok(())
    }
}

impl<I> IndexEntryDecodeIter<I> where I: ForwardIter + IterBase<Value = RawEntry> {
    /// Positions at the first entry whose key is not below `target` (the
    /// lower bound), the way index navigation locates a child block.
    pub fn seek_lower_bound(&mut self, target: &[u8]) -> (r: StorageResult<()>)
        requires
            old(self).wf(),
        ensures
            final(self).wf(),
            final(self).fwd_all() == old(self).fwd_all(),
            forall|t: Seq<u8>| #[trigger] final(self).fwd_seek_rest(t) == old(self).fwd_seek_rest(t),
            r is Ok ==> {
                &&& final(self).fwd_mode()
                &&& final(self).ready()
                &&& final(self).fwd_rest() == final(self).fwd_seek_rest(target@)
            },
            final(self).inner().current() is Some && final(self).inner().ready()
                && !index_header_ok(item_val(final(self).inner().current()->0)) ==> r is Err,
            final(self).inner().fwd_all() == old(self).inner().fwd_all(),
            old(self).fwd_faultless() ==> r is Ok && final(self).fwd_faultless(),
    {
        self.header = None;
        let ghost was_faultless = self.fwd_faultless();
        let ghost old_in = self.input;
        self.input.seek(target)?;
        proof {
            if was_faultless {
                assert(index_headers_ok(old_in.fwd_seek_rest(target@)));
                self.input.lemma_fwd_head();
                if self.input.current() is Some {
                    assert(index_header_ok(self.input.fwd_rest()[0].1));
                }
            }
        }
        self.refresh()
    }
}

impl<I> IterBase for IndexEntryDecodeIter<I> {
    type Value = IndexEntryValue;
}

impl<I> IterRead for IndexEntryDecodeIter<I> where I: IterRead + IterBase<Value = RawEntry> {
    closed spec fn wf(&self) -> bool {
        &&& self.input.wf()
        &&& self.header matches Some(h) ==> {
            &&& self.input.current() is Some
            &&& index_header_ok(item_val(self.input.current()->0))
            &&& h.payload_start == 1
        }
    }

    closed spec fn current(&self) -> Option<(Seq<u8>, Seq<u8>)> {
        index_current(self.input.current())
    }

    closed spec fn ready(&self) -> bool {
        &&& self.input.ready()
        &&& self.input.current() is Some ==> self.header is Some
    }

    fn valid(&self) -> (b: bool) {
        self.input.valid()
    }

    fn key(&self) -> (k: Option<&[u8]>) {
        self.input.key()
    }

    fn value(&self) -> (v: Option<IndexEntryValue>) {
        if !self.valid() {
            return None;
        }
        let value = match self.input.value() {
            Some(v) => v,
            None => {
                return None;
            },
        };
        let h = match &self.header {
            Some(h) => h,
            None => {
                return None;
            },
        };
        let raw = value.as_array();
        let mut buf: Vec<u8> = Vec::new();
        append_bytes(&mut buf, vstd::slice::slice_subrange(raw, h.payload_start, raw.len()));
        assert(buf@ =~= raw@.skip(1));
        Some(IndexEntryValue { buf })
    }
}

impl<I> ForwardIter for IndexEntryDecodeIter<I> where I: ForwardIter + IterBase<Value = RawEntry> {
    closed spec fn fwd_all(&self) -> Seq<(Seq<u8>, Seq<u8>)> {
        index_items(self.input.fwd_all())
    }

    closed spec fn fwd_rest(&self) -> Seq<(Seq<u8>, Seq<u8>)> {
        index_items(self.input.fwd_rest())
    }

    closed spec fn fwd_seek_rest(&self, target: Seq<u8>) -> Seq<(Seq<u8>, Seq<u8>)> {
        index_items(self.input.fwd_seek_rest(target))
    }

    closed spec fn fwd_mode(&self) -> bool {
        self.input.fwd_mode()
    }

    /// The input cannot fail, and every item it can yield forward (a full
    /// scan, any seek, what is left of the current scan) has a valid header.
    open spec fn fwd_faultless(&self) -> bool {
        &&& self.inner().fwd_faultless()
        &&& index_headers_ok(self.inner().fwd_all())
        &&& forall|t: Seq<u8>| #[trigger] index_headers_ok(self.inner().fwd_seek_rest(t))
        &&& self.inner().fwd_mode() ==> index_headers_ok(self.inner().fwd_rest())
    }

    proof fn lemma_fwd_head(&self) {
        self.input.lemma_fwd_head();
        lemma_index_head(self.input.current(), self.input.fwd_rest());
    }

    fn seek_to_first(&mut self) -> (r: StorageResult<()>)
        ensures
            final(self).inner().current() is Some && final(self).inner().ready()
                && !index_header_ok(item_val(final(self).inner().current()->0)) ==> r is Err,
            final(self).inner().fwd_all() == old(self).inner().fwd_all(),
    {
        self.header = None;
        let ghost was_faultless = self.fwd_faultless();
        self.input.seek_to_first()?;
        proof {
            if was_faultless {
                self.input.lemma_fwd_head();
                if self.input.current() is Some {
                    assert(index_header_ok(self.input.fwd_rest()[0].1));
                }
            }
        }
        self.refresh()
    }

    fn seek(&mut self, target: &[u8]) -> (r: StorageResult<()>)
        ensures
            final(self).inner().current() is Some && final(self).inner().ready()
                && !index_header_ok(item_val(final(self).inner().current()->0)) ==> r is Err,
            final(self).inner().fwd_all() == old(self).inner().fwd_all(),
    {
        self.header = None;
        let ghost was_faultless = self.fwd_faultless();
        let ghost old_in = self.input;
        self.input.seek(target)?;
        proof {
            if was_faultless {
                assert(index_headers_ok(old_in.fwd_seek_rest(target@)));
                self.input.lemma_fwd_head();
                if self.input.current() is Some {
                    assert(index_header_ok(self.input.fwd_rest()[0].1));
                }
            }
        }
        self.refresh()
    }

    fn next(&mut self) -> (r: StorageResult<()>)
        ensures
            final(self).inner().current() is Some && final(self).inner().ready()
                && !index_header_ok(item_val(final(self).inner().current()->0)) ==> r is Err,
            final(self).inner().fwd_all() == old(self).inner().fwd_all(),
    {
        self.header = None;
        let ghost rest = self.input.fwd_rest();
        let ghost was_faultless = self.fwd_faultless();
        self.input.next()?;
        proof {
            if was_faultless {
            lemma_index_headers_ok_tail(rest);
                self.input.lemma_fwd_head();
                if self.input.current() is Some {
                    assert(index_header_ok(self.input.fwd_rest()[0].1));
                }
            }
        }
        proof {
            lemma_index_tail(rest);
        }
        self.refresh()
    }
}

impl<I> ReverseIter for IndexEntryDecodeIter<I> where I: ReverseIter + IterBase<Value = RawEntry> {
    closed spec fn rev_all(&self) -> Seq<(Seq<u8>, Seq<u8>)> {
        index_items(self.input.rev_all())
    }

    closed spec fn rev_rest(&self) -> Seq<(Seq<u8>, Seq<u8>)> {
        index_items(self.input.rev_rest())
    }

    closed spec fn rev_seek_rest(&self, target: Seq<u8>) -> Seq<(Seq<u8>, Seq<u8>)> {
        index_items(self.input.rev_seek_rest(target))
    }

    closed spec fn rev_mode(&self) -> bool {
        self.input.rev_mode()
    }

    /// The input cannot fail, and every item it can yield backward (a full
    /// scan, any seek, what is left of the current scan) has a valid header.
    open spec fn rev_faultless(&self) -> bool {
        &&& self.inner().rev_faultless()
        &&& index_headers_ok(self.inner().rev_all())
        &&& forall|t: Seq<u8>| #[trigger] index_headers_ok(self.inner().rev_seek_rest(t))
        &&& self.inner().rev_mode() ==> index_headers_ok(self.inner().rev_rest())
    }

    proof fn lemma_rev_head(&self) {
        self.input.lemma_rev_head();
        lemma_index_head(self.input.current(), self.input.rev_rest());
    }

    fn seek_to_first(&mut self) -> (r: StorageResult<()>)
        ensures
            final(self).inner().current() is Some && final(self).inner().ready()
                && !index_header_ok(item_val(final(self).inner().current()->0)) ==> r is Err,
            final(self).inner().rev_all() == old(self).inner().rev_all(),
    {
        self.header = None;
        let ghost was_faultless = self.rev_faultless();
        self.input.seek_to_first()?;
        proof {
            if was_faultless {
                self.input.lemma_rev_head();
                if self.input.current() is Some {
                    assert(index_header_ok(self.input.rev_rest()[0].1));
                }
            }
        }
        self.refresh()
    }

    fn seek(&mut self, target: &[u8]) -> (r: StorageResult<()>)
        ensures
            final(self).inner().current() is Some && final(self).inner().ready()
                && !index_header_ok(item_val(final(self).inner().current()->0)) ==> r is Err,
            final(self).inner().rev_all() == old(self).inner().rev_all(),
    {
        self.header = None;
        let ghost was_faultless = self.rev_faultless();
        let ghost old_in = self.input;
        self.input.seek(target)?;
        proof {
            if was_faultless {
                assert(index_headers_ok(old_in.rev_seek_rest(target@)));
                self.input.lemma_rev_head();
                if self.input.current() is Some {
                    assert(index_header_ok(self.input.rev_rest()[0].1));
                }
            }
        }
        self.refresh()
    }

    fn next(&mut self) -> (r: StorageResult<()>)
        ensures
            final(self).inner().current() is Some && final(self).inner().ready()
                && !index_header_ok(item_val(final(self).inner().current()->0)) ==> r is Err,
            final(self).inner().rev_all() == old(self).inner().rev_all(),
    {
        self.header = None;
        let ghost rest = self.input.rev_rest();
        let ghost was_faultless = self.rev_faultless();
        self.input.next()?;
        proof {
            if was_faultless {
            lemma_index_headers_ok_tail(rest);
                self.input.lemma_rev_head();
                if self.input.current() is Some {
                    assert(index_header_ok(self.input.rev_rest()[0].1));
                }
            }
        }
        proof {
            lemma_index_tail(rest);
        }
        self.refresh()
    }
}

impl<I> IndexEntryDecodeIter<I> where
    I: ForwardIter + ReverseIter + IterBase<Value = RawEntry>,
 {
    /// A fresh decoder over a well-formed input is well formed.
    pub proof fn lemma_fresh(&self)
        requires
            self.fresh(),
            self.inner().wf(),
        ensures
            self.wf(),
    {
    }

    /// The decoder's models are the input's, with each value decoded.
    pub proof fn lemma_model(&self)
        requires
            self.wf(),
        ensures
            self.inner().wf(),
            self.current() == index_current(self.inner().current()),
            self.fwd_all() == index_items(self.inner().fwd_all()),
            self.fwd_rest() == index_items(self.inner().fwd_rest()),
            forall|t: Seq<u8>| #[trigger]
                self.fwd_seek_rest(t) == index_items(self.inner().fwd_seek_rest(t)),
            self.rev_all() == index_items(self.inner().rev_all()),
            self.rev_rest() == index_items(self.inner().rev_rest()),
            forall|t: Seq<u8>| #[trigger]
                self.rev_seek_rest(t) == index_items(self.inner().rev_seek_rest(t)),
            ForwardIter::fwd_mode(self) == ForwardIter::fwd_mode(&self.inner()),
            ReverseIter::rev_mode(self) == ReverseIter::rev_mode(&self.inner()),
    {
    }
}

} // verus!
