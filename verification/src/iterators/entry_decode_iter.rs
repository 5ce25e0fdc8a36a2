//! Decodes the stored bytes of data entries (`[version][kind][payload]`)
//! into live values and delete tombstones.

use vstd::prelude::*;
use crate::builder::data_block::{DATA_ENTRY_VERSION, KIND_DELETE, KIND_PUT};
use crate::codec::append_bytes;
use crate::errors::{StorageError, StorageResult};
use crate::iterators::raw_entry::RawEntry;
use crate::memtable::Entry;
use crate::iterators::storage_iter::{
    head_matches, item_val, tail, AsArray, ForwardIter, IterBase, IterRead, ReverseIter,
};

verus! {

/// A decoded data entry: a live value with its payload, or a tombstone.
pub enum EntryValue {
    Put(Vec<u8>),
    Delete,
}

impl View for EntryValue {
    /// `Some(payload)` for a live value, `None` for a tombstone.
    type V = Option<Seq<u8>>;

    open spec fn view(&self) -> Option<Seq<u8>> {
        match self {
            EntryValue::Put(v) => Some(v@),
            EntryValue::Delete => None,
        }
    }
}

impl AsArray for EntryValue {
    open spec fn array_view(&self) -> Seq<u8> {
        match self {
            EntryValue::Put(v) => v@,
            EntryValue::Delete => Seq::empty(),
        }
    }

    fn as_array(&self) -> (s: &[u8]) {
        match self {
            EntryValue::Put(buf) => buf.as_slice(),
            EntryValue::Delete => {
                let e: &[u8] = &[];
                assert(e@ =~= Seq::<u8>::empty());
                e
            },
        }
    }
}

impl From<EntryValue> for Entry<Vec<u8>> {
    fn from(v: EntryValue) -> (e: Entry<Vec<u8>>) {
        match v {
            EntryValue::Put(data) => Entry::Put(data),
            EntryValue::Delete => Entry::Delete,
        }
    }
}

impl vstd::std_specs::convert::FromSpecImpl<EntryValue> for Entry<Vec<u8>> {
    open spec fn obeys_from_spec() -> bool {
        true
    }

    open spec fn from_spec(v: EntryValue) -> Entry<Vec<u8>> {
        match v {
            EntryValue::Put(data) => Entry::Put(data),
            EntryValue::Delete => Entry::Delete,
        }
    }
}

/// The stored bytes carry a known version and a known entry kind.
pub open spec fn entry_header_ok(raw: Seq<u8>) -> bool {
    &&& raw.len() >= 2
    &&& raw[0] == DATA_ENTRY_VERSION
    &&& (raw[1] == KIND_PUT || raw[1] == KIND_DELETE)
}

/// The entry that stored bytes with a valid header decode to.
pub open spec fn decoded_entry(raw: Seq<u8>) -> Option<Seq<u8>> {
    if raw[1] == KIND_DELETE {
        None
    } else {
        Some(raw.skip(2))
    }
}

/// Each item's stored bytes replaced by the entry they decode to.
pub open spec fn decode_items(items: Seq<(Seq<u8>, Seq<u8>)>) -> Seq<(Seq<u8>, Option<Seq<u8>>)> {
    Seq::new(items.len(), |i: int| (items[i].0, decoded_entry(items[i].1)))
}

/// The decoded form of one current item.
pub open spec fn decode_current(c: Option<(Seq<u8>, Seq<u8>)>) -> Option<(Seq<u8>, Option<Seq<u8>>)> {
    match c {
        Some(it) => Some((it.0, decoded_entry(it.1))),
        None => None,
    }
}

proof fn lemma_decode_head(c: Option<(Seq<u8>, Seq<u8>)>, rest: Seq<(Seq<u8>, Seq<u8>)>)
    requires
        head_matches(c, rest),
    ensures
        head_matches(decode_current(c), decode_items(rest)),
{
}

proof fn lemma_decode_tail(rest: Seq<(Seq<u8>, Seq<u8>)>)
    ensures
        decode_items(tail(rest)) == tail(decode_items(rest)),
{
    assert(decode_items(tail(rest)) =~= tail(decode_items(rest)));
}

#[derive(Clone, Copy, PartialEq, Eq, Structural)]
enum EntryKind {
    Put,
    Delete,
}

struct EntryHeader {
    entry_kind: EntryKind,
    payload_start: usize,
}

/// The header `h` is what the stored bytes `raw` declare.
spec fn header_matches(h: EntryHeader, raw: Seq<u8>) -> bool {
    &&& entry_header_ok(raw)
    &&& h.payload_start == 2
    &&& (h.entry_kind == EntryKind::Delete <==> raw[1] == KIND_DELETE)
}

/// Dropping the first item keeps every header valid.
proof fn lemma_headers_ok_tail(items: Seq<(Seq<u8>, Seq<u8>)>)
    ensures
        headers_ok(items) ==> headers_ok(tail(items)),
{
    if headers_ok(items) && items.len() > 0 {
        assert forall|i: int| 0 <= i < tail(items).len() implies #[trigger] entry_header_ok(tail(items)[i].1) by {
            assert(tail(items)[i] == items[i + 1]);
        }
    }
}

/// Every item's stored bytes carry a valid header.
pub open spec fn headers_ok(items: Seq<(Seq<u8>, Seq<u8>)>) -> bool {
    forall|i: int| 0 <= i < items.len() ==> #[trigger] entry_header_ok(items[i].1)
}

/// Decodes the entries of a data-block iterator `I` on the fly.
pub struct EntryDecodeIter<I> {
    input: I,
    entry_header: Option<EntryHeader>,
}

impl<I> EntryDecodeIter<I> {
    pub closed spec fn inner(&self) -> I {
        self.input
    }

    /// Nothing has been decoded yet.
    pub closed spec fn fresh(&self) -> bool {
        self.entry_header is None
    }

    /// Wraps `input`; nothing is decoded until the iterator is positioned.
    pub fn new(input: I) -> (s: Self)
        ensures
            s.inner() == input,
            s.fresh(),
    {
        EntryDecodeIter { input, entry_header: None }
    }

    /// Checks the version and kind bytes of one stored entry. Fails with
    /// `InvalidValue` on a short buffer, an unknown version or an unknown
    /// kind.
    fn decode_entry_header(&self, buf: &[u8]) -> (r: StorageResult<EntryHeader>)
        ensures
            r is Ok <==> entry_header_ok(buf@),
            r matches Ok(h) ==> header_matches(h, buf@),
            r matches Err(e) ==> e is InvalidValue,
    {
        if buf.len() < 2 {
            return Err(StorageError::InvalidValue("entry header too short".to_owned()));
        }
        let format_version = buf[0];
        if format_version != DATA_ENTRY_VERSION {
            return Err(StorageError::InvalidValue("unknown data entry version".to_owned()));
        }
        let entry_kind = if buf[1] == KIND_PUT {
            EntryKind::Put
        } else if buf[1] == KIND_DELETE {
            EntryKind::Delete
        } else {
            return Err(StorageError::InvalidValue("invalid entry kind".to_owned()));
        };
        Ok(EntryHeader { entry_kind, payload_start: 2 })
    }
}

impl<I> EntryDecodeIter<I> where I: IterRead + IterBase<Value = RawEntry> {
    /// Decodes the header of the input's current entry. Succeeds when the
    /// input is exhausted or its current entry has a valid header.
    fn refresh_current(&mut self) -> (r: StorageResult<()>)
        requires
            old(self).input.wf(),
        ensures
            final(self).input == old(self).input,
            final(self).wf(),
            old(self).input.current() is None ==> r is Ok,
            old(self).input.current() is Some && old(self).input.ready() ==> (r is Ok
                <==> entry_header_ok(item_val(old(self).input.current()->0))),
            r is Ok ==> final(self).ready() == old(self).input.ready(),
            r is Ok ==> (final(self).entry_header is Some <==> old(self).input.current() is Some),
    {
        if !self.input.valid() {
            self.entry_header = None;
            return Ok(());
        }
        self.entry_header = None;
        let value = match self.input.value() {
            Some(v) => v,
            None => {
                return Err(
                    StorageError::InvalidValue("valid iterator has no entry value".to_owned()),
                );
            },
        };
        let h = self.decode_entry_header(value.as_array())?;
        self.entry_header = Some(h);
        Ok(())
    }
}

impl<I> IterBase for EntryDecodeIter<I> {
    type Value = EntryValue;
}

impl<I> IterRead for EntryDecodeIter<I> where I: IterRead + IterBase<Value = RawEntry> {
    closed spec fn wf(&self) -> bool {
        &&& self.input.wf()
        &&& self.entry_header matches Some(h) ==> {
            &&& self.input.current() is Some
            &&& header_matches(h, item_val(self.input.current()->0))
        }
    }

    closed spec fn current(&self) -> Option<(Seq<u8>, Option<Seq<u8>>)> {
        decode_current(self.input.current())
    }

    closed spec fn ready(&self) -> bool {
        &&& self.input.ready()
        &&& self.input.current() is Some ==> self.entry_header is Some
    }

    fn valid(&self) -> (b: bool) {
        self.input.valid()
    }

    fn key(&self) -> (k: Option<&[u8]>) {
        self.input.key()
    }

    fn value(&self) -> (v: Option<EntryValue>) {
        if !self.valid() {
            return None;
        }
        let value = match self.input.value() {
            Some(v) => v,
            None => {
                return None;
            },
        };
        let h = match &self.entry_header {
            Some(h) => h,
            None => {
                return None;
            },
        };
        match h.entry_kind {
            EntryKind::Put => {
                let raw = value.as_array();
                let mut payload: Vec<u8> = Vec::new();
                append_bytes(&mut payload, vstd::slice::slice_subrange(raw, 2, raw.len()));
                assert(payload@ =~= raw@.skip(2));
                Some(EntryValue::Put(payload))
            },
            EntryKind::Delete => Some(EntryValue::Delete),
        }
    }
}

impl<I> ForwardIter for EntryDecodeIter<I> where I: ForwardIter + IterBase<Value = RawEntry> {
    closed spec fn fwd_all(&self) -> Seq<(Seq<u8>, Option<Seq<u8>>)> {
        decode_items(self.input.fwd_all())
    }

    closed spec fn fwd_rest(&self) -> Seq<(Seq<u8>, Option<Seq<u8>>)> {
        decode_items(self.input.fwd_rest())
    }

    closed spec fn fwd_seek_rest(&self, target: Seq<u8>) -> Seq<(Seq<u8>, Option<Seq<u8>>)> {
        decode_items(self.input.fwd_seek_rest(target))
    }

    closed spec fn fwd_mode(&self) -> bool {
        self.input.fwd_mode()
    }

    /// The input cannot fail, and every item it can yield forward (a full
    /// scan, any seek, what is left of the current scan) has a valid header.
    open spec fn fwd_faultless(&self) -> bool {
        &&& self.inner().fwd_faultless()
        &&& headers_ok(self.inner().fwd_all())
        &&& forall|t: Seq<u8>| #[trigger] headers_ok(self.inner().fwd_seek_rest(t))
        &&& self.inner().fwd_mode() ==> headers_ok(self.inner().fwd_rest())
    }

    proof fn lemma_fwd_head(&self) {
        self.input.lemma_fwd_head();
        lemma_decode_head(self.input.current(), self.input.fwd_rest());
    }

    fn seek_to_first(&mut self) -> (r: StorageResult<()>)
        ensures
            final(self).inner().current() is Some && final(self).inner().ready()
                && !entry_header_ok(item_val(final(self).inner().current()->0)) ==> r is Err,
            final(self).inner().fwd_all() == old(self).inner().fwd_all(),
    {
        self.entry_header = None;
        let ghost was_faultless = self.fwd_faultless();
        self.input.seek_to_first()?;
        proof {
            if was_faultless {
                self.input.lemma_fwd_head();
                if self.input.current() is Some {
                    assert(entry_header_ok(self.input.fwd_rest()[0].1));
                }
            }
        }
        self.refresh_current()
    }

    fn seek(&mut self, target: &[u8]) -> (r: StorageResult<()>)
        ensures
            final(self).inner().current() is Some && final(self).inner().ready()
                && !entry_header_ok(item_val(final(self).inner().current()->0)) ==> r is Err,
            final(self).inner().fwd_all() == old(self).inner().fwd_all(),
    {
        self.entry_header = None;
        let ghost was_faultless = self.fwd_faultless();
        let ghost old_in = self.input;
        self.input.seek(target)?;
        proof {
            if was_faultless {
                assert(headers_ok(old_in.fwd_seek_rest(target@)));
                self.input.lemma_fwd_head();
                if self.input.current() is Some {
                    assert(entry_header_ok(self.input.fwd_rest()[0].1));
                }
            }
        }
        self.refresh_current()
    }

    fn next(&mut self) -> (r: StorageResult<()>)
        ensures
            final(self).inner().current() is Some && final(self).inner().ready()
                && !entry_header_ok(item_val(final(self).inner().current()->0)) ==> r is Err,
            final(self).inner().fwd_all() == old(self).inner().fwd_all(),
    {
        self.entry_header = None;
        let ghost rest = self.input.fwd_rest();
        let ghost was_faultless = self.fwd_faultless();
        self.input.next()?;
        proof {
            if was_faultless {
            lemma_headers_ok_tail(rest);
                self.input.lemma_fwd_head();
                if self.input.current() is Some {
                    assert(entry_header_ok(self.input.fwd_rest()[0].1));
                }
            }
        }
        proof {
            lemma_decode_tail(rest);
        }
        self.refresh_current()
    }
}

impl<I> ReverseIter for EntryDecodeIter<I> where I: ReverseIter + IterBase<Value = RawEntry> {
    closed spec fn rev_all(&self) -> Seq<(Seq<u8>, Option<Seq<u8>>)> {
        decode_items(self.input.rev_all())
    }

    closed spec fn rev_rest(&self) -> Seq<(Seq<u8>, Option<Seq<u8>>)> {
        decode_items(self.input.rev_rest())
    }

    closed spec fn rev_seek_rest(&self, target: Seq<u8>) -> Seq<(Seq<u8>, Option<Seq<u8>>)> {
        decode_items(self.input.rev_seek_rest(target))
    }

    closed spec fn rev_mode(&self) -> bool {
        self.input.rev_mode()
    }

    /// The input cannot fail, and every item it can yield backward (a full
    /// scan, any seek, what is left of the current scan) has a valid header.
    open spec fn rev_faultless(&self) -> bool {
        &&& self.inner().rev_faultless()
        &&& headers_ok(self.inner().rev_all())
        &&& forall|t: Seq<u8>| #[trigger] headers_ok(self.inner().rev_seek_rest(t))
        &&& self.inner().rev_mode() ==> headers_ok(self.inner().rev_rest())
    }

    proof fn lemma_rev_head(&self) {
        self.input.lemma_rev_head();
        lemma_decode_head(self.input.current(), self.input.rev_rest());
    }

    fn seek_to_first(&mut self) -> (r: StorageResult<()>)
        ensures
            final(self).inner().current() is Some && final(self).inner().ready()
                && !entry_header_ok(item_val(final(self).inner().current()->0)) ==> r is Err,
            final(self).inner().rev_all() == old(self).inner().rev_all(),
    {
        self.entry_header = None;
        let ghost was_faultless = self.rev_faultless();
        self.input.seek_to_first()?;
        proof {
            if was_faultless {
                self.input.lemma_rev_head();
                if self.input.current() is Some {
                    assert(entry_header_ok(self.input.rev_rest()[0].1));
                }
            }
        }
        self.refresh_current()
    }

    fn seek(&mut self, target: &[u8]) -> (r: StorageResult<()>)
        ensures
            final(self).inner().current() is Some && final(self).inner().ready()
                && !entry_header_ok(item_val(final(self).inner().current()->0)) ==> r is Err,
            final(self).inner().rev_all() == old(self).inner().rev_all(),
    {
        self.entry_header = None;
        let ghost was_faultless = self.rev_faultless();
        let ghost old_in = self.input;
        self.input.seek(target)?;
        proof {
            if was_faultless {
                assert(headers_ok(old_in.rev_seek_rest(target@)));
                self.input.lemma_rev_head();
                if self.input.current() is Some {
                    assert(entry_header_ok(self.input.rev_rest()[0].1));
                }
            }
        }
        self.refresh_current()
    }

    fn next(&mut self) -> (r: StorageResult<()>)
        ensures
            final(self).inner().current() is Some && final(self).inner().ready()
                && !entry_header_ok(item_val(final(self).inner().current()->0)) ==> r is Err,
            final(self).inner().rev_all() == old(self).inner().rev_all(),
    {
        self.entry_header = None;
        let ghost rest = self.input.rev_rest();
        let ghost was_faultless = self.rev_faultless();
        self.input.next()?;
        proof {
            if was_faultless {
            lemma_headers_ok_tail(rest);
                self.input.lemma_rev_head();
                if self.input.current() is Some {
                    assert(entry_header_ok(self.input.rev_rest()[0].1));
                }
            }
        }
        proof {
            lemma_decode_tail(rest);
        }
        self.refresh_current()
    }
}

impl<I> EntryDecodeIter<I> where I: ForwardIter + ReverseIter + IterBase<Value = RawEntry> {
    /// A fresh decoder over a well-formed input is well formed.
    pub proof fn lemma_fresh(&self)
        requires
            self.fresh(),
            self.inner().wf(),
        ensures
            self.wf(),
    {
    }

    /// The decoder's models are the input's, with each value decoded.
    pub proof fn lemma_model(&self)
        requires
            self.wf(),
        ensures
            self.inner().wf(),
            self.current() == decode_current(self.inner().current()),
            self.fwd_all() == decode_items(self.inner().fwd_all()),
            self.fwd_rest() == decode_items(self.inner().fwd_rest()),
            forall|t: Seq<u8>| #[trigger]
                self.fwd_seek_rest(t) == decode_items(self.inner().fwd_seek_rest(t)),
            self.rev_all() == decode_items(self.inner().rev_all()),
            self.rev_rest() == decode_items(self.inner().rev_rest()),
            forall|t: Seq<u8>| #[trigger]
                self.rev_seek_rest(t) == decode_items(self.inner().rev_seek_rest(t)),
            ForwardIter::fwd_mode(self) == ForwardIter::fwd_mode(&self.inner()),
            ReverseIter::rev_mode(self) == ReverseIter::rev_mode(&self.inner()),
    {
    }
}

} // verus!
