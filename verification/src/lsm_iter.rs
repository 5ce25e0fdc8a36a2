//! Range-limited scans over a merged LSM iterator. A forward scan positions
//! on its lower bound and stops at its upper bound; a reverse scan positions
//! on its upper bound and stops at its lower bound.

use vstd::prelude::*;
use bytes::Bytes;
use crate::buf::{bytes_as_slice, bytes_view};
use crate::errors::StorageResult;
use crate::iterators::entry_decode_iter::EntryValue;
use crate::iterators::scan_iter::{entry_view, ScanIter};
use crate::iterators::storage_iter::{
    head_matches, ForwardIter, IterBase, IterRead, ReverseIter,
};
use crate::memtable::Entry;
use crate::row_key::{bytes_eq, bytes_le, bytes_lt, lex_le, lex_lt};

verus! {

/// One end of a key range.
pub enum ScanBound {
    Included(Bytes),
    Excluded(Bytes),
    Unbounded,
}

/// `key` is not above the upper end `b`.
pub open spec fn below_upper(b: ScanBound, key: Seq<u8>) -> bool {
    match b {
        ScanBound::Included(e) => lex_le(key, bytes_view(e)),
        ScanBound::Excluded(e) => lex_lt(key, bytes_view(e)),
        ScanBound::Unbounded => true,
    }
}

/// `key` is not below the lower end `b`.
pub open spec fn above_lower(b: ScanBound, key: Seq<u8>) -> bool {
    match b {
        ScanBound::Included(s) => lex_le(bytes_view(s), key),
        ScanBound::Excluded(s) => lex_lt(bytes_view(s), key),
        ScanBound::Unbounded => true,
    }
}

/// `s` without its leading items whose key is `k`.
pub open spec fn skip_key<V>(s: Seq<(Seq<u8>, V)>, k: Seq<u8>) -> Seq<(Seq<u8>, V)>
    decreases s.len(),
{
    if s.len() > 0 && s[0].0 == k {
        skip_key(s.drop_first(), k)
    } else {
        s
    }
}

/// What positioning on bound `b` yields, given what `seek_to_first` and
/// `seek(t)` yield.
pub open spec fn start_stream<V>(
    b: ScanBound,
    all: Seq<(Seq<u8>, V)>,
    seek: spec_fn(Seq<u8>) -> Seq<(Seq<u8>, V)>,
) -> Seq<(Seq<u8>, V)> {
    match b {
        ScanBound::Included(k) => seek(bytes_view(k)),
        ScanBound::Excluded(k) => skip_key(seek(bytes_view(k)), bytes_view(k)),
        ScanBound::Unbounded => all,
    }
}

/// Checks `key` against the upper end `b`.
fn key_below_upper(b: &ScanBound, key: &[u8]) -> (r: bool)
    ensures
        r == below_upper(*b, key@),
{
    match b {
        ScanBound::Included(e) => bytes_le(key, bytes_as_slice(e)),
        ScanBound::Excluded(e) => bytes_lt(key, bytes_as_slice(e)),
        ScanBound::Unbounded => true,
    }
}

/// Checks `key` against the lower end `b`.
fn key_above_lower(b: &ScanBound, key: &[u8]) -> (r: bool)
    ensures
        r == above_lower(*b, key@),
{
    match b {
        ScanBound::Included(s) => bytes_le(bytes_as_slice(s), key),
        ScanBound::Excluded(s) => bytes_lt(bytes_as_slice(s), key),
        ScanBound::Unbounded => true,
    }
}

fn entry_of(v: EntryValue) -> (e: Entry<Vec<u8>>)
    ensures
        entry_view(e) == v@,
{
    match v {
        EntryValue::Put(data) => Entry::Put(data),
        EntryValue::Delete => Entry::Delete,
    }
}

/// Forward scan: positions on the lower bound, valid up to the upper bound.
pub struct LsmForwardScan<I> {
    inner: I,
    lower: ScanBound,
    upper: ScanBound,
}

impl<I: ForwardIter + IterBase<Value = EntryValue>> LsmForwardScan<I> {
    pub closed spec fn lower_bound(&self) -> ScanBound {
        self.lower
    }

    pub closed spec fn upper_bound(&self) -> ScanBound {
        self.upper
    }

    pub fn new(inner: I, lower: ScanBound, upper: ScanBound) -> (s: Self)
        requires
            inner.wf(),
        ensures
            s.scan_wf(),
            s.lower_bound() == lower,
            s.upper_bound() == upper,
            s.stream_all() == inner.fwd_all(),
            s.scan_faultless() == inner.fwd_faultless(),
            forall|t: Seq<u8>| #[trigger] s.stream_seek(t) == inner.fwd_seek_rest(t),
            forall|k: Seq<u8>| #[trigger] s.in_range(k) == below_upper(upper, k),
    {
        LsmForwardScan { inner, lower, upper }
    }

    /// Positions on the first key inside the lower bound: `seek` for an
    /// inclusive bound, `seek` then skipping the bound's own key for an
    /// exclusive one, the first key when unbounded.
    pub fn init(&mut self) -> (r: StorageResult<()>)
        requires
            old(self).scan_wf(),
        ensures
            final(self).scan_wf(),
            final(self).lower_bound() == old(self).lower_bound(),
            final(self).upper_bound() == old(self).upper_bound(),
            final(self).stream_all() == old(self).stream_all(),
            forall|t: Seq<u8>| #[trigger] final(self).stream_seek(t) == old(self).stream_seek(t),
            old(self).scan_faultless() ==> r is Ok && final(self).scan_faultless(),
            r is Ok ==> final(self).positioned() && final(self).stream() == start_stream(
                old(self).lower_bound(),
                old(self).stream_all(),
                |t: Seq<u8>| old(self).stream_seek(t),
            ),
    {
        match &self.lower {
            ScanBound::Included(start) => self.inner.seek(bytes_as_slice(start)),
            ScanBound::Excluded(start) => {
                let s = bytes_as_slice(start);
                self.inner.seek(s)?;
                let ghost first = self.inner.fwd_rest();
                proof {
                    self.inner.lemma_fwd_head();
                }
                while self.inner.valid()
                    invariant
                        self.lower == old(self).lower,
                        self.upper == old(self).upper,
                        self.inner.wf(),
                        self.inner.fwd_mode(),
                        self.inner.ready(),
                        self.inner.fwd_all() == old(self).inner.fwd_all(),
                        forall|t: Seq<u8>| #[trigger]
                            self.inner.fwd_seek_rest(t) == old(self).inner.fwd_seek_rest(t),
                        old(self).inner.fwd_faultless() ==> self.inner.fwd_faultless(),
                        skip_key(self.inner.fwd_rest(), s@) == skip_key(first, s@),
                        head_matches(self.inner.current(), self.inner.fwd_rest()),
                    ensures
                        self.inner.fwd_mode(),
                        self.inner.ready(),
                        skip_key(first, s@) == self.inner.fwd_rest(),
                    decreases self.inner.fwd_rest().len(),
                {
                    proof {
                        self.inner.lemma_fwd_head();
                    }
                    let is_equal = match self.inner.key() {
                        Some(k) => bytes_eq(k, s),
                        None => false,
                    };
                    if is_equal {
                        self.inner.next()?;
                        proof {
                            self.inner.lemma_fwd_head();
                        }
                    } else {
                        break;
                    }
                }
                proof {
                    self.inner.lemma_fwd_head();
                }
                Ok(())
            },
            ScanBound::Unbounded => self.inner.seek_to_first(),
        }
    }
}

impl<I: ForwardIter + IterBase<Value = EntryValue>> ScanIter for LsmForwardScan<I> {
    closed spec fn scan_wf(&self) -> bool {
        self.inner.wf()
    }

    closed spec fn positioned(&self) -> bool {
        self.inner.fwd_mode() && self.inner.ready()
    }

    closed spec fn in_range(&self, key: Seq<u8>) -> bool {
        below_upper(self.upper, key)
    }

    closed spec fn stream(&self) -> Seq<(Seq<u8>, Option<Seq<u8>>)> {
        self.inner.fwd_rest()
    }

    closed spec fn stream_all(&self) -> Seq<(Seq<u8>, Option<Seq<u8>>)> {
        self.inner.fwd_all()
    }

    closed spec fn scan_faultless(&self) -> bool {
        self.inner.fwd_faultless()
    }

    closed spec fn stream_seek(&self, target: Seq<u8>) -> Seq<(Seq<u8>, Option<Seq<u8>>)> {
        self.inner.fwd_seek_rest(target)
    }

    fn valid(&self) -> (b: bool) {
        proof {
            self.inner.lemma_fwd_head();
        }
        match self.inner.key() {
            Some(key) => key_below_upper(&self.upper, key),
            None => false,
        }
    }

    fn key(&self) -> (k: Option<&[u8]>) {
        proof {
            self.inner.lemma_fwd_head();
        }
        if !self.valid() {
            return None;
        }
        self.inner.key()
    }

    fn value(&self) -> (v: Option<Entry<Vec<u8>>>) {
        proof {
            self.inner.lemma_fwd_head();
        }
        if !self.valid() {
            return None;
        }
        match self.inner.value() {
            Some(v) => Some(entry_of(v)),
            None => None,
        }
    }

    fn seek_to_first(&mut self) -> (r: StorageResult<()>) {
        self.inner.seek_to_first()
    }

    fn seek(&mut self, target: &[u8]) -> (r: StorageResult<()>) {
        self.inner.seek(target)
    }

    fn next(&mut self) -> (r: StorageResult<()>) {
        self.inner.next()
    }
}

/// Reverse scan: positions on the upper bound, valid down to the lower bound.
pub struct LsmReverseScan<I> {
    inner: I,
    lower: ScanBound,
    upper: ScanBound,
}

impl<I: ReverseIter + IterBase<Value = EntryValue>> LsmReverseScan<I> {
    pub closed spec fn lower_bound(&self) -> ScanBound {
        self.lower
    }

    pub closed spec fn upper_bound(&self) -> ScanBound {
        self.upper
    }

    pub fn new(inner: I, lower: ScanBound, upper: ScanBound) -> (s: Self)
        requires
            inner.wf(),
        ensures
            s.scan_wf(),
            s.lower_bound() == lower,
            s.upper_bound() == upper,
            s.stream_all() == inner.rev_all(),
            s.scan_faultless() == inner.rev_faultless(),
            forall|t: Seq<u8>| #[trigger] s.stream_seek(t) == inner.rev_seek_rest(t),
            forall|k: Seq<u8>| #[trigger] s.in_range(k) == above_lower(lower, k),
    {
        LsmReverseScan { inner, lower, upper }
    }

    /// Positions on the last key inside the upper bound: `seek` for an
    /// inclusive bound, `seek` then skipping the bound's own key for an
    /// exclusive one, the last key when unbounded.
    pub fn init(&mut self) -> (r: StorageResult<()>)
        requires
            old(self).scan_wf(),
        ensures
            final(self).scan_wf(),
            final(self).lower_bound() == old(self).lower_bound(),
            final(self).upper_bound() == old(self).upper_bound(),
            final(self).stream_all() == old(self).stream_all(),
            forall|t: Seq<u8>| #[trigger] final(self).stream_seek(t) == old(self).stream_seek(t),
            old(self).scan_faultless() ==> r is Ok && final(self).scan_faultless(),
            r is Ok ==> final(self).positioned() && final(self).stream() == start_stream(
                old(self).upper_bound(),
                old(self).stream_all(),
                |t: Seq<u8>| old(self).stream_seek(t),
            ),
    {
        match &self.upper {
            ScanBound::Included(end) => self.inner.seek(bytes_as_slice(end)),
            ScanBound::Excluded(end) => {
                let s = bytes_as_slice(end);
                self.inner.seek(s)?;
                let ghost first = self.inner.rev_rest();
                proof {
                    self.inner.lemma_rev_head();
                }
                while self.inner.valid()
                    invariant
                        self.lower == old(self).lower,
                        self.upper == old(self).upper,
                        self.inner.wf(),
                        self.inner.rev_mode(),
                        self.inner.ready(),
                        self.inner.rev_all() == old(self).inner.rev_all(),
                        forall|t: Seq<u8>| #[trigger]
                            self.inner.rev_seek_rest(t) == old(self).inner.rev_seek_rest(t),
                        old(self).inner.rev_faultless() ==> self.inner.rev_faultless(),
                        skip_key(self.inner.rev_rest(), s@) == skip_key(first, s@),
                        head_matches(self.inner.current(), self.inner.rev_rest()),
                    ensures
                        self.inner.rev_mode(),
                        self.inner.ready(),
                        skip_key(first, s@) == self.inner.rev_rest(),
                    decreases self.inner.rev_rest().len(),
                {
                    proof {
                        self.inner.lemma_rev_head();
                    }
                    let is_equal = match self.inner.key() {
                        Some(k) => bytes_eq(k, s),
                        None => false,
                    };
                    if is_equal {
                        self.inner.next()?;
                        proof {
                            self.inner.lemma_rev_head();
                        }
                    } else {
                        break;
                    }
                }
                proof {
                    self.inner.lemma_rev_head();
                }
                Ok(())
            },
            ScanBound::Unbounded => self.inner.seek_to_first(),
        }
    }
}

impl<I: ReverseIter + IterBase<Value = EntryValue>> ScanIter for LsmReverseScan<I> {
    closed spec fn scan_wf(&self) -> bool {
        self.inner.wf()
    }

    closed spec fn positioned(&self) -> bool {
        self.inner.rev_mode() && self.inner.ready()
    }

    closed spec fn in_range(&self, key: Seq<u8>) -> bool {
        above_lower(self.lower, key)
    }

    closed spec fn stream(&self) -> Seq<(Seq<u8>, Option<Seq<u8>>)> {
        self.inner.rev_rest()
    }

    closed spec fn stream_all(&self) -> Seq<(Seq<u8>, Option<Seq<u8>>)> {
        self.inner.rev_all()
    }

    closed spec fn scan_faultless(&self) -> bool {
        self.inner.rev_faultless()
    }

    closed spec fn stream_seek(&self, target: Seq<u8>) -> Seq<(Seq<u8>, Option<Seq<u8>>)> {
        self.inner.rev_seek_rest(target)
    }

    fn valid(&self) -> (b: bool) {
        proof {
            self.inner.lemma_rev_head();
        }
        match self.inner.key() {
            Some(key) => key_above_lower(&self.lower, key),
            None => false,
        }
    }

    fn key(&self) -> (k: Option<&[u8]>) {
        proof {
            self.inner.lemma_rev_head();
        }
        if !self.valid() {
            return None;
        }
        self.inner.key()
    }

    fn value(&self) -> (v: Option<Entry<Vec<u8>>>) {
        proof {
            self.inner.lemma_rev_head();
        }
        if !self.valid() {
            return None;
        }
        match self.inner.value() {
            Some(v) => Some(entry_of(v)),
            None => None,
        }
    }

    fn seek_to_first(&mut self) -> (r: StorageResult<()>) {
        self.inner.seek_to_first()
    }

    fn seek(&mut self, target: &[u8]) -> (r: StorageResult<()>) {
        self.inner.seek(target)
    }

    fn next(&mut self) -> (r: StorageResult<()>) {
        self.inner.next()
    }
}

} // verus!
