//! The iterator interface at engine boundaries: byte keys, decoded entries,
//! and a key range enforced by the iterator itself.

use vstd::prelude::*;
use crate::errors::StorageResult;
use crate::iterators::storage_iter::tail;
use crate::memtable::Entry;

verus! {

/// The model of a decoded entry: `Some(payload)` for a live value, `None`
/// for a tombstone.
pub open spec fn entry_view(e: Entry<Vec<u8>>) -> Option<Seq<u8>> {
    match e {
        Entry::Put(v) => Some(v@),
        Entry::Delete => None,
    }
}

/// A range scan. `stream` is what the underlying iterator still yields in
/// scan direction; the scan is valid while the head of the stream lies in
/// its range (`in_range`).
pub trait ScanIter {
    spec fn scan_wf(&self) -> bool;

    /// The scan has been positioned successfully.
    spec fn positioned(&self) -> bool;

    spec fn in_range(&self, key: Seq<u8>) -> bool;

    spec fn stream(&self) -> Seq<(Seq<u8>, Option<Seq<u8>>)>;

    /// What `seek_to_first` positions on.
    spec fn stream_all(&self) -> Seq<(Seq<u8>, Option<Seq<u8>>)>;

    /// What `seek(t)` positions on.
    spec fn stream_seek(&self, target: Seq<u8>) -> Seq<(Seq<u8>, Option<Seq<u8>>)>;

    /// Every step of the scan from this state on succeeds.
    spec fn scan_faultless(&self) -> bool;

    fn valid(&self) -> (b: bool)
        requires
            self.scan_wf(),
            self.positioned(),
        ensures
            b == (self.stream().len() > 0 && self.in_range(self.stream()[0].0)),
    ;

    fn key(&self) -> (k: Option<&[u8]>)
        requires
            self.scan_wf(),
            self.positioned(),
        ensures
            (k is Some) == (self.stream().len() > 0 && self.in_range(self.stream()[0].0)),
            k matches Some(kk) ==> kk@ == self.stream()[0].0,
    ;

    fn value(&self) -> (v: Option<Entry<Vec<u8>>>)
        requires
            self.scan_wf(),
            self.positioned(),
        ensures
            (v is Some) == (self.stream().len() > 0 && self.in_range(self.stream()[0].0)),
            v matches Some(e) ==> entry_view(e) == self.stream()[0].1,
    ;

    fn seek_to_first(&mut self) -> (r: StorageResult<()>)
        requires
            old(self).scan_wf(),
        ensures
            final(self).scan_wf(),
            forall|k: Seq<u8>| #[trigger] final(self).in_range(k) == old(self).in_range(k),
            final(self).stream_all() == old(self).stream_all(),
            forall|t: Seq<u8>| #[trigger] final(self).stream_seek(t) == old(self).stream_seek(t),
            old(self).scan_faultless() ==> r is Ok && final(self).scan_faultless(),
            r is Ok ==> final(self).positioned() && final(self).stream() == final(self).stream_all(),
    ;

    fn seek(&mut self, target: &[u8]) -> (r: StorageResult<()>)
        requires
            old(self).scan_wf(),
        ensures
            final(self).scan_wf(),
            forall|k: Seq<u8>| #[trigger] final(self).in_range(k) == old(self).in_range(k),
            final(self).stream_all() == old(self).stream_all(),
            forall|t: Seq<u8>| #[trigger] final(self).stream_seek(t) == old(self).stream_seek(t),
            old(self).scan_faultless() ==> r is Ok && final(self).scan_faultless(),
            r is Ok ==> final(self).positioned() && final(self).stream()
                == final(self).stream_seek(target@),
    ;

    fn next(&mut self) -> (r: StorageResult<()>)
        requires
            old(self).scan_wf(),
            old(self).positioned(),
        ensures
            final(self).scan_wf(),
            forall|k: Seq<u8>| #[trigger] final(self).in_range(k) == old(self).in_range(k),
            final(self).stream_all() == old(self).stream_all(),
            forall|t: Seq<u8>| #[trigger] final(self).stream_seek(t) == old(self).stream_seek(t),
            old(self).scan_faultless() ==> r is Ok && final(self).scan_faultless(),
            r is Ok ==> final(self).positioned() && final(self).stream() == tail(old(self).stream()),
    ;
}

} // verus!
