//! An adapter that shows an iterator's values in another type, so that
//! sources with different native value types (the memtable's entries, the
//! SSTs' decoded values) can be merged. Keys are byte strings everywhere, so
//! they pass through unchanged and seeks go straight to the inner iterator.

use vstd::prelude::*;
use crate::errors::StorageResult;
use crate::iterators::storage_iter::{
    head_matches, tail, ForwardIter, IterBase, IterRead, ReverseIter,
};

verus! {

/// An iterator whose values can be shown as `MappedValue`.
pub trait MappedStorageIter: IterRead {
    type MappedValue: View;

    /// What `map_value` makes of a value, on views.
    spec fn map_value_view(v: <Self::Value as View>::V) -> <Self::MappedValue as View>::V;

    fn map_value(value: Self::Value) -> (m: Self::MappedValue)
        ensures
            m@ == Self::map_value_view(value@),
    ;
}

/// An item with its value mapped.
pub open spec fn map_item<I: MappedStorageIter>(it: (Seq<u8>, <I::Value as View>::V)) -> (Seq<u8>, <I::MappedValue as View>::V) {
    (it.0, I::map_value_view(it.1))
}

/// The items of `s`, each with its value mapped.
pub open spec fn map_items<I: MappedStorageIter>(s: Seq<(Seq<u8>, <I::Value as View>::V)>) -> Seq<(Seq<u8>, <I::MappedValue as View>::V)> {
    Seq::new(s.len(), |i: int| map_item::<I>(s[i]))
}

/// Mapping commutes with dropping the first item.
pub proof fn lemma_map_tail<I: MappedStorageIter>(s: Seq<(Seq<u8>, <I::Value as View>::V)>)
    ensures
        map_items::<I>(tail(s)) == tail(map_items::<I>(s)),
{
    assert(map_items::<I>(tail(s)) =~= tail(map_items::<I>(s)));
}

/// Mapping keeps the first item the first.
pub proof fn lemma_map_head<I: MappedStorageIter>(
    cur: Option<(Seq<u8>, <I::Value as View>::V)>,
    s: Seq<(Seq<u8>, <I::Value as View>::V)>,
)
    requires
        head_matches(cur, s),
    ensures
        head_matches(
            match cur {
                Some(c) => Some(map_item::<I>(c)),
                None => None,
            },
            map_items::<I>(s),
        ),
{
}

/// Iterates over `inner`'s items with their values mapped.
pub struct MapIter<I> {
    inner: I,
}

impl<I: MappedStorageIter> MapIter<I> {
    /// The iterator being adapted.
    pub closed spec fn source(&self) -> I {
        self.inner
    }

    pub fn new(inner: I) -> (m: Self)
        ensures
            m.source() == inner,
    {
        MapIter { inner }
    }
}

impl<I: MappedStorageIter> IterBase for MapIter<I> {
    type Value = I::MappedValue;
}

impl<I: MappedStorageIter> IterRead for MapIter<I> {
    open spec fn wf(&self) -> bool {
        self.source().wf()
    }

    /// The inner iterator's current item, its value mapped.
    open spec fn current(&self) -> Option<(Seq<u8>, <I::MappedValue as View>::V)> {
        match self.source().current() {
            Some(c) => Some(map_item::<I>(c)),
            None => None,
        }
    }

    open spec fn ready(&self) -> bool {
        self.source().ready()
    }

    fn valid(&self) -> (b: bool) {
        self.inner.valid()
    }

    fn key(&self) -> (k: Option<&[u8]>) {
        self.inner.key()
    }

    fn value(&self) -> (v: Option<I::MappedValue>) {
        match self.inner.value() {
            Some(v) => Some(I::map_value(v)),
            None => None,
        }
    }
}

impl<I: MappedStorageIter + ForwardIter> ForwardIter for MapIter<I> {
    open spec fn fwd_all(&self) -> Seq<(Seq<u8>, <I::MappedValue as View>::V)> {
        map_items::<I>(self.source().fwd_all())
    }

    open spec fn fwd_rest(&self) -> Seq<(Seq<u8>, <I::MappedValue as View>::V)> {
        map_items::<I>(self.source().fwd_rest())
    }

    open spec fn fwd_seek_rest(&self, target: Seq<u8>) -> Seq<(Seq<u8>, <I::MappedValue as View>::V)> {
        map_items::<I>(self.source().fwd_seek_rest(target))
    }

    open spec fn fwd_mode(&self) -> bool {
        self.source().fwd_mode()
    }

    open spec fn fwd_faultless(&self) -> bool {
        self.source().fwd_faultless()
    }

    proof fn lemma_fwd_head(&self) {
        self.source().lemma_fwd_head();
        lemma_map_head::<I>(self.source().current(), self.source().fwd_rest());
    }

    fn seek_to_first(&mut self) -> (r: StorageResult<()>) {
        ForwardIter::seek_to_first(&mut self.inner)
    }

    fn seek(&mut self, target: &[u8]) -> (r: StorageResult<()>) {
        ForwardIter::seek(&mut self.inner, target)
    }

    fn next(&mut self) -> (r: StorageResult<()>) {
        let ghost before = self.inner.fwd_rest();
        let r = ForwardIter::next(&mut self.inner);
        proof {
            lemma_map_tail::<I>(before);
        }
        r
    }
}

impl<I: MappedStorageIter + ReverseIter> ReverseIter for MapIter<I> {
    open spec fn rev_all(&self) -> Seq<(Seq<u8>, <I::MappedValue as View>::V)> {
        map_items::<I>(self.source().rev_all())
    }

    open spec fn rev_rest(&self) -> Seq<(Seq<u8>, <I::MappedValue as View>::V)> {
        map_items::<I>(self.source().rev_rest())
    }

    open spec fn rev_seek_rest(&self, target: Seq<u8>) -> Seq<(Seq<u8>, <I::MappedValue as View>::V)> {
        map_items::<I>(self.source().rev_seek_rest(target))
    }

    open spec fn rev_mode(&self) -> bool {
        self.source().rev_mode()
    }

    open spec fn rev_faultless(&self) -> bool {
        self.source().rev_faultless()
    }

    proof fn lemma_rev_head(&self) {
        self.source().lemma_rev_head();
        lemma_map_head::<I>(self.source().current(), self.source().rev_rest());
    }

    fn seek_to_first(&mut self) -> (r: StorageResult<()>) {
        ReverseIter::seek_to_first(&mut self.inner)
    }

    fn seek(&mut self, target: &[u8]) -> (r: StorageResult<()>) {
        ReverseIter::seek(&mut self.inner, target)
    }

    fn next(&mut self) -> (r: StorageResult<()>) {
        let ghost before = self.inner.rev_rest();
        let r = ReverseIter::next(&mut self.inner);
        proof {
            lemma_map_tail::<I>(before);
        }
        r
    }
}

} // verus!
