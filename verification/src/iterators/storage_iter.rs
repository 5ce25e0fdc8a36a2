//! The iterator interface shared by every storage iterator.
//!
//! An iterator ranges over a sequence of `(key, value)` items. Its state is
//! described by three models:
//! - `current`: the item it is positioned on, if any;
//! - `fwd_rest` / `rev_rest`: the items it will yield from here on, the
//!   current one first, when stepped forward / backward;
//! - `fwd_all` / `rev_all`: the items a fresh `seek_to_first` yields, and
//!   `fwd_seek_rest(t)` / `rev_seek_rest(t)`: the items `seek(t)` yields.
//!
//! The `*_mode` predicates hold once an operation of that direction has
//! succeeded; only then does `*_rest` describe the iterator.

use vstd::prelude::*;
use crate::errors::StorageResult;
use crate::row_key::{lex_le, lex_lt};

verus! {

/// A byte slice as a borrowed value (`as_array`).
pub trait AsArray {
    spec fn array_view(&self) -> Seq<u8>;

    fn as_array(&self) -> (s: &[u8])
        ensures
            s@ == self.array_view(),
    ;
}

/// The items' value type.
pub trait IterBase {
    type Value: View;
}

/// `s` without its first element (empty stays empty).
pub open spec fn tail<A>(s: Seq<A>) -> Seq<A> {
    if s.len() == 0 {
        s
    } else {
        s.drop_first()
    }
}

/// `cur` is the first element of `rest`, and there is one exactly when
/// `rest` is not empty.
pub open spec fn head_matches<A>(cur: Option<A>, rest: Seq<A>) -> bool {
    &&& (cur is Some <==> rest.len() > 0)
    &&& (cur matches Some(c) ==> c == rest[0])
}

/// Key of an item.
pub open spec fn item_key<V>(it: (Seq<u8>, V)) -> Seq<u8> {
    it.0
}

/// Value of an item.
pub open spec fn item_val<V>(it: (Seq<u8>, V)) -> V {
    it.1
}

/// State queries shared by both directions.
pub trait IterRead: IterBase + Sized {
    spec fn wf(&self) -> bool;

    /// The item the iterator is positioned on.
    spec fn current(&self) -> Option<(Seq<u8>, <Self::Value as View>::V)>;

    /// The current value can be produced (false only after a failed decode).
    spec fn ready(&self) -> bool;

    fn valid(&self) -> (b: bool)
        requires
            self.wf(),
        ensures
            b == (self.current() is Some),
    ;

    fn key(&self) -> (k: Option<&[u8]>)
        requires
            self.wf(),
        ensures
            (k is Some) == (self.current() is Some),
            k matches Some(kk) ==> kk@ == item_key(self.current()->0),
    ;

    fn value(&self) -> (v: Option<Self::Value>)
        requires
            self.wf(),
        ensures
            v matches Some(vv) ==> self.current() is Some && vv@ == item_val(self.current()->0),
            self.current() is Some && self.ready() ==> v is Some,
            self.current() is None ==> v is None,
    ;
}

/// Forward iteration: `next` moves toward larger keys.
pub trait ForwardIter: IterRead {
    spec fn fwd_all(&self) -> Seq<(Seq<u8>, <Self::Value as View>::V)>;

    spec fn fwd_rest(&self) -> Seq<(Seq<u8>, <Self::Value as View>::V)>;

    spec fn fwd_seek_rest(&self, target: Seq<u8>) -> Seq<(Seq<u8>, <Self::Value as View>::V)>;

    spec fn fwd_mode(&self) -> bool;

    /// Every forward step from this state on succeeds: nothing the iterator
    /// reads or decodes can fail.
    spec fn fwd_faultless(&self) -> bool;

    proof fn lemma_fwd_head(&self)
        requires
            self.wf(),
            self.fwd_mode(),
        ensures
            head_matches(self.current(), self.fwd_rest()),
    ;

    /// Positions at the first item.
    fn seek_to_first(&mut self) -> (r: StorageResult<()>)
        requires
            old(self).wf(),
        ensures
            final(self).wf(),
            final(self).fwd_all() == old(self).fwd_all(),
            forall|t: Seq<u8>| #[trigger] final(self).fwd_seek_rest(t) == old(self).fwd_seek_rest(t),
            old(self).fwd_faultless() ==> r is Ok && final(self).fwd_faultless(),
            r is Ok ==> {
                &&& final(self).fwd_mode()
                &&& final(self).ready()
                &&& final(self).fwd_rest() == final(self).fwd_all()
            },
    ;

    /// Positions at the first key `>= target` (for sorted keys).
    fn seek(&mut self, target: &[u8]) -> (r: StorageResult<()>)
        requires
            old(self).wf(),
        ensures
            final(self).wf(),
            final(self).fwd_all() == old(self).fwd_all(),
            forall|t: Seq<u8>| #[trigger] final(self).fwd_seek_rest(t) == old(self).fwd_seek_rest(t),
            old(self).fwd_faultless() ==> r is Ok && final(self).fwd_faultless(),
            r is Ok ==> {
                &&& final(self).fwd_mode()
                &&& final(self).ready()
                &&& final(self).fwd_rest() == final(self).fwd_seek_rest(target@)
            },
    ;

    /// Steps to the next item.
    fn next(&mut self) -> (r: StorageResult<()>)
        requires
            old(self).wf(),
            old(self).fwd_mode(),
        ensures
            final(self).wf(),
            final(self).fwd_all() == old(self).fwd_all(),
            forall|t: Seq<u8>| #[trigger] final(self).fwd_seek_rest(t) == old(self).fwd_seek_rest(t),
            old(self).fwd_faultless() ==> r is Ok && final(self).fwd_faultless(),
            r is Ok ==> {
                &&& final(self).fwd_mode()
                &&& final(self).ready()
                &&& final(self).fwd_rest() == tail(old(self).fwd_rest())
            },
    ;
}

/// Reverse iteration: `seek_to_first` positions at the largest key, `seek`
/// at the last key `<= target`, and `next` moves toward smaller keys.
pub trait ReverseIter: IterRead {
    spec fn rev_all(&self) -> Seq<(Seq<u8>, <Self::Value as View>::V)>;

    spec fn rev_rest(&self) -> Seq<(Seq<u8>, <Self::Value as View>::V)>;

    spec fn rev_seek_rest(&self, target: Seq<u8>) -> Seq<(Seq<u8>, <Self::Value as View>::V)>;

    spec fn rev_mode(&self) -> bool;

    /// Every backward step from this state on succeeds.
    spec fn rev_faultless(&self) -> bool;

    proof fn lemma_rev_head(&self)
        requires
            self.wf(),
            self.rev_mode(),
        ensures
            head_matches(self.current(), self.rev_rest()),
    ;

    fn seek_to_first(&mut self) -> (r: StorageResult<()>)
        requires
            old(self).wf(),
        ensures
            final(self).wf(),
            final(self).rev_all() == old(self).rev_all(),
            forall|t: Seq<u8>| #[trigger] final(self).rev_seek_rest(t) == old(self).rev_seek_rest(t),
            old(self).rev_faultless() ==> r is Ok && final(self).rev_faultless(),
            r is Ok ==> {
                &&& final(self).rev_mode()
                &&& final(self).ready()
                &&& final(self).rev_rest() == final(self).rev_all()
            },
    ;

    fn seek(&mut self, target: &[u8]) -> (r: StorageResult<()>)
        requires
            old(self).wf(),
        ensures
            final(self).wf(),
            final(self).rev_all() == old(self).rev_all(),
            forall|t: Seq<u8>| #[trigger] final(self).rev_seek_rest(t) == old(self).rev_seek_rest(t),
            old(self).rev_faultless() ==> r is Ok && final(self).rev_faultless(),
            r is Ok ==> {
                &&& final(self).rev_mode()
                &&& final(self).ready()
                &&& final(self).rev_rest() == final(self).rev_seek_rest(target@)
            },
    ;

    fn next(&mut self) -> (r: StorageResult<()>)
        requires
            old(self).wf(),
            old(self).rev_mode(),
        ensures
            final(self).wf(),
            final(self).rev_all() == old(self).rev_all(),
            forall|t: Seq<u8>| #[trigger] final(self).rev_seek_rest(t) == old(self).rev_seek_rest(t),
            old(self).rev_faultless() ==> r is Ok && final(self).rev_faultless(),
            r is Ok ==> {
                &&& final(self).rev_mode()
                &&& final(self).ready()
                &&& final(self).rev_rest() == tail(old(self).rev_rest())
            },
    ;
}

// ── Positioned sequences (the model of the leaf iterators) ──

/// Keys of a sequence of items.
pub open spec fn keys_of<V>(items: Seq<(Seq<u8>, V)>) -> Seq<Seq<u8>> {
    Seq::new(items.len(), |i: int| items[i].0)
}

/// Bisection for the first key not below `t` in `keys[lo..hi]`: the
/// lower bound when the keys are sorted.
pub open spec fn lower_bound(keys: Seq<Seq<u8>>, t: Seq<u8>, lo: int, hi: int) -> int
    decreases hi - lo,
{
    if lo >= hi {
        lo
    } else {
        let mid = lo + (hi - lo) / 2;
        if lex_lt(keys[mid], t) {
            lower_bound(keys, t, mid + 1, hi)
        } else {
            lower_bound(keys, t, lo, mid)
        }
    }
}

/// Bisection for the first key above `t` in `keys[lo..hi]`: the upper
/// bound when the keys are sorted.
pub open spec fn upper_bound(keys: Seq<Seq<u8>>, t: Seq<u8>, lo: int, hi: int) -> int
    decreases hi - lo,
{
    if lo >= hi {
        lo
    } else {
        let mid = lo + (hi - lo) / 2;
        if lex_le(keys[mid], t) {
            upper_bound(keys, t, mid + 1, hi)
        } else {
            upper_bound(keys, t, lo, mid)
        }
    }
}

/// What a forward scan yields from `cursor`.
pub open spec fn fwd_rest_at<V>(items: Seq<(Seq<u8>, V)>, cursor: Option<int>) -> Seq<(Seq<u8>, V)> {
    match cursor {
        Some(i) => items.skip(i),
        None => Seq::empty(),
    }
}

/// What a backward scan yields from `cursor`.
pub open spec fn rev_rest_at<V>(items: Seq<(Seq<u8>, V)>, cursor: Option<int>) -> Seq<(Seq<u8>, V)> {
    match cursor {
        Some(i) => items.take(i + 1).reverse(),
        None => Seq::empty(),
    }
}

/// The cursor at index `i`, or none past the end.
pub open spec fn cursor_at(i: int, len: int) -> Option<int> {
    if 0 <= i < len {
        Some(i)
    } else {
        None
    }
}

/// The items a leaf's forward `seek(t)` yields.
pub open spec fn leaf_fwd_seek<V>(items: Seq<(Seq<u8>, V)>, t: Seq<u8>) -> Seq<(Seq<u8>, V)> {
    items.skip(lower_bound(keys_of(items), t, 0, items.len() as int))
}

/// The items a leaf's backward `seek(t)` yields.
pub open spec fn leaf_rev_seek<V>(items: Seq<(Seq<u8>, V)>, t: Seq<u8>) -> Seq<(Seq<u8>, V)> {
    items.take(upper_bound(keys_of(items), t, 0, items.len() as int)).reverse()
}

pub proof fn lemma_lower_bound_range(keys: Seq<Seq<u8>>, t: Seq<u8>, lo: int, hi: int)
    requires
        lo <= hi,
    ensures
        lo <= lower_bound(keys, t, lo, hi) <= hi,
    decreases hi - lo,
{
    if lo < hi {
        let mid = lo + (hi - lo) / 2;
        if lex_lt(keys[mid], t) {
            lemma_lower_bound_range(keys, t, mid + 1, hi);
        } else {
            lemma_lower_bound_range(keys, t, lo, mid);
        }
    }
}

pub proof fn lemma_upper_bound_range(keys: Seq<Seq<u8>>, t: Seq<u8>, lo: int, hi: int)
    requires
        lo <= hi,
    ensures
        lo <= upper_bound(keys, t, lo, hi) <= hi,
    decreases hi - lo,
{
    if lo < hi {
        let mid = lo + (hi - lo) / 2;
        if lex_le(keys[mid], t) {
            lemma_upper_bound_range(keys, t, mid + 1, hi);
        } else {
            lemma_upper_bound_range(keys, t, lo, mid);
        }
    }
}

pub proof fn lemma_fwd_rest_head<V>(items: Seq<(Seq<u8>, V)>, cursor: Option<int>)
    requires
        cursor matches Some(i) ==> 0 <= i < items.len(),
    ensures
        head_matches(
            match cursor {
                Some(i) => Some(items[i]),
                None => None,
            },
            fwd_rest_at(items, cursor),
        ),
{
}

pub proof fn lemma_rev_rest_head<V>(items: Seq<(Seq<u8>, V)>, cursor: Option<int>)
    requires
        cursor matches Some(i) ==> 0 <= i < items.len(),
    ensures
        head_matches(
            match cursor {
                Some(i) => Some(items[i]),
                None => None,
            },
            rev_rest_at(items, cursor),
        ),
{
}

/// Stepping forward drops the first yielded item.
pub proof fn lemma_fwd_step<V>(items: Seq<(Seq<u8>, V)>, i: int)
    requires
        0 <= i < items.len(),
    ensures
        fwd_rest_at(items, cursor_at(i + 1, items.len() as int)) == tail(
            fwd_rest_at(items, Some(i)),
        ),
{
    assert(items.skip(i).drop_first() =~= items.skip(i + 1));
    if i + 1 == items.len() {
        assert(items.skip(i + 1) =~= Seq::<(Seq<u8>, V)>::empty());
    }
}

/// Stepping backward drops the first yielded item.
pub proof fn lemma_rev_step<V>(items: Seq<(Seq<u8>, V)>, i: int)
    requires
        0 <= i < items.len(),
    ensures
        rev_rest_at(items, if i > 0 { Some(i - 1) } else { None }) == tail(
            rev_rest_at(items, Some(i)),
        ),
{
    assert(items.take(i + 1).reverse().drop_first() =~= items.take(i).reverse());
}

} // verus!
