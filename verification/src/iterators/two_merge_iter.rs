//! Two-way merge: A (the newer side) wins on equal keys, B's copies of the
//! key are skipped.

use vstd::prelude::*;
use crate::errors::StorageResult;
use crate::iterators::storage_iter::{item_key, keys_of, ForwardIter, IterBase, IterRead};
use crate::iterators::merge_iter::first_with_key;
use crate::row_key::{
    bytes_eq, bytes_le, lemma_lex_asym, lemma_lex_irrefl, lemma_lex_total, lemma_lex_trans, lex_le,
    lex_lt, sorted, strictly_sorted,
};

verus! {

/// Which side the merged iterator is positioned on.
#[derive(Clone, Copy, PartialEq, Eq, Structural)]
pub enum Current {
    A,
    B,
}

/// The items a two-way merge yields from `a` and `b`: the smaller head
/// first; when the heads have equal keys, B's is dropped and A's kept.
pub open spec fn twomerge<V>(a: Seq<(Seq<u8>, V)>, b: Seq<(Seq<u8>, V)>) -> Seq<(Seq<u8>, V)>
    decreases a.len() + b.len(),
{
    if a.len() == 0 {
        b
    } else if b.len() == 0 {
        a
    } else if a[0].0 == b[0].0 {
        twomerge(a, b.drop_first())
    } else if lex_le(a[0].0, b[0].0) {
        seq![a[0]] + twomerge(a.drop_first(), b)
    } else {
        seq![b[0]] + twomerge(a, b.drop_first())
    }
}

/// The side to read from, given the two current items.
pub open spec fn choose_side<V>(ca: Option<(Seq<u8>, V)>, cb: Option<(Seq<u8>, V)>) -> Option<
    Current,
> {
    match (ca, cb) {
        (None, None) => None,
        (Some(_), None) => Some(Current::A),
        (None, Some(_)) => Some(Current::B),
        (Some(x), Some(y)) => if lex_le(x.0, y.0) {
            Some(Current::A)
        } else {
            Some(Current::B)
        },
    }
}

/// The two current items do not share a key.
pub open spec fn heads_distinct<V>(ca: Option<(Seq<u8>, V)>, cb: Option<(Seq<u8>, V)>) -> bool {
    !(ca is Some && cb is Some && item_key(ca->0) == item_key(cb->0))
}

/// Two-way merge iterator over `a` and `b`, which share key and value types.
pub struct TwoMergeIter<A, B> {
    a: A,
    b: B,
    current: Option<Current>,
}

impl<A, B> TwoMergeIter<A, B> where A: ForwardIter, B: ForwardIter + IterBase<Value = A::Value> {
    pub closed spec fn side_a(&self) -> A {
        self.a
    }

    pub closed spec fn side_b(&self) -> B {
        self.b
    }

    pub closed spec fn side(&self) -> Option<Current> {
        self.current
    }

    /// Positions both sides at their first items and merges them.
    pub fn new(a: A, b: B) -> (r: StorageResult<Self>)
        requires
            a.wf(),
            b.wf(),
        ensures
            a.fwd_faultless() && b.fwd_faultless() ==> r is Ok && r->Ok_0.fwd_faultless(),
            r is Ok ==> {
                let s = r->Ok_0;
                &&& s.wf()
                &&& s.fwd_mode()
                &&& s.fwd_rest() == twomerge(a.fwd_all(), b.fwd_all())
                &&& s.fwd_all() == twomerge(a.fwd_all(), b.fwd_all())
            },
    {
        let mut a = a;
        let mut b = b;
        a.seek_to_first()?;
        b.seek_to_first()?;
        let mut s = TwoMergeIter { a, b, current: None };
        s.skip_b_if_equal()?;
        s.current = s.pick_side();
        Ok(s)
    }

    fn pick_side(&self) -> (c: Option<Current>)
        requires
            self.a.wf(),
            self.b.wf(),
        ensures
            c == choose_side(self.a.current(), self.b.current()),
    {
        match (self.a.key(), self.b.key()) {
            (None, None) => None,
            (Some(_), None) => Some(Current::A),
            (None, Some(_)) => Some(Current::B),
            (Some(ak), Some(bk)) => if bytes_le(ak, bk) {
                Some(Current::A)
            } else {
                Some(Current::B)
            },
        }
    }

    fn heads_equal(&self) -> (e: bool)
        requires
            self.a.wf(),
            self.b.wf(),
        ensures
            e == !heads_distinct(self.a.current(), self.b.current()),
    {
        match (self.a.key(), self.b.key()) {
            (Some(ak), Some(bk)) => bytes_eq(ak, bk),
            _ => false,
        }
    }

    /// Skips B's items whose key equals A's current key.
    fn skip_b_if_equal(&mut self) -> (r: StorageResult<()>)
        requires
            old(self).a.wf(),
            old(self).b.wf(),
            old(self).a.fwd_mode(),
            old(self).b.fwd_mode(),
            old(self).a.ready(),
            old(self).b.ready(),
        ensures
            final(self).a == old(self).a,
            final(self).b.wf(),
            final(self).b.fwd_all() == old(self).b.fwd_all(),
            forall|t: Seq<u8>| #[trigger]
                final(self).b.fwd_seek_rest(t) == old(self).b.fwd_seek_rest(t),
            old(self).b.fwd_faultless() ==> r is Ok && final(self).b.fwd_faultless(),
            r is Ok ==> {
                &&& final(self).b.fwd_mode()
                &&& final(self).b.ready()
                &&& heads_distinct(final(self).a.current(), final(self).b.current())
                &&& twomerge(final(self).a.fwd_rest(), final(self).b.fwd_rest()) == twomerge(
                    old(self).a.fwd_rest(),
                    old(self).b.fwd_rest(),
                )
            },
    {
        while self.heads_equal()
            invariant
                self.a == old(self).a,
                self.a.wf(),
                self.b.wf(),
                self.a.fwd_mode(),
                self.b.fwd_mode(),
                self.a.ready(),
                self.b.ready(),
                self.b.fwd_all() == old(self).b.fwd_all(),
                forall|t: Seq<u8>| #[trigger]
                    self.b.fwd_seek_rest(t) == old(self).b.fwd_seek_rest(t),
                old(self).b.fwd_faultless() ==> self.b.fwd_faultless(),
                twomerge(self.a.fwd_rest(), self.b.fwd_rest()) == twomerge(
                    old(self).a.fwd_rest(),
                    old(self).b.fwd_rest(),
                ),
            decreases self.b.fwd_rest().len(),
        {
            proof {
                self.a.lemma_fwd_head();
                self.b.lemma_fwd_head();
            }
            self.b.next()?;
        }
        Ok(())
    }
}

impl<A, B> IterBase for TwoMergeIter<A, B> where A: IterBase {
    type Value = A::Value;
}

impl<A, B> IterRead for TwoMergeIter<A, B> where
    A: ForwardIter,
    B: ForwardIter + IterBase<Value = A::Value>,
 {
    closed spec fn wf(&self) -> bool {
        self.a.wf() && self.b.wf()
    }

    closed spec fn current(&self) -> Option<(Seq<u8>, <A::Value as View>::V)> {
        match self.current {
            Some(Current::A) => self.a.current(),
            Some(Current::B) => self.b.current(),
            None => None,
        }
    }

    closed spec fn ready(&self) -> bool {
        match self.current {
            Some(Current::A) => self.a.ready(),
            Some(Current::B) => self.b.ready(),
            None => true,
        }
    }

    fn valid(&self) -> (v: bool) {
        match self.current {
            Some(Current::A) => self.a.valid(),
            Some(Current::B) => self.b.valid(),
            None => false,
        }
    }

    fn key(&self) -> (k: Option<&[u8]>) {
        match self.current {
            Some(Current::A) => self.a.key(),
            Some(Current::B) => self.b.key(),
            None => None,
        }
    }

    fn value(&self) -> (v: Option<A::Value>) {
        match self.current {
            Some(Current::A) => self.a.value(),
            Some(Current::B) => self.b.value(),
            None => None,
        }
    }
}

impl<A, B> ForwardIter for TwoMergeIter<A, B> where
    A: ForwardIter,
    B: ForwardIter + IterBase<Value = A::Value>,
 {
    closed spec fn fwd_all(&self) -> Seq<(Seq<u8>, <A::Value as View>::V)> {
        twomerge(self.a.fwd_all(), self.b.fwd_all())
    }

    closed spec fn fwd_rest(&self) -> Seq<(Seq<u8>, <A::Value as View>::V)> {
        twomerge(self.a.fwd_rest(), self.b.fwd_rest())
    }

    closed spec fn fwd_seek_rest(&self, target: Seq<u8>) -> Seq<(Seq<u8>, <A::Value as View>::V)> {
        twomerge(self.a.fwd_seek_rest(target), self.b.fwd_seek_rest(target))
    }

    closed spec fn fwd_mode(&self) -> bool {
        &&& self.a.fwd_mode()
        &&& self.b.fwd_mode()
        &&& self.a.ready()
        &&& self.b.ready()
        &&& heads_distinct(self.a.current(), self.b.current())
        &&& self.current == choose_side(self.a.current(), self.b.current())
    }

    /// Neither side can fail.
    open spec fn fwd_faultless(&self) -> bool {
        self.side_a().fwd_faultless() && self.side_b().fwd_faultless()
    }

    proof fn lemma_fwd_head(&self) {
        self.a.lemma_fwd_head();
        self.b.lemma_fwd_head();
    }

    fn seek_to_first(&mut self) -> (r: StorageResult<()>) {
        self.a.seek_to_first()?;
        self.b.seek_to_first()?;
        self.skip_b_if_equal()?;
        self.current = self.pick_side();
        Ok(())
    }

    fn seek(&mut self, target: &[u8]) -> (r: StorageResult<()>) {
        self.a.seek(target)?;
        self.b.seek(target)?;
        self.skip_b_if_equal()?;
        self.current = self.pick_side();
        Ok(())
    }

    fn next(&mut self) -> (r: StorageResult<()>) {
        proof {
            self.a.lemma_fwd_head();
            self.b.lemma_fwd_head();
        }
        match self.current {
            Some(Current::A) => {
                self.a.next()?;
            },
            Some(Current::B) => {
                self.b.next()?;
            },
            None => {
                return Ok(());
            },
        }
        self.skip_b_if_equal()?;
        self.current = self.pick_side();
        Ok(())
    }
}

/// Putting an item before a sorted run of larger keys keeps it sorted.
proof fn lemma_prepend_sorted<V>(h: (Seq<u8>, V), r: Seq<(Seq<u8>, V)>)
    requires
        strictly_sorted(keys_of(r)),
        forall|x: (Seq<u8>, V)| r.contains(x) ==> lex_lt(h.0, x.0),
    ensures
        strictly_sorted(keys_of(seq![h] + r)),
{
    let s = seq![h] + r;
    assert forall|i: int, j: int| 0 <= i < j < s.len() implies lex_lt(
        #[trigger] keys_of(s)[i],
        #[trigger] keys_of(s)[j],
    ) by {
        assert(s[j] == r[j - 1]);
        assert(r.contains(r[j - 1]));
        if i > 0 {
            assert(s[i] == r[i - 1]);
            assert(keys_of(r)[i - 1] == r[i - 1].0);
            assert(keys_of(r)[j - 1] == r[j - 1].0);
        }
    }
}

/// In a run sorted by key, every item after the first has a larger key.
proof fn lemma_after_first<V>(a: Seq<(Seq<u8>, V)>, x: (Seq<u8>, V))
    requires
        strictly_sorted(keys_of(a)),
        a.len() > 0,
        a.drop_first().contains(x),
    ensures
        lex_lt(a[0].0, x.0),
{
    let j = choose|j: int| 0 <= j < a.drop_first().len() && a.drop_first()[j] == x;
    assert(keys_of(a)[0] == a[0].0);
    assert(keys_of(a)[j + 1] == x.0);
}

/// Merging two runs sorted by key, A winning on equal keys: an item is
/// in the merge exactly when it is in A, or in B with a key A does not
/// have; and the merge is sorted by key.
pub proof fn lemma_twomerge_law<V>(a: Seq<(Seq<u8>, V)>, b: Seq<(Seq<u8>, V)>)
    requires
        strictly_sorted(keys_of(a)),
        strictly_sorted(keys_of(b)),
    ensures
        forall|x: (Seq<u8>, V)| #[trigger]
            twomerge(a, b).contains(x) <==> (a.contains(x) || (b.contains(x) && !keys_of(
                a,
            ).contains(x.0))),
        strictly_sorted(keys_of(twomerge(a, b))),
    decreases a.len() + b.len(),
{
    if a.len() == 0 {
        assert forall|x: (Seq<u8>, V)| !keys_of(a).contains(x.0) by {}
    } else if b.len() == 0 {
    } else {
        let a1 = a.drop_first();
        let b1 = b.drop_first();
        assert(strictly_sorted(keys_of(a1))) by {
            assert forall|i: int, j: int| 0 <= i < j < keys_of(a1).len() implies lex_lt(
                #[trigger] keys_of(a1)[i],
                #[trigger] keys_of(a1)[j],
            ) by {
                assert(keys_of(a1)[i] == keys_of(a)[i + 1]);
                assert(keys_of(a1)[j] == keys_of(a)[j + 1]);
            }
        }
        assert(strictly_sorted(keys_of(b1))) by {
            assert forall|i: int, j: int| 0 <= i < j < keys_of(b1).len() implies lex_lt(
                #[trigger] keys_of(b1)[i],
                #[trigger] keys_of(b1)[j],
            ) by {
                assert(keys_of(b1)[i] == keys_of(b)[i + 1]);
                assert(keys_of(b1)[j] == keys_of(b)[j + 1]);
            }
        }
        // every key of A is at least A's first, every key of B at least B's
        assert forall|k: Seq<u8>| keys_of(a).contains(k) implies lex_le(a[0].0, k) by {
            let i = choose|i: int| 0 <= i < keys_of(a).len() && keys_of(a)[i] == k;
            if i > 0 {
                assert(keys_of(a)[0] == a[0].0);
                lemma_lex_asym(a[0].0, k);
            } else {
                lemma_lex_irrefl(k);
            }
        }
        assert forall|x: (Seq<u8>, V)| a.contains(x) implies keys_of(a).contains(x.0) by {
            let i = choose|i: int| 0 <= i < a.len() && a[i] == x;
            assert(keys_of(a)[i] == x.0);
        }
        assert forall|x: (Seq<u8>, V)| b1.contains(x) implies lex_lt(b[0].0, x.0) by {
            lemma_after_first(b, x);
        }
        assert forall|x: (Seq<u8>, V)| a1.contains(x) implies lex_lt(a[0].0, x.0) by {
            lemma_after_first(a, x);
        }
        assert forall|x: (Seq<u8>, V)| #[trigger] b.contains(x) implies x == b[0] || b1.contains(
            x,
        ) by {
            let i = choose|i: int| 0 <= i < b.len() && b[i] == x;
            if i > 0 {
                assert(b1[i - 1] == x);
            }
        }
        assert forall|x: (Seq<u8>, V)| #[trigger] a.contains(x) implies x == a[0] || a1.contains(
            x,
        ) by {
            let i = choose|i: int| 0 <= i < a.len() && a[i] == x;
            if i > 0 {
                assert(a1[i - 1] == x);
            }
        }
        assert(b.contains(b[0]));
        assert(a.contains(a[0]));
        if a[0].0 == b[0].0 {
            lemma_twomerge_law(a, b1);
            assert forall|x: (Seq<u8>, V)| b1.contains(x) implies b.contains(x) by {
                let i = choose|i: int| 0 <= i < b1.len() && b1[i] == x;
                assert(b[i + 1] == x);
            }
            assert(keys_of(a).contains(a[0].0)) by {
                assert(keys_of(a)[0] == a[0].0);
            }
        } else if lex_le(a[0].0, b[0].0) {
            lemma_lex_total(a[0].0, b[0].0);
            lemma_twomerge_law(a1, b);
            let r = twomerge(a1, b);
            assert forall|x: (Seq<u8>, V)| r.contains(x) implies lex_lt(a[0].0, x.0) by {
                if !a1.contains(x) {
                    if x != b[0] {
                        lemma_lex_trans(a[0].0, b[0].0, x.0);
                    }
                }
            }
            lemma_prepend_sorted(a[0], r);
            assert forall|x: (Seq<u8>, V)| #[trigger] keys_of(a1).contains(x.0) || x.0 == a[0].0
                implies keys_of(a).contains(x.0) by {
                if x.0 == a[0].0 {
                    assert(keys_of(a)[0] == a[0].0);
                } else {
                    let i = choose|i: int| 0 <= i < keys_of(a1).len() && keys_of(a1)[i] == x.0;
                    assert(keys_of(a)[i + 1] == x.0);
                }
            }
            assert forall|x: (Seq<u8>, V)| #[trigger] keys_of(a).contains(x.0) && x.0 != a[0].0
                implies keys_of(a1).contains(x.0) by {
                let i = choose|i: int| 0 <= i < keys_of(a).len() && keys_of(a)[i] == x.0;
                if i == 0 {
                    assert(keys_of(a)[0] == a[0].0);
                } else {
                    assert(keys_of(a1)[i - 1] == x.0);
                }
            }
            assert forall|x: (Seq<u8>, V)| b.contains(x) implies x.0 != a[0].0 by {
                if x != b[0] {
                    lemma_lex_trans(a[0].0, b[0].0, x.0);
                    lemma_lex_irrefl(x.0);
                }
            }
            assert forall|x: (Seq<u8>, V)| a1.contains(x) implies a.contains(x) by {
                let i = choose|i: int| 0 <= i < a1.len() && a1[i] == x;
                assert(a[i + 1] == x);
            }
            assert forall|x: (Seq<u8>, V)| #[trigger]
                twomerge(a, b).contains(x) <==> (a.contains(x) || (b.contains(x) && !keys_of(
                    a,
                ).contains(x.0))) by {
                let m = twomerge(a, b);
                assert(m == seq![a[0]] + r);
                if x == a[0] {
                    assert(m[0] == x);
                    assert(m.contains(x));
                } else {
                    assert(m.contains(x) <==> r.contains(x)) by {
                        if m.contains(x) {
                            let i = choose|i: int| 0 <= i < m.len() && m[i] == x;
                            assert(r[i - 1] == x);
                            assert(r.contains(x));
                        }
                        if r.contains(x) {
                            let i = choose|i: int| 0 <= i < r.len() && r[i] == x;
                            assert(m[i + 1] == x);
                            assert(m.contains(x));
                        }
                    }
                    assert(a.contains(x) <==> a1.contains(x));
                    if b.contains(x) {
                        assert(x.0 != a[0].0);
                        assert(keys_of(a).contains(x.0) <==> keys_of(a1).contains(x.0));
                    }
                }
            }
        } else {
            lemma_lex_total(a[0].0, b[0].0);
            lemma_twomerge_law(a, b1);
            let r = twomerge(a, b1);
            assert forall|x: (Seq<u8>, V)| r.contains(x) implies lex_lt(b[0].0, x.0) by {
                if a.contains(x) {
                    if x != a[0] {
                        lemma_lex_trans(b[0].0, a[0].0, x.0);
                    }
                }
            }
            lemma_prepend_sorted(b[0], r);
            assert(!keys_of(a).contains(b[0].0)) by {
                if keys_of(a).contains(b[0].0) {
                    lemma_lex_asym(a[0].0, b[0].0);
                }
            }
            assert forall|x: (Seq<u8>, V)| b1.contains(x) implies b.contains(x) by {
                let i = choose|i: int| 0 <= i < b1.len() && b1[i] == x;
                assert(b[i + 1] == x);
            }
            assert forall|x: (Seq<u8>, V)| #[trigger]
                twomerge(a, b).contains(x) <==> (a.contains(x) || (b.contains(x) && !keys_of(
                    a,
                ).contains(x.0))) by {
                let m = twomerge(a, b);
                assert(m == seq![b[0]] + r);
                if x == b[0] {
                    assert(m[0] == x);
                    assert(m.contains(x));
                } else {
                    assert(m.contains(x) <==> r.contains(x)) by {
                        if m.contains(x) {
                            let i = choose|i: int| 0 <= i < m.len() && m[i] == x;
                            assert(r[i - 1] == x);
                            assert(r.contains(x));
                        }
                        if r.contains(x) {
                            let i = choose|i: int| 0 <= i < r.len() && r[i] == x;
                            assert(m[i + 1] == x);
                            assert(m.contains(x));
                        }
                    }
                    assert(b.contains(x) <==> b1.contains(x));
                }
            }
        }
    }
}

/// `p < q <= r` gives `p < r`; `p <= q < r` gives `p < r`.
proof fn lemma_lex_mixed(p: Seq<u8>, q: Seq<u8>, r: Seq<u8>)
    ensures
        lex_lt(p, q) && lex_le(q, r) ==> lex_lt(p, r),
        lex_le(p, q) && lex_lt(q, r) ==> lex_lt(p, r),
        lex_lt(p, q) ==> lex_le(p, q) && p != q,
{
    lemma_lex_total(q, r);
    lemma_lex_total(p, q);
    lemma_lex_asym(p, q);
    lemma_lex_irrefl(p);
    if lex_lt(p, q) && lex_lt(q, r) {
        lemma_lex_trans(p, q, r);
    }
}

/// A run sorted by key (repetitions allowed): its first item has the
/// smallest key, and what follows it stays sorted.
proof fn lemma_sorted_front<V>(a: Seq<(Seq<u8>, V)>)
    requires
        sorted(keys_of(a)),
        a.len() > 0,
    ensures
        sorted(keys_of(a.drop_first())),
        forall|x: (Seq<u8>, V)| a.contains(x) ==> lex_le(a[0].0, x.0),
        forall|x: (Seq<u8>, V)| #[trigger] a.contains(x) <==> (x == a[0] || a.drop_first().contains(x)),
        forall|x: (Seq<u8>, V)| a.contains(x) ==> #[trigger] keys_of(a).contains(x.0),
        forall|k: Seq<u8>|
            #[trigger] keys_of(a).contains(k) <==> (k == a[0].0 || keys_of(a.drop_first()).contains(k)),
{
    let a1 = a.drop_first();
    assert forall|i: int, j: int| 0 <= i < j < keys_of(a1).len() implies lex_le(
        #[trigger] keys_of(a1)[i],
        #[trigger] keys_of(a1)[j],
    ) by {
        assert(keys_of(a1)[i] == keys_of(a)[i + 1]);
        assert(keys_of(a1)[j] == keys_of(a)[j + 1]);
    }
    assert forall|x: (Seq<u8>, V)| a.contains(x) implies lex_le(a[0].0, x.0) by {
        let i = choose|i: int| 0 <= i < a.len() && a[i] == x;
        assert(keys_of(a)[0] == a[0].0);
        assert(keys_of(a)[i] == x.0);
        if i == 0 {
            lemma_lex_irrefl(x.0);
        }
    }
    assert forall|x: (Seq<u8>, V)| #[trigger] a.contains(x) <==> (x == a[0] || a1.contains(x)) by {
        if a.contains(x) {
            let i = choose|i: int| 0 <= i < a.len() && a[i] == x;
            if i > 0 {
                assert(a1[i - 1] == x);
            }
        }
        if a1.contains(x) {
            let i = choose|i: int| 0 <= i < a1.len() && a1[i] == x;
            assert(a[i + 1] == x);
        }
        assert(a[0] == a[0]);
    }
    assert forall|x: (Seq<u8>, V)| a.contains(x) implies #[trigger] keys_of(a).contains(x.0) by {
        let i = choose|i: int| 0 <= i < a.len() && a[i] == x;
        assert(keys_of(a)[i] == x.0);
    }
    assert forall|k: Seq<u8>| #[trigger] keys_of(a).contains(k) <==> (k == a[0].0 || keys_of(
        a1,
    ).contains(k)) by {
        if keys_of(a).contains(k) {
            let i = choose|i: int| 0 <= i < keys_of(a).len() && keys_of(a)[i] == k;
            if i > 0 {
                assert(keys_of(a1)[i - 1] == k);
            }
        }
        if keys_of(a1).contains(k) {
            let i = choose|i: int| 0 <= i < keys_of(a1).len() && keys_of(a1)[i] == k;
            assert(keys_of(a)[i + 1] == k);
        }
        assert(keys_of(a)[0] == a[0].0);
    }
}

/// Putting an item whose key is not above any of `r`'s in front of the
/// sorted run `r` keeps it sorted.
proof fn lemma_prepend_sorted_le<V>(h: (Seq<u8>, V), r: Seq<(Seq<u8>, V)>)
    requires
        sorted(keys_of(r)),
        forall|x: (Seq<u8>, V)| r.contains(x) ==> lex_le(h.0, x.0),
    ensures
        sorted(keys_of(seq![h] + r)),
{
    let s = seq![h] + r;
    assert forall|i: int, j: int| 0 <= i < j < s.len() implies lex_le(
        #[trigger] keys_of(s)[i],
        #[trigger] keys_of(s)[j],
    ) by {
        assert(s[j] == r[j - 1]);
        assert(r.contains(r[j - 1]));
        if i > 0 {
            assert(s[i] == r[i - 1]);
            assert(keys_of(r)[i - 1] == r[i - 1].0);
            assert(keys_of(r)[j - 1] == r[j - 1].0);
        }
    }
}

/// Merging two runs sorted by key, where either may repeat a key (as a
/// k-way merge yields every version of a key), A winning on equal keys:
/// an item is in the merge exactly when it is in A, or in B with a key A
/// does not have; and the merge is sorted by key.
pub proof fn lemma_twomerge_law_sorted<V>(a: Seq<(Seq<u8>, V)>, b: Seq<(Seq<u8>, V)>)
    requires
        sorted(keys_of(a)),
        sorted(keys_of(b)),
    ensures
        forall|x: (Seq<u8>, V)| #[trigger]
            twomerge(a, b).contains(x) <==> (a.contains(x) || (b.contains(x) && !keys_of(
                a,
            ).contains(x.0))),
        sorted(keys_of(twomerge(a, b))),
    decreases a.len() + b.len(),
{
    if a.len() == 0 {
        assert forall|x: (Seq<u8>, V)| !keys_of(a).contains(x.0) by {}
    } else if b.len() == 0 {
    } else {
        lemma_sorted_front(a);
        lemma_sorted_front(b);
        let a1 = a.drop_first();
        let b1 = b.drop_first();
        if a[0].0 == b[0].0 {
            lemma_twomerge_law_sorted(a, b1);
            assert(keys_of(a).contains(a[0].0));
            assert forall|x: (Seq<u8>, V)| #[trigger] twomerge(a, b).contains(x) <==> (a.contains(x) || (
                b.contains(x) && !keys_of(a).contains(x.0))) by {
                assert(a.contains(x) <==> (x == a[0] || a1.contains(x)));
                assert(b.contains(x) <==> (x == b[0] || b1.contains(x)));
                assert(keys_of(a).contains(x.0) <==> (x.0 == a[0].0 || keys_of(a1).contains(x.0)));
                assert(twomerge(a, b) == twomerge(a, b1));
            }
        } else if lex_le(a[0].0, b[0].0) {
            lemma_lex_total(a[0].0, b[0].0);
            assert(lex_lt(a[0].0, b[0].0));
            lemma_twomerge_law_sorted(a1, b);
            let r = twomerge(a1, b);
            assert forall|x: (Seq<u8>, V)| b.contains(x) implies x.0 != a[0].0 && lex_le(
                a[0].0,
                x.0,
            ) by {
                lemma_lex_mixed(a[0].0, b[0].0, x.0);
                lemma_lex_mixed(a[0].0, x.0, x.0);
            }
            assert forall|x: (Seq<u8>, V)| r.contains(x) implies lex_le(a[0].0, x.0) by {
                if a1.contains(x) {
                    assert(a.contains(x));
                }
            }
            lemma_prepend_sorted_le(a[0], r);
            assert(twomerge(a, b) == seq![a[0]] + r);
            assert forall|x: (Seq<u8>, V)| #[trigger] twomerge(a, b).contains(x) <==> (a.contains(x) || (
                b.contains(x) && !keys_of(a).contains(x.0))) by {
                assert(a.contains(x) <==> (x == a[0] || a1.contains(x)));
                assert(b.contains(x) <==> (x == b[0] || b1.contains(x)));
                assert(keys_of(a).contains(x.0) <==> (x.0 == a[0].0 || keys_of(a1).contains(x.0)));
                assert(b.contains(x) ==> x.0 != a[0].0 && lex_le(a[0].0, x.0));
                assert(twomerge(a, b).contains(x) == (seq![a[0]] + r).contains(x));
                if (seq![a[0]] + r).contains(x) {
                    let i = choose|i: int| 0 <= i < (seq![a[0]] + r).len() && (seq![a[0]] + r)[i] == x;
                    if i > 0 {
                        assert(r[i - 1] == x);
                    }
                }
                if r.contains(x) {
                    let i = choose|i: int| 0 <= i < r.len() && r[i] == x;
                    assert((seq![a[0]] + r)[i + 1] == x);
                }
                assert((seq![a[0]] + r)[0] == a[0]);
                assert(r.contains(x) <==> (a1.contains(x) || (b.contains(x) && !keys_of(a1).contains(x.0))));
            }
        } else {
            lemma_lex_total(a[0].0, b[0].0);
            assert(lex_lt(b[0].0, a[0].0));
            lemma_twomerge_law_sorted(a, b1);
            let r = twomerge(a, b1);
            assert forall|x: (Seq<u8>, V)| a.contains(x) implies lex_lt(b[0].0, x.0) by {
                lemma_lex_mixed(b[0].0, a[0].0, x.0);
            }
            assert(!keys_of(a).contains(b[0].0)) by {
                if keys_of(a).contains(b[0].0) {
                    let i = choose|i: int| 0 <= i < keys_of(a).len() && keys_of(a)[i] == b[0].0;
                    assert(a.contains(a[i]));
                    lemma_lex_irrefl(b[0].0);
                }
            }
            assert forall|x: (Seq<u8>, V)| r.contains(x) implies lex_le(b[0].0, x.0) by {
                if a.contains(x) {
                    lemma_lex_mixed(b[0].0, x.0, x.0);
                } else {
                    assert(b.contains(x));
                }
            }
            lemma_prepend_sorted_le(b[0], r);
            assert(twomerge(a, b) == seq![b[0]] + r);
            assert forall|x: (Seq<u8>, V)| #[trigger] twomerge(a, b).contains(x) <==> (a.contains(x) || (
                b.contains(x) && !keys_of(a).contains(x.0))) by {
                assert(a.contains(x) <==> (x == a[0] || a1.contains(x)));
                assert(b.contains(x) <==> (x == b[0] || b1.contains(x)));
                assert(keys_of(a).contains(x.0) <==> (x.0 == a[0].0 || keys_of(a1).contains(x.0)));
                assert(x == b[0] ==> !keys_of(a).contains(x.0));
                assert(twomerge(a, b).contains(x) == (seq![b[0]] + r).contains(x));
                if (seq![b[0]] + r).contains(x) {
                    let i = choose|i: int| 0 <= i < (seq![b[0]] + r).len() && (seq![b[0]] + r)[i] == x;
                    if i > 0 {
                        assert(r[i - 1] == x);
                    }
                }
                if r.contains(x) {
                    let i = choose|i: int| 0 <= i < r.len() && r[i] == x;
                    assert((seq![b[0]] + r)[i + 1] == x);
                }
                assert((seq![b[0]] + r)[0] == b[0]);
                assert(r.contains(x) <==> (a.contains(x) || (b1.contains(x) && !keys_of(a).contains(x.0))));
            }
        }
    }
}

/// Newest tier wins: merging `a` over the merge of `b` over `c` reads an
/// item exactly when it is in `a`, or in `b` with a key `a` lacks, or in
/// `c` with a key neither `a` nor `b` holds.
pub proof fn lemma_tiers_newest_win<V>(a: Seq<(Seq<u8>, V)>, b: Seq<(Seq<u8>, V)>, c: Seq<(Seq<u8>, V)>)
    requires
        sorted(keys_of(a)),
        sorted(keys_of(b)),
        sorted(keys_of(c)),
    ensures
        forall|x: (Seq<u8>, V)| #[trigger]
            twomerge(a, twomerge(b, c)).contains(x) <==> {
                ||| a.contains(x)
                ||| b.contains(x) && !keys_of(a).contains(x.0)
                ||| c.contains(x) && !keys_of(a).contains(x.0) && !keys_of(b).contains(x.0)
            },
{
    lemma_twomerge_law_sorted(b, c);
    lemma_twomerge_law_sorted(a, twomerge(b, c));
    assert forall|x: (Seq<u8>, V)| #[trigger]
        twomerge(a, twomerge(b, c)).contains(x) <==> {
            ||| a.contains(x)
            ||| b.contains(x) && !keys_of(a).contains(x.0)
            ||| c.contains(x) && !keys_of(a).contains(x.0) && !keys_of(b).contains(x.0)
        } by {
        assert(twomerge(b, c).contains(x) <==> (b.contains(x) || (c.contains(x) && !keys_of(
            b,
        ).contains(x.0))));
    }
}

/// In a sorted sequence, no item before the first with key `k` has a key
/// above `k`; in particular the head's key is not above it.
proof fn lemma_head_not_above<V>(a: Seq<(Seq<u8>, V)>, k: Seq<u8>, p: int)
    requires
        sorted(keys_of(a)),
        first_with_key(a, k, p),
    ensures
        !lex_lt(k, a[0].0),
{
    if p > 0 {
        assert(keys_of(a)[0] == a[0].0 && keys_of(a)[p] == k);
        crate::row_key::lemma_lex_asym(k, a[0].0);
    } else {
        crate::row_key::lemma_lex_irrefl(k);
    }
}

proof fn lemma_sorted_drop_first<V>(a: Seq<(Seq<u8>, V)>)
    requires
        sorted(keys_of(a)),
        a.len() > 0,
    ensures
        sorted(keys_of(a.drop_first())),
{
    assert forall|i: int, j: int| 0 <= i < j < keys_of(a.drop_first()).len() implies lex_le(
        #[trigger] keys_of(a.drop_first())[i],
        #[trigger] keys_of(a.drop_first())[j],
    ) by {
        assert(keys_of(a.drop_first())[i] == keys_of(a)[i + 1]);
        assert(keys_of(a.drop_first())[j] == keys_of(a)[j + 1]);
    }
}

/// The newer side is read first, for one key: when `a` holds key `k`, the
/// merge's first item with that key is `a`'s first item with it.
pub proof fn lemma_twomerge_first_from_a<V>(a: Seq<(Seq<u8>, V)>, b: Seq<(Seq<u8>, V)>, k: Seq<u8>, p: int)
    requires
        sorted(keys_of(a)),
        sorted(keys_of(b)),
        first_with_key(a, k, p),
    ensures
        exists|n: int| first_with_key(twomerge(a, b), k, n) && twomerge(a, b)[n] == a[p],
    decreases a.len() + b.len(),
{
    let out = twomerge(a, b);
    if b.len() == 0 {
        assert(first_with_key(out, k, p));
    } else {
        lemma_head_not_above(a, k, p);
        lemma_sorted_drop_first(b);
        if a[0].0 == b[0].0 {
            lemma_twomerge_first_from_a(a, b.drop_first(), k, p);
        } else if lex_le(a[0].0, b[0].0) {
            if p == 0 {
                assert(first_with_key(out, k, 0));
            } else {
                lemma_sorted_drop_first(a);
                let a2 = a.drop_first();
                assert(first_with_key(a2, k, p - 1)) by {
                    assert forall|j: int| 0 <= j < p - 1 implies (#[trigger] a2[j]).0 != k by {
                        assert(a2[j] == a[j + 1]);
                    }
                }
                lemma_twomerge_first_from_a(a2, b, k, p - 1);
                let t = twomerge(a2, b);
                let n = choose|n: int| first_with_key(t, k, n) && t[n] == a2[p - 1];
                assert(out == seq![a[0]] + t);
                assert forall|j: int| 0 <= j < n + 1 implies (#[trigger] out[j]).0 != k by {
                    if j > 0 {
                        assert(out[j] == t[j - 1]);
                    }
                }
                assert(first_with_key(out, k, n + 1));
            }
        } else {
            // b's head sorts strictly before a's, so its key is not `k`
            crate::row_key::lemma_lex_total(a[0].0, b[0].0);
            if b[0].0 == k {
                crate::row_key::lemma_lex_asym(k, a[0].0);
            }
            lemma_twomerge_first_from_a(a, b.drop_first(), k, p);
            let t = twomerge(a, b.drop_first());
            let n = choose|n: int| first_with_key(t, k, n) && t[n] == a[p];
            assert(out == seq![b[0]] + t);
            assert forall|j: int| 0 <= j < n + 1 implies (#[trigger] out[j]).0 != k by {
                if j > 0 {
                    assert(out[j] == t[j - 1]);
                }
            }
            assert(first_with_key(out, k, n + 1));
        }
    }
}

/// The older side is read for the keys the newer side lacks: when `a`
/// holds no item with key `k`, the merge's first item with that key is
/// `b`'s first item with it.
pub proof fn lemma_twomerge_first_from_b<V>(a: Seq<(Seq<u8>, V)>, b: Seq<(Seq<u8>, V)>, k: Seq<u8>, p: int)
    requires
        sorted(keys_of(a)),
        sorted(keys_of(b)),
        !keys_of(a).contains(k),
        first_with_key(b, k, p),
    ensures
        exists|n: int| first_with_key(twomerge(a, b), k, n) && twomerge(a, b)[n] == b[p],
    decreases a.len() + b.len(),
{
    let out = twomerge(a, b);
    if a.len() == 0 {
        assert(first_with_key(out, k, p));
    } else {
        assert(keys_of(a)[0] == a[0].0);
        assert(a[0].0 != k);
        lemma_sorted_drop_first(b);
        let b2 = b.drop_first();
        assert(p > 0 ==> first_with_key(b2, k, p - 1)) by {
            if p > 0 {
                assert forall|j: int| 0 <= j < p - 1 implies (#[trigger] b2[j]).0 != k by {
                    assert(b2[j] == b[j + 1]);
                }
            }
        }
        if a[0].0 == b[0].0 {
            lemma_twomerge_first_from_b(a, b2, k, p - 1);
        } else if lex_le(a[0].0, b[0].0) {
            lemma_sorted_drop_first(a);
            let a2 = a.drop_first();
            assert(!keys_of(a2).contains(k)) by {
                if keys_of(a2).contains(k) {
                    let q = choose|q: int| 0 <= q < keys_of(a2).len() && keys_of(a2)[q] == k;
                    assert(keys_of(a)[q + 1] == k);
                }
            }
            lemma_twomerge_first_from_b(a2, b, k, p);
            let t = twomerge(a2, b);
            let n = choose|n: int| first_with_key(t, k, n) && t[n] == b[p];
            assert(out == seq![a[0]] + t);
            assert forall|j: int| 0 <= j < n + 1 implies (#[trigger] out[j]).0 != k by {
                if j > 0 {
                    assert(out[j] == t[j - 1]);
                }
            }
            assert(first_with_key(out, k, n + 1));
        } else {
            assert(out == seq![b[0]] + twomerge(a, b2));
            if p == 0 {
                assert(first_with_key(out, k, 0));
            } else {
                lemma_twomerge_first_from_b(a, b2, k, p - 1);
                let t = twomerge(a, b2);
                let n = choose|n: int| first_with_key(t, k, n) && t[n] == b2[p - 1];
                assert forall|j: int| 0 <= j < n + 1 implies (#[trigger] out[j]).0 != k by {
                    if j > 0 {
                        assert(out[j] == t[j - 1]);
                    }
                }
                assert(first_with_key(out, k, n + 1));
            }
        }
    }
}

} // verus!

