//! Concatenation of ordered, non-overlapping iterators (one per SST, in
//! ascending key order) into one sequential iterator.

use vstd::prelude::*;
use crate::errors::StorageResult;
use crate::iterators::storage_iter::{
    keys_of, leaf_fwd_seek, lower_bound, tail, ForwardIter, IterBase, IterRead, ReverseIter,
};
use crate::iterators::index_tree::lemma_lower_bound_sorted;
use crate::row_key::{lex_lt, sorted};

verus! {

/// What the forward scans of `its[i..]` yield, one after the other.
pub open spec fn fwd_concat<I: ForwardIter>(its: Seq<I>, i: int) -> Seq<
    (Seq<u8>, <<I as IterBase>::Value as View>::V),
>
    decreases its.len() - i,
{
    if i < 0 || i >= its.len() {
        Seq::empty()
    } else {
        its[i].fwd_all() + fwd_concat(its, i + 1)
    }
}

/// What a forward `seek(t)` over `its[i..]` yields: the first iterator whose
/// own seek yields something, then everything after it.
pub open spec fn fwd_concat_seek<I: ForwardIter>(its: Seq<I>, t: Seq<u8>, i: int) -> Seq<
    (Seq<u8>, <<I as IterBase>::Value as View>::V),
>
    decreases its.len() - i,
{
    if i < 0 || i >= its.len() {
        Seq::empty()
    } else if its[i].fwd_seek_rest(t).len() > 0 {
        its[i].fwd_seek_rest(t) + fwd_concat(its, i + 1)
    } else {
        fwd_concat_seek(its, t, i + 1)
    }
}

/// What the backward scans of `its[..i]` yield, the last iterator first.
pub open spec fn rev_concat<I: ReverseIter>(its: Seq<I>, i: int) -> Seq<
    (Seq<u8>, <<I as IterBase>::Value as View>::V),
>
    decreases i,
{
    if i <= 0 || i > its.len() {
        Seq::empty()
    } else {
        its[i - 1].rev_all() + rev_concat(its, i - 1)
    }
}

/// What a backward `seek(t)` over `its[..i]` yields: the last iterator whose
/// own seek yields something, then everything before it.
pub open spec fn rev_concat_seek<I: ReverseIter>(its: Seq<I>, t: Seq<u8>, i: int) -> Seq<
    (Seq<u8>, <<I as IterBase>::Value as View>::V),
>
    decreases i,
{
    if i <= 0 || i > its.len() {
        Seq::empty()
    } else if its[i - 1].rev_seek_rest(t).len() > 0 {
        its[i - 1].rev_seek_rest(t) + rev_concat(its, i - 1)
    } else {
        rev_concat_seek(its, t, i - 1)
    }
}

/// Two sequences of iterators that yield the same on every forward scan.
pub open spec fn same_fwd<I: ForwardIter>(a: Seq<I>, b: Seq<I>) -> bool {
    &&& a.len() == b.len()
    &&& forall|j: int| 0 <= j < a.len() ==> #[trigger] a[j].fwd_all() == b[j].fwd_all()
    &&& forall|j: int, t: Seq<u8>|
        0 <= j < a.len() ==> #[trigger] a[j].fwd_seek_rest(t) == b[j].fwd_seek_rest(t)
}

/// Two sequences of iterators that yield the same on every backward scan.
pub open spec fn same_rev<I: ReverseIter>(a: Seq<I>, b: Seq<I>) -> bool {
    &&& a.len() == b.len()
    &&& forall|j: int| 0 <= j < a.len() ==> #[trigger] a[j].rev_all() == b[j].rev_all()
    &&& forall|j: int, t: Seq<u8>|
        0 <= j < a.len() ==> #[trigger] a[j].rev_seek_rest(t) == b[j].rev_seek_rest(t)
}

proof fn lemma_fwd_frame<I: ForwardIter>(a: Seq<I>, b: Seq<I>, t: Seq<u8>, i: int)
    requires
        same_fwd(a, b),
    ensures
        fwd_concat(a, i) == fwd_concat(b, i),
        fwd_concat_seek(a, t, i) == fwd_concat_seek(b, t, i),
    decreases a.len() - i,
{
    if 0 <= i < a.len() {
        lemma_fwd_frame(a, b, t, i + 1);
        assert(a[i].fwd_seek_rest(t) == b[i].fwd_seek_rest(t));
    }
}

proof fn lemma_rev_frame<I: ReverseIter>(a: Seq<I>, b: Seq<I>, t: Seq<u8>, i: int)
    requires
        same_rev(a, b),
    ensures
        rev_concat(a, i) == rev_concat(b, i),
        rev_concat_seek(a, t, i) == rev_concat_seek(b, t, i),
    decreases i,
{
    if 0 < i <= a.len() {
        lemma_rev_frame(a, b, t, i - 1);
        assert(a[i - 1].rev_seek_rest(t) == b[i - 1].rev_seek_rest(t));
    }
}

/// No iterator of `its` can fail stepping forward.
pub open spec fn all_fwd_ok<I: ForwardIter>(its: Seq<I>) -> bool {
    forall|j: int| 0 <= j < its.len() ==> #[trigger] its[j].fwd_faultless()
}

/// Stepping one part keeps every part unable to fail.
proof fn lemma_fwd_ok_update<I: ForwardIter>(before: Seq<I>, after: Seq<I>, i: int)
    requires
        before.len() == after.len(),
        forall|j: int| 0 <= j < before.len() && j != i ==> after[j] == before[j],
        0 <= i < before.len() && before[i].fwd_faultless() ==> after[i].fwd_faultless(),
    ensures
        all_fwd_ok(before) ==> all_fwd_ok(after),
{
    if all_fwd_ok(before) {
        assert forall|j: int| 0 <= j < after.len() implies #[trigger] after[j].fwd_faultless() by {
            if j != i {
                assert(after[j] == before[j]);
            } else {
                assert(before[j].fwd_faultless());
            }
        }
    }
}

/// No iterator of `its` can fail stepping backward.
pub open spec fn all_rev_ok<I: ReverseIter>(its: Seq<I>) -> bool {
    forall|j: int| 0 <= j < its.len() ==> #[trigger] its[j].rev_faultless()
}

/// Stepping one part keeps every part unable to fail.
proof fn lemma_rev_ok_update<I: ReverseIter>(before: Seq<I>, after: Seq<I>, i: int)
    requires
        before.len() == after.len(),
        forall|j: int| 0 <= j < before.len() && j != i ==> after[j] == before[j],
        0 <= i < before.len() && before[i].rev_faultless() ==> after[i].rev_faultless(),
    ensures
        all_rev_ok(before) ==> all_rev_ok(after),
{
    if all_rev_ok(before) {
        assert forall|j: int| 0 <= j < after.len() implies #[trigger] after[j].rev_faultless() by {
            if j != i {
                assert(after[j] == before[j]);
            } else {
                assert(before[j].rev_faultless());
            }
        }
    }
}

/// Iterators yielded one after the other.
pub struct ConcatIter<I> {
    iter: Vec<I>,
    curr: usize,
}

impl<I> ConcatIter<I> {
    pub closed spec fn parts(&self) -> Seq<I> {
        self.iter@
    }

    pub closed spec fn position(&self) -> int {
        self.curr as int
    }

    /// Concatenates `iter`, in order; nothing is positioned yet.
    pub fn new(iter: Vec<I>) -> (s: Self)
        ensures
            s.parts() == iter@,
            s.position() == 0,
    {
        ConcatIter { iter, curr: 0 }
    }
}

impl<I: IterBase> IterBase for ConcatIter<I> {
    type Value = I::Value;
}

impl<I: IterRead> IterRead for ConcatIter<I> {
    closed spec fn wf(&self) -> bool {
        &&& self.curr <= self.iter@.len()
        &&& forall|j: int| 0 <= j < self.iter@.len() ==> #[trigger] self.iter@[j].wf()
    }

    closed spec fn current(&self) -> Option<(Seq<u8>, <I::Value as View>::V)> {
        if self.curr < self.iter@.len() {
            self.iter@[self.curr as int].current()
        } else {
            None
        }
    }

    closed spec fn ready(&self) -> bool {
        self.curr < self.iter@.len() && self.iter@[self.curr as int].current() is Some
            ==> self.iter@[self.curr as int].ready()
    }

    fn valid(&self) -> (b: bool) {
        if self.iter.len() > 0 && self.curr < self.iter.len() {
            return self.iter[self.curr].valid();
        }
        false
    }

    fn key(&self) -> (k: Option<&[u8]>) {
        if self.curr < self.iter.len() {
            return self.iter[self.curr].key();
        }
        None
    }

    fn value(&self) -> (v: Option<I::Value>) {
        if self.curr < self.iter.len() {
            return self.iter[self.curr].value();
        }
        None
    }
}

impl<I: IterRead> ConcatIter<I> {
    /// The current item is the current item of the part at the position,
    /// none past the last part; so a fresh concatenation (position 0) is on
    /// the first part's current item.
    pub proof fn lemma_current(&self)
        ensures
            self.current() == (if self.position() < self.parts().len() {
                self.parts()[self.position()].current()
            } else {
                None
            }),
    {
    }

    /// A concatenation of well-formed parts, as `new` builds it, is well
    /// formed.
    pub proof fn lemma_wf(&self)
        requires
            self.position() == 0,
            forall|j: int| 0 <= j < self.parts().len() ==> #[trigger] self.parts()[j].wf(),
        ensures
            self.wf(),
    {
        assert forall|j: int| 0 <= j < self.iter@.len() implies #[trigger] self.iter@[j].wf() by {
            assert(self.parts()[j] == self.iter@[j]);
        }
    }
}

impl<I: ForwardIter> ConcatIter<I> {
    /// A forward scan yields the parts' forward scans one after the other.
    pub proof fn lemma_scan_all(&self)
        ensures
            self.fwd_all() == fwd_concat(self.parts(), 0),
    {
    }

    /// A forward seek to `t` yields, part after part, what seeking each
    /// part to `t` yields.
    pub proof fn lemma_seek_all(&self)
        ensures
            forall|t: Seq<u8>| #[trigger] self.fwd_seek_rest(t) == fwd_concat_seek(self.parts(), t, 0),
    {
    }

    /// A fresh concatenation whose first part is on no item, as `new` over
    /// unpositioned parts builds it, is in forward mode on no item with
    /// nothing left: a step there succeeds and changes nothing.
    pub proof fn lemma_fresh_fwd_mode(&self)
        requires
            self.position() == 0,
            self.parts().len() > 0 ==> self.parts()[0].current() is None,
        ensures
            self.fwd_mode(),
            self.ready(),
            self.current() is None,
            self.fwd_rest().len() == 0,
    {
    }

    /// Positions at the first item of `iter[from..]`, seeking each part to
    /// its start until one has an item.
    fn forward_from(&mut self, from: usize) -> (r: StorageResult<()>)
        requires
            old(self).wf(),
            from <= old(self).iter@.len(),
        ensures
            final(self).wf(),
            same_fwd(final(self).iter@, old(self).iter@),
            all_fwd_ok(old(self).iter@) ==> r is Ok && all_fwd_ok(final(self).iter@),
            forall|j: int|
                0 <= j < from ==> #[trigger] final(self).iter@[j] == old(self).iter@[j],
            r is Ok ==> {
                &&& from <= final(self).curr <= final(self).iter@.len()
                &&& final(self).fwd_mode()
                &&& final(self).fwd_rest() == fwd_concat(old(self).iter@, from as int)
            },
    {
        self.curr = from;
        let n = self.iter.len();
        while self.curr < n
            invariant_except_break
                self.curr <= n,
            invariant
                n == self.iter@.len(),
                from <= self.curr,
                forall|j: int| 0 <= j < n ==> #[trigger] self.iter@[j].wf(),
                same_fwd(self.iter@, old(self).iter@),
                all_fwd_ok(old(self).iter@) ==> all_fwd_ok(self.iter@),
                forall|j: int| 0 <= j < from ==> #[trigger] self.iter@[j] == old(self).iter@[j],
                fwd_concat(old(self).iter@, from as int) == fwd_concat(
                    old(self).iter@,
                    self.curr as int,
                ),
            ensures
                self.curr <= n,
                self.curr < n ==> {
                    &&& self.iter@[self.curr as int].fwd_mode()
                    &&& self.iter@[self.curr as int].ready()
                    &&& self.iter@[self.curr as int].current() is Some
                    &&& self.iter@[self.curr as int].fwd_rest() == self.iter@[
                        self.curr as int].fwd_all()
                },
            decreases n - self.curr,
        {
            let i = self.curr;
            let ghost before = self.iter@;
            let res = self.iter[i].seek_to_first();
            proof {
                assert forall|j: int| 0 <= j < n && j != i implies self.iter@[j] == before[j] by {}
                assert(same_fwd(self.iter@, before));
                lemma_fwd_ok_update(before, self.iter@, i as int);
            }
            if res.is_err() {
                return res;
            }
            if self.iter[i].valid() {
                break;
            }
            proof {
                self.iter@[i as int].lemma_fwd_head();
                assert(old(self).iter@[i as int].fwd_all().len() == 0);
                assert(fwd_concat(old(self).iter@, i as int) =~= fwd_concat(old(self).iter@, i + 1));
            }
            self.curr = i + 1;
        }
        proof {
            lemma_fwd_frame(self.iter@, old(self).iter@, Seq::empty(), self.curr + 1);
            if self.curr < n {
                assert(fwd_concat(old(self).iter@, self.curr as int) == old(self).iter@[
                    self.curr as int].fwd_all() + fwd_concat(old(self).iter@, self.curr + 1));
            }
        }
        Ok(())
    }

    /// Positions at the first item not below `target`, in the first part
    /// that has one.
    fn forward_seek(&mut self, target: &[u8]) -> (r: StorageResult<()>)
        requires
            old(self).wf(),
        ensures
            final(self).wf(),
            same_fwd(final(self).iter@, old(self).iter@),
            all_fwd_ok(old(self).iter@) ==> r is Ok && all_fwd_ok(final(self).iter@),
            r is Ok ==> {
                &&& final(self).fwd_mode()
                &&& final(self).fwd_rest() == fwd_concat_seek(old(self).iter@, target@, 0)
            },
    {
        self.curr = 0;
        let n = self.iter.len();
        while self.curr < n
            invariant_except_break
                self.curr <= n,
            invariant
                n == self.iter@.len(),
                forall|j: int| 0 <= j < n ==> #[trigger] self.iter@[j].wf(),
                same_fwd(self.iter@, old(self).iter@),
                all_fwd_ok(old(self).iter@) ==> all_fwd_ok(self.iter@),
                fwd_concat_seek(old(self).iter@, target@, 0) == fwd_concat_seek(
                    old(self).iter@,
                    target@,
                    self.curr as int,
                ),
            ensures
                self.curr <= n,
                self.curr < n ==> {
                    &&& self.iter@[self.curr as int].fwd_mode()
                    &&& self.iter@[self.curr as int].ready()
                    &&& self.iter@[self.curr as int].current() is Some
                    &&& self.iter@[self.curr as int].fwd_rest() == self.iter@[
                        self.curr as int].fwd_seek_rest(target@)
                },
            decreases n - self.curr,
        {
            let i = self.curr;
            let ghost before = self.iter@;
            let res = self.iter[i].seek(target);
            proof {
                assert forall|j: int| 0 <= j < n && j != i implies self.iter@[j] == before[j] by {}
                assert(same_fwd(self.iter@, before));
                lemma_fwd_ok_update(before, self.iter@, i as int);
                lemma_fwd_frame(self.iter@, before, target@, 0);
            }
            if res.is_err() {
                return res;
            }
            if self.iter[i].valid() {
                break;
            }
            proof {
                self.iter@[i as int].lemma_fwd_head();
                assert(old(self).iter@[i as int].fwd_seek_rest(target@).len() == 0);
            }
            self.curr = i + 1;
        }
        proof {
            lemma_fwd_frame(self.iter@, old(self).iter@, target@, self.curr + 1);
            if self.curr < n {
                self.iter@[self.curr as int].lemma_fwd_head();
                assert(old(self).iter@[self.curr as int].fwd_seek_rest(target@).len() > 0);
            }
        }
        Ok(())
    }
}

impl<I: ForwardIter> ForwardIter for ConcatIter<I> {
    closed spec fn fwd_all(&self) -> Seq<(Seq<u8>, <I::Value as View>::V)> {
        fwd_concat(self.iter@, 0)
    }

    closed spec fn fwd_rest(&self) -> Seq<(Seq<u8>, <I::Value as View>::V)> {
        if self.curr < self.iter@.len() && self.iter@[self.curr as int].current() is Some {
            self.iter@[self.curr as int].fwd_rest() + fwd_concat(self.iter@, self.curr + 1)
        } else {
            Seq::empty()
        }
    }

    closed spec fn fwd_seek_rest(&self, target: Seq<u8>) -> Seq<(Seq<u8>, <I::Value as View>::V)> {
        fwd_concat_seek(self.iter@, target, 0)
    }

    closed spec fn fwd_mode(&self) -> bool {
        &&& self.curr <= self.iter@.len()
        &&& self.curr < self.iter@.len() && self.iter@[self.curr as int].current() is Some ==> {
            &&& self.iter@[self.curr as int].fwd_mode()
            &&& self.iter@[self.curr as int].ready()
        }
    }

    /// No part can fail.
    open spec fn fwd_faultless(&self) -> bool {
        all_fwd_ok(self.parts())
    }

    proof fn lemma_fwd_head(&self) {
        if self.curr < self.iter@.len() && self.iter@[self.curr as int].current() is Some {
            self.iter@[self.curr as int].lemma_fwd_head();
        }
    }

    fn seek_to_first(&mut self) -> (r: StorageResult<()>) {
        let r = self.forward_from(0);
        proof {
            lemma_fwd_frame(self.iter@, old(self).iter@, Seq::empty(), 0);
            assert forall|t: Seq<u8>| #[trigger] self.fwd_seek_rest(t) == old(self).fwd_seek_rest(
                t,
            ) by {
                lemma_fwd_frame(self.iter@, old(self).iter@, t, 0);
            }
        }
        r
    }

    fn seek(&mut self, target: &[u8]) -> (r: StorageResult<()>) {
        let r = self.forward_seek(target);
        proof {
            lemma_fwd_frame(self.iter@, old(self).iter@, Seq::empty(), 0);
            assert forall|t: Seq<u8>| #[trigger] self.fwd_seek_rest(t) == old(self).fwd_seek_rest(
                t,
            ) by {
                lemma_fwd_frame(self.iter@, old(self).iter@, t, 0);
            }
        }
        r
    }

    /// Past the last part, or on no item, a step touches no part.
    fn next(&mut self) -> (r: StorageResult<()>)
        ensures
            old(self).current() is None ==> r is Ok && *final(self) == *old(self),
    {
        if !self.valid() {
            return Ok(());
        }
        let i = self.curr;
        let n = self.iter.len();
        let ghost old_rest = self.fwd_rest();
        let ghost before = self.iter@;
        proof {
            self.iter@[i as int].lemma_fwd_head();
        }
        let res = self.iter[i].next();
        proof {
            assert forall|j: int| 0 <= j < n && j != i implies self.iter@[j] == before[j] by {}
            assert(same_fwd(self.iter@, before));
            lemma_fwd_ok_update(before, self.iter@, i as int);
            lemma_fwd_frame(self.iter@, before, Seq::empty(), i + 1);
            assert forall|t: Seq<u8>| #[trigger] self.fwd_seek_rest(t) == old(self).fwd_seek_rest(
                t,
            ) by {
                lemma_fwd_frame(self.iter@, old(self).iter@, t, 0);
            }
            lemma_fwd_frame(self.iter@, old(self).iter@, Seq::empty(), 0);
        }
        if res.is_err() {
            return res;
        }
        if self.iter[i].valid() {
            proof {
                self.iter@[i as int].lemma_fwd_head();
                assert(tail(before[i as int].fwd_rest() + fwd_concat(before, i + 1))
                    =~= tail(before[i as int].fwd_rest()) + fwd_concat(before, i + 1));
                assert forall|t: Seq<u8>| #[trigger] self.fwd_seek_rest(t) == old(
                    self,
                ).fwd_seek_rest(t) by {
                    lemma_fwd_frame(self.iter@, old(self).iter@, t, 0);
                }
                lemma_fwd_frame(self.iter@, old(self).iter@, Seq::empty(), 0);
            }
            return Ok(());
        }
        proof {
            self.iter@[i as int].lemma_fwd_head();
            assert(tail(before[i as int].fwd_rest() + fwd_concat(before, i + 1)) =~= fwd_concat(
                before,
                i + 1,
            ));
        }
        let r = self.forward_from(i + 1);
        proof {
            assert forall|t: Seq<u8>| #[trigger] self.fwd_seek_rest(t) == old(self).fwd_seek_rest(
                t,
            ) by {
                lemma_fwd_frame(self.iter@, old(self).iter@, t, 0);
            }
            lemma_fwd_frame(self.iter@, old(self).iter@, Seq::empty(), 0);
        }
        r
    }
}

impl<I: ReverseIter> ConcatIter<I> {
    /// A backward seek to `t` yields, from the last part to the first, what
    /// seeking each part to `t` yields.
    pub proof fn lemma_rev_seek_all(&self)
        ensures
            forall|t: Seq<u8>| #[trigger] self.rev_seek_rest(t) == rev_concat_seek(
                self.parts(),
                t,
                self.parts().len() as int,
            ),
    {
    }

    /// A fresh concatenation whose first part is on no item is in reverse
    /// mode on no item with nothing left: a step there succeeds and changes
    /// nothing.
    pub proof fn lemma_fresh_rev_mode(&self)
        requires
            self.position() == 0,
            self.parts().len() > 0 ==> self.parts()[0].current() is None,
        ensures
            self.rev_mode(),
            self.ready(),
            self.current() is None,
            self.rev_rest().len() == 0,
    {
    }

    /// Positions at the last item of `iter[..=from]`, seeking each part to
    /// its end (backwards) until one has an item or the first part is
    /// reached.
    fn backward_from(&mut self, from: usize) -> (r: StorageResult<()>)
        requires
            old(self).wf(),
            from < old(self).iter@.len(),
        ensures
            final(self).wf(),
            same_rev(final(self).iter@, old(self).iter@),
            all_rev_ok(old(self).iter@) ==> r is Ok && all_rev_ok(final(self).iter@),
            r is Ok ==> {
                &&& final(self).rev_mode()
                &&& final(self).rev_rest() == rev_concat(old(self).iter@, from + 1)
            },
    {
        let n = self.iter.len();
        self.curr = from;
        loop
            invariant
                n == self.iter@.len(),
                self.curr <= from < n,
                forall|j: int| 0 <= j < n ==> #[trigger] self.iter@[j].wf(),
                same_rev(self.iter@, old(self).iter@),
                all_rev_ok(old(self).iter@) ==> all_rev_ok(self.iter@),
                rev_concat(old(self).iter@, from + 1) == rev_concat(
                    old(self).iter@,
                    self.curr + 1,
                ),
            ensures
                self.curr <= from,
                self.iter@[self.curr as int].rev_mode(),
                self.iter@[self.curr as int].ready(),
                self.iter@[self.curr as int].current() is None ==> self.curr == 0,
                self.iter@[self.curr as int].rev_rest() == self.iter@[self.curr as int].rev_all(),
            decreases self.curr,
        {
            let i = self.curr;
            let ghost before = self.iter@;
            let res = ReverseIter::seek_to_first(&mut self.iter[i]);
            proof {
                assert forall|j: int| 0 <= j < n && j != i implies self.iter@[j] == before[j] by {}
                assert(same_rev(self.iter@, before));
                lemma_rev_ok_update(before, self.iter@, i as int);
            }
            if res.is_err() {
                return res;
            }
            if self.iter[i].valid() || i == 0 {
                break;
            }
            proof {
                self.iter@[i as int].lemma_rev_head();
                assert(old(self).iter@[i as int].rev_all().len() == 0);
                assert(rev_concat(old(self).iter@, i + 1) =~= rev_concat(old(self).iter@, i as int));
            }
            self.curr = i - 1;
        }
        proof {
            lemma_rev_frame(self.iter@, old(self).iter@, Seq::empty(), self.curr as int);
            assert(rev_concat(old(self).iter@, self.curr + 1) == old(self).iter@[
                self.curr as int].rev_all() + rev_concat(old(self).iter@, self.curr as int));
            if self.curr == 0 {
                assert(rev_concat(self.iter@, 0) =~= Seq::<(Seq<u8>, <I::Value as View>::V)>::empty());
                assert(rev_concat(old(self).iter@, 0) =~= Seq::<(Seq<u8>, <I::Value as View>::V)>::empty());
            }
            if self.iter@[self.curr as int].current() is None {
                self.iter@[self.curr as int].lemma_rev_head();
                assert(old(self).iter@[self.curr as int].rev_all().len() == 0);
                assert(rev_concat(old(self).iter@, self.curr + 1) =~= Seq::<(Seq<u8>, <I::Value as View>::V)>::empty());
            }
        }
        Ok(())
    }
}

impl<I: ReverseIter> ReverseIter for ConcatIter<I> {
    closed spec fn rev_all(&self) -> Seq<(Seq<u8>, <I::Value as View>::V)> {
        rev_concat(self.iter@, self.iter@.len() as int)
    }

    closed spec fn rev_rest(&self) -> Seq<(Seq<u8>, <I::Value as View>::V)> {
        if self.curr < self.iter@.len() && self.iter@[self.curr as int].current() is Some {
            self.iter@[self.curr as int].rev_rest() + rev_concat(self.iter@, self.curr as int)
        } else {
            Seq::empty()
        }
    }

    closed spec fn rev_seek_rest(&self, target: Seq<u8>) -> Seq<(Seq<u8>, <I::Value as View>::V)> {
        rev_concat_seek(self.iter@, target, self.iter@.len() as int)
    }

    closed spec fn rev_mode(&self) -> bool {
        &&& self.curr <= self.iter@.len()
        &&& self.curr < self.iter@.len() && self.iter@[self.curr as int].current() is Some ==> {
            &&& self.iter@[self.curr as int].rev_mode()
            &&& self.iter@[self.curr as int].ready()
        }
    }

    /// No part can fail.
    open spec fn rev_faultless(&self) -> bool {
        all_rev_ok(self.parts())
    }

    proof fn lemma_rev_head(&self) {
        if self.curr < self.iter@.len() && self.iter@[self.curr as int].current() is Some {
            self.iter@[self.curr as int].lemma_rev_head();
        }
    }

    fn seek_to_first(&mut self) -> (r: StorageResult<()>) {
        let n = self.iter.len();
        if n == 0 {
            proof {
                assert(rev_concat(self.iter@, 0) =~= Seq::<(Seq<u8>, <I::Value as View>::V)>::empty());
            }
            return Ok(());
        }
        let r = self.backward_from(n - 1);
        proof {
            lemma_rev_frame(self.iter@, old(self).iter@, Seq::empty(), n as int);
            assert forall|t: Seq<u8>| #[trigger] self.rev_seek_rest(t) == old(self).rev_seek_rest(
                t,
            ) by {
                lemma_rev_frame(self.iter@, old(self).iter@, t, n as int);
            }
        }
        r
    }

    fn seek(&mut self, target: &[u8]) -> (r: StorageResult<()>) {
        let n = self.iter.len();
        let mut i: usize = n;
        while i > 0
            invariant
                n == self.iter@.len(),
                i <= n,
                self.curr == old(self).curr,
                self.curr <= n,
                forall|j: int| 0 <= j < n ==> #[trigger] self.iter@[j].wf(),
                same_rev(self.iter@, old(self).iter@),
                all_rev_ok(old(self).iter@) ==> all_rev_ok(self.iter@),
                forall|j: int| 0 <= j < i ==> #[trigger] self.iter@[j] == old(self).iter@[j],
                i < n ==> {
                    &&& self.iter@[i as int].rev_mode()
                    &&& self.iter@[i as int].ready()
                    &&& self.iter@[i as int].current() is None
                },
                rev_concat_seek(old(self).iter@, target@, n as int) == rev_concat_seek(
                    old(self).iter@,
                    target@,
                    i as int,
                ),
            decreases i,
        {
            let k = i - 1;
            let ghost before = self.iter@;
            let res = ReverseIter::seek(&mut self.iter[k], target);
            proof {
                assert forall|j: int| 0 <= j < n && j != k implies self.iter@[j] == before[j] by {}
                assert(same_rev(self.iter@, before));
                lemma_rev_ok_update(before, self.iter@, k as int);
                assert forall|t: Seq<u8>| #[trigger] self.rev_seek_rest(t) == old(
                    self,
                ).rev_seek_rest(t) by {
                    lemma_rev_frame(self.iter@, old(self).iter@, t, n as int);
                }
                lemma_rev_frame(self.iter@, old(self).iter@, Seq::empty(), n as int);
            }
            if res.is_err() {
                return res;
            }
            if self.iter[k].valid() {
                self.curr = k;
                proof {
                    self.iter@[k as int].lemma_rev_head();
                    lemma_rev_frame(self.iter@, old(self).iter@, target@, k as int);
                    assert(old(self).iter@[k as int].rev_seek_rest(target@).len() > 0);
                    assert forall|t: Seq<u8>| #[trigger] self.rev_seek_rest(t) == old(
                        self,
                    ).rev_seek_rest(t) by {
                        lemma_rev_frame(self.iter@, old(self).iter@, t, n as int);
                    }
                    lemma_rev_frame(self.iter@, old(self).iter@, target@, n as int);
                    assert(rev_concat_seek(old(self).iter@, target@, k + 1) == old(self).iter@[
                        k as int].rev_seek_rest(target@) + rev_concat(old(self).iter@, k as int));
                }
                return Ok(());
            }
            proof {
                self.iter@[k as int].lemma_rev_head();
                assert(old(self).iter@[k as int].rev_seek_rest(target@).len() == 0);
            }
            i = k;
        }
        self.curr = 0;
        proof {
            assert forall|t: Seq<u8>| #[trigger] self.rev_seek_rest(t) == old(self).rev_seek_rest(
                t,
            ) by {
                lemma_rev_frame(self.iter@, old(self).iter@, t, n as int);
            }
            lemma_rev_frame(self.iter@, old(self).iter@, Seq::empty(), n as int);
            if n > 0 {
                self.iter@[0].lemma_rev_head();
            }
            lemma_rev_frame(self.iter@, old(self).iter@, target@, n as int);
            assert(rev_concat(self.iter@, 0) =~= Seq::<(Seq<u8>, <I::Value as View>::V)>::empty());
            assert(rev_concat_seek(old(self).iter@, target@, 0) =~= Seq::<
                (Seq<u8>, <I::Value as View>::V),
            >::empty());
        }
        Ok(())
    }

    /// Past the first part, or on no item, a step touches no part.
    fn next(&mut self) -> (r: StorageResult<()>)
        ensures
            old(self).current() is None ==> r is Ok && *final(self) == *old(self),
    {
        if !self.valid() {
            return Ok(());
        }
        let i = self.curr;
        let n = self.iter.len();
        let ghost before = self.iter@;
        let ghost old_rest = self.rev_rest();
        proof {
            self.iter@[i as int].lemma_rev_head();
            assert(old_rest == before[i as int].rev_rest() + rev_concat(before, i as int));
            assert(before[i as int].rev_rest().len() > 0);
        }
        let res = ReverseIter::next(&mut self.iter[i]);
        proof {
            assert forall|j: int| 0 <= j < n && j != i implies self.iter@[j] == before[j] by {}
            assert(same_rev(self.iter@, before));
            lemma_rev_ok_update(before, self.iter@, i as int);
            lemma_rev_frame(self.iter@, before, Seq::empty(), i as int);
            assert forall|t: Seq<u8>| #[trigger] self.rev_seek_rest(t) == old(self).rev_seek_rest(
                t,
            ) by {
                lemma_rev_frame(self.iter@, old(self).iter@, t, n as int);
            }
            lemma_rev_frame(self.iter@, old(self).iter@, Seq::empty(), n as int);
        }
        if res.is_err() {
            return res;
        }
        if self.iter[i].valid() {
            proof {
                self.iter@[i as int].lemma_rev_head();
                assert(tail(before[i as int].rev_rest() + rev_concat(before, i as int))
                    =~= tail(before[i as int].rev_rest()) + rev_concat(before, i as int));
                assert(self.rev_rest() == self.iter@[i as int].rev_rest() + rev_concat(
                    self.iter@,
                    i as int,
                ));
                assert(self.rev_rest() == tail(old_rest));
            }
            return Ok(());
        }
        proof {
            self.iter@[i as int].lemma_rev_head();
            assert(tail(before[i as int].rev_rest() + rev_concat(before, i as int)) =~= rev_concat(
                before,
                i as int,
            ));
        }
        if i == 0 {
            proof {
                assert(rev_concat(self.iter@, 0) =~= Seq::<(Seq<u8>, <I::Value as View>::V)>::empty());
                assert(rev_concat(before, 0) =~= Seq::<(Seq<u8>, <I::Value as View>::V)>::empty());
            }
            return Ok(());
        }
        let r = self.backward_from(i - 1);
        proof {
            assert forall|t: Seq<u8>| #[trigger] self.rev_seek_rest(t) == old(self).rev_seek_rest(
                t,
            ) by {
                lemma_rev_frame(self.iter@, old(self).iter@, t, n as int);
            }
            lemma_rev_frame(self.iter@, old(self).iter@, Seq::empty(), n as int);
        }
        r
    }
}

/// In sorted keys, the bisection lands on the one index before which every
/// key is below `t` and at which (if any) the key is not.
proof fn lemma_lower_bound_is<V>(s: Seq<(Seq<u8>, V)>, t: Seq<u8>, q: int)
    requires
        sorted(keys_of(s)),
        0 <= q <= s.len(),
        forall|j: int| 0 <= j < q ==> lex_lt((#[trigger] s[j]).0, t),
        q < s.len() ==> !lex_lt(s[q].0, t),
    ensures
        lower_bound(keys_of(s), t, 0, s.len() as int) == q,
{
    let ks = keys_of(s);
    lemma_lower_bound_sorted(ks, t, 0, s.len() as int);
    let x = lower_bound(ks, t, 0, s.len() as int);
    if x < q {
        assert(lex_lt(s[x].0, t));
        assert(ks[x] == s[x].0);
    } else if q < x {
        assert(ks[q] == s[q].0);
        assert(lex_lt(ks[q], t));
    }
}

/// Seeking in a sorted sequence made of two parts: inside the first part
/// when it holds a key not below `t`, else inside the second.
proof fn lemma_leaf_seek_split<V>(a: Seq<(Seq<u8>, V)>, b: Seq<(Seq<u8>, V)>, t: Seq<u8>)
    requires
        sorted(keys_of(a + b)),
    ensures
        sorted(keys_of(a)),
        sorted(keys_of(b)),
        leaf_fwd_seek(a + b, t) == (if leaf_fwd_seek(a, t).len() > 0 {
            leaf_fwd_seek(a, t) + b
        } else {
            leaf_fwd_seek(b, t)
        }),
{
    let s = a + b;
    assert forall|i: int, j: int| 0 <= i < j < keys_of(a).len() implies crate::row_key::lex_le(
        #[trigger] keys_of(a)[i],
        #[trigger] keys_of(a)[j],
    ) by {
        assert(keys_of(a)[i] == keys_of(s)[i] && keys_of(a)[j] == keys_of(s)[j]);
    }
    assert forall|i: int, j: int| 0 <= i < j < keys_of(b).len() implies crate::row_key::lex_le(
        #[trigger] keys_of(b)[i],
        #[trigger] keys_of(b)[j],
    ) by {
        assert(keys_of(b)[i] == keys_of(s)[i + a.len()] && keys_of(b)[j] == keys_of(s)[j + a.len()]);
    }
    lemma_lower_bound_sorted(keys_of(a), t, 0, a.len() as int);
    lemma_lower_bound_sorted(keys_of(b), t, 0, b.len() as int);
    let qa = lower_bound(keys_of(a), t, 0, a.len() as int);
    let qb = lower_bound(keys_of(b), t, 0, b.len() as int);
    if qa < a.len() {
        assert forall|j: int| 0 <= j < qa implies lex_lt((#[trigger] s[j]).0, t) by {
            assert(s[j] == a[j]);
            assert(keys_of(a)[j] == a[j].0);
        }
        assert(s[qa] == a[qa] && keys_of(a)[qa] == a[qa].0);
        lemma_lower_bound_is(s, t, qa);
        assert(s.skip(qa) =~= a.skip(qa) + b);
    } else {
        let q = a.len() + qb;
        assert forall|j: int| 0 <= j < q implies lex_lt((#[trigger] s[j]).0, t) by {
            if j < a.len() {
                assert(s[j] == a[j]);
                assert(keys_of(a)[j] == a[j].0);
            } else {
                assert(s[j] == b[j - a.len()]);
                assert(keys_of(b)[j - a.len()] == b[j - a.len()].0);
            }
        }
        if q < s.len() {
            assert(s[q] == b[qb] && keys_of(b)[qb] == b[qb].0);
        }
        lemma_lower_bound_is(s, t, q);
        assert(s.skip(q) =~= b.skip(qb));
        assert(a.skip(qa).len() == 0);
    }
}

/// Seeking a concatenation of parts whose items together are in key order,
/// each part seeking as a sorted sequence does: the seek yields the items
/// of the whole concatenation from its first key not below `t` on.
pub proof fn lemma_concat_seek_law<I: ForwardIter>(its: Seq<I>, t: Seq<u8>, i: int)
    requires
        0 <= i <= its.len(),
        sorted(keys_of(fwd_concat(its, i))),
        forall|j: int| i <= j < its.len() ==> (#[trigger] its[j]).fwd_seek_rest(t) == leaf_fwd_seek(its[j].fwd_all(), t),
    ensures
        fwd_concat_seek(its, t, i) == leaf_fwd_seek(fwd_concat(its, i), t),
    decreases its.len() - i,
{
    if i == its.len() {
        assert(leaf_fwd_seek(fwd_concat(its, i), t) =~= Seq::<(Seq<u8>, <I::Value as View>::V)>::empty());
    } else {
        lemma_leaf_seek_split(its[i].fwd_all(), fwd_concat(its, i + 1), t);
        lemma_concat_seek_law(its, t, i + 1);
    }
}

impl<I: ForwardIter> ConcatIter<I> {
    /// A forward seek over parts whose items together are in key order,
    /// each part seeking as a sorted sequence does, yields everything the
    /// concatenation holds from its first key not below `t` on.
    pub proof fn lemma_seek_sorted(&self, t: Seq<u8>)
        requires
            sorted(keys_of(self.fwd_all())),
            forall|j: int|
                0 <= j < self.parts().len() ==> (#[trigger] self.parts()[j]).fwd_seek_rest(t)
                    == leaf_fwd_seek(self.parts()[j].fwd_all(), t),
        ensures
            self.fwd_seek_rest(t) == leaf_fwd_seek(self.fwd_all(), t),
    {
        lemma_concat_seek_law(self.parts(), t, 0);
    }
}

/// How many items at the front of `s` have keys above `t`.
pub open spec fn leading_above<V>(s: Seq<(Seq<u8>, V)>, t: Seq<u8>) -> nat
    decreases s.len(),
{
    if s.len() == 0 || !lex_lt(t, s[0].0) {
        0
    } else {
        1 + leading_above(s.drop_first(), t)
    }
}

/// What a backward seek to `t` yields of a backward scan `s` (keys
/// descending): its items from the first key not above `t` on.
pub open spec fn desc_seek<V>(s: Seq<(Seq<u8>, V)>, t: Seq<u8>) -> Seq<(Seq<u8>, V)> {
    s.skip(leading_above(s, t) as int)
}

proof fn lemma_leading_above_split<V>(a: Seq<(Seq<u8>, V)>, b: Seq<(Seq<u8>, V)>, t: Seq<u8>)
    ensures
        leading_above(a, t) <= a.len(),
        leading_above(a + b, t) == (if leading_above(a, t) < a.len() {
            leading_above(a, t)
        } else {
            a.len() + leading_above(b, t)
        }),
    decreases a.len(),
{
    if a.len() > 0 {
        assert((a + b)[0] == a[0]);
        if lex_lt(t, a[0].0) {
            lemma_leading_above_split(a.drop_first(), b, t);
            assert((a + b).drop_first() =~= a.drop_first() + b);
        }
    } else {
        assert(a + b =~= b);
    }
}

/// Seeking backward over a concatenation of parts, each seeking as its
/// backward scan read from the first key not above `t` does: the seek
/// yields the whole backward scan from its first key not above `t` on.
pub proof fn lemma_rev_concat_seek_law<I: ReverseIter>(its: Seq<I>, t: Seq<u8>, i: int)
    requires
        0 <= i <= its.len(),
        forall|j: int| 0 <= j < i ==> (#[trigger] its[j]).rev_seek_rest(t) == desc_seek(its[j].rev_all(), t),
    ensures
        rev_concat_seek(its, t, i) == desc_seek(rev_concat(its, i), t),
    decreases i,
{
    if i == 0 {
        assert(desc_seek(rev_concat(its, i), t) =~= Seq::<(Seq<u8>, <I::Value as View>::V)>::empty());
    } else {
        let a = its[i - 1].rev_all();
        let b = rev_concat(its, i - 1);
        lemma_leading_above_split(a, b, t);
        lemma_rev_concat_seek_law(its, t, i - 1);
        if leading_above(a, t) < a.len() {
            assert((a + b).skip(leading_above(a, t) as int) =~= a.skip(leading_above(a, t) as int) + b);
        } else {
            lemma_leading_above_split(b, Seq::<(Seq<u8>, <I::Value as View>::V)>::empty(), t);
            assert((a + b).skip((a.len() + leading_above(b, t)) as int) =~= b.skip(leading_above(b, t) as int));
            assert(desc_seek(a, t).len() == 0);
        }
    }
}

impl<I: ReverseIter> ConcatIter<I> {
    /// A backward seek over parts that each seek backward from their first
    /// key not above `t` yields the whole backward scan from its first key
    /// not above `t` on.
    pub proof fn lemma_rev_seek_law(&self, t: Seq<u8>)
        requires
            forall|j: int|
                0 <= j < self.parts().len() ==> (#[trigger] self.parts()[j]).rev_seek_rest(t) == desc_seek(
                    self.parts()[j].rev_all(),
                    t,
                ),
        ensures
            self.rev_seek_rest(t) == desc_seek(self.rev_all(), t),
    {
        lemma_rev_concat_seek_law(self.parts(), t, self.parts().len() as int);
    }
}

} // verus!
