//! K-way merge of iterators. Each input has a level (its index; lower is
//! newer). Forward, the smallest key comes first and, among equal keys, the
//! lowest level; backward, the largest key comes first and, among equal
//! keys, again the lowest level. Every item of every input is yielded.

use vstd::prelude::*;
use vstd::multiset::Multiset;
use crate::errors::StorageResult;
use crate::iterators::storage_iter::{
    item_key, ForwardIter, IterBase, IterRead, ReverseIter,
};
use crate::row_key::{
    bytes_lt, lemma_lex_asym, lemma_lex_total, lemma_lex_trans, lex_le, lex_lt, sorted,
};
use crate::iterators::storage_iter::keys_of;

verus! {

/// Index of the input whose head comes first forward among `heads[..i]`:
/// smallest key, then lowest index; `-1` when all of them are empty.
pub open spec fn pick_min<V>(heads: Seq<Option<(Seq<u8>, V)>>, i: int) -> int
    decreases i,
{
    if i <= 0 {
        -1
    } else {
        let b = pick_min(heads, i - 1);
        match heads[i - 1] {
            None => b,
            Some(h) => if b < 0 || lex_lt(item_key(h), item_key(heads[b]->0)) {
                i - 1
            } else {
                b
            },
        }
    }
}

/// Index of the input whose head comes first backward among `heads[..i]`:
/// largest key, then lowest index; `-1` when all of them are empty.
pub open spec fn pick_max<V>(heads: Seq<Option<(Seq<u8>, V)>>, i: int) -> int
    decreases i,
{
    if i <= 0 {
        -1
    } else {
        let b = pick_max(heads, i - 1);
        match heads[i - 1] {
            None => b,
            Some(h) => if b < 0 || lex_lt(item_key(heads[b]->0), item_key(h)) {
                i - 1
            } else {
                b
            },
        }
    }
}

/// The first item of each sequence, if any.
pub open spec fn heads_of<V>(rests: Seq<Seq<(Seq<u8>, V)>>) -> Seq<Option<(Seq<u8>, V)>> {
    Seq::new(
        rests.len(),
        |l: int|
            if rests[l].len() > 0 {
                Some(rests[l][0])
            } else {
                None
            },
    )
}

/// Number of items in all sequences together.
pub open spec fn total_items<V>(rests: Seq<Seq<V>>) -> nat
    decreases rests.len(),
{
    if rests.len() == 0 {
        0
    } else {
        total_items(rests.drop_last()) + rests.last().len()
    }
}

pub proof fn lemma_total_update<V>(rests: Seq<Seq<V>>, m: int, s: Seq<V>)
    requires
        0 <= m < rests.len(),
    ensures
        total_items(rests.update(m, s)) + rests[m].len() == total_items(rests) + s.len(),
    decreases rests.len(),
{
    if m < rests.len() - 1 {
        assert(rests.update(m, s).drop_last() =~= rests.drop_last().update(m, s));
        lemma_total_update(rests.drop_last(), m, s);
    } else {
        assert(rests.update(m, s).drop_last() =~= rests.drop_last());
    }
}

proof fn lemma_pick_min_range<V>(heads: Seq<Option<(Seq<u8>, V)>>, i: int)
    requires
        0 <= i <= heads.len(),
    ensures
        pick_min(heads, i) < i,
        pick_min(heads, i) >= 0 ==> heads[pick_min(heads, i)] is Some,
        pick_min(heads, i) < 0 ==> forall|j: int| 0 <= j < i ==> #[trigger] heads[j] is None,
    decreases i,
{
    if i > 0 {
        lemma_pick_min_range(heads, i - 1);
    }
}

proof fn lemma_pick_max_range<V>(heads: Seq<Option<(Seq<u8>, V)>>, i: int)
    requires
        0 <= i <= heads.len(),
    ensures
        pick_max(heads, i) < i,
        pick_max(heads, i) >= 0 ==> heads[pick_max(heads, i)] is Some,
        pick_max(heads, i) < 0 ==> forall|j: int| 0 <= j < i ==> #[trigger] heads[j] is None,
    decreases i,
{
    if i > 0 {
        lemma_pick_max_range(heads, i - 1);
    }
}

/// Forward k-way merge of `rests`: repeatedly take the head that
/// [`pick_min`] selects.
pub open spec fn kmerge_fwd<V>(rests: Seq<Seq<(Seq<u8>, V)>>) -> Seq<(Seq<u8>, V)>
    decreases total_items(rests),
{
    let m = pick_min(heads_of(rests), rests.len() as int);
    if m < 0 || m >= rests.len() || rests[m].len() == 0 {
        Seq::empty()
    } else {
        proof {
            lemma_total_update(rests, m, rests[m].drop_first());
        }
        seq![rests[m][0]] + kmerge_fwd(rests.update(m, rests[m].drop_first()))
    }
}

/// Backward k-way merge of `rests`: repeatedly take the head that
/// [`pick_max`] selects.
pub open spec fn kmerge_rev<V>(rests: Seq<Seq<(Seq<u8>, V)>>) -> Seq<(Seq<u8>, V)>
    decreases total_items(rests),
{
    let m = pick_max(heads_of(rests), rests.len() as int);
    if m < 0 || m >= rests.len() || rests[m].len() == 0 {
        Seq::empty()
    } else {
        proof {
            lemma_total_update(rests, m, rests[m].drop_first());
        }
        seq![rests[m][0]] + kmerge_rev(rests.update(m, rests[m].drop_first()))
    }
}

/// An input and its level.
struct HeapWrap<I> {
    level: usize,
    iter: I,
}

/// Which inputs take part in the merge, by level, and in which direction.
/// (Only inputs that are positioned on an item take part.)
enum MergeHeap {
    Forward(Vec<bool>),
    Reverse(Vec<bool>),
}

/// No input held in `items` can fail.
spec fn items_fwd_ok<I: ForwardIter>(items: Seq<HeapWrap<I>>) -> bool {
    forall|l: int| 0 <= l < items.len() ==> #[trigger] items[l].iter.fwd_faultless()
}

/// Stepping one input keeps every input unable to fail.
proof fn lemma_items_fwd_ok_update<I: ForwardIter>(before: Seq<HeapWrap<I>>, after: Seq<HeapWrap<I>>, i: int)
    requires
        before.len() == after.len(),
        forall|j: int| 0 <= j < before.len() && j != i ==> after[j] == before[j],
        0 <= i < before.len() && before[i].iter.fwd_faultless() ==> after[i].iter.fwd_faultless(),
    ensures
        items_fwd_ok(before) ==> items_fwd_ok(after),
{
    if items_fwd_ok(before) {
        assert forall|j: int| 0 <= j < after.len() implies #[trigger] after[j].iter.fwd_faultless() by {
            if j != i {
                assert(after[j] == before[j]);
            } else {
                assert(before[j].iter.fwd_faultless());
            }
        }
    }
}

/// No input held in `items` can fail.
spec fn items_rev_ok<I: ReverseIter>(items: Seq<HeapWrap<I>>) -> bool {
    forall|l: int| 0 <= l < items.len() ==> #[trigger] items[l].iter.rev_faultless()
}

/// Stepping one input keeps every input unable to fail.
proof fn lemma_items_rev_ok_update<I: ReverseIter>(before: Seq<HeapWrap<I>>, after: Seq<HeapWrap<I>>, i: int)
    requires
        before.len() == after.len(),
        forall|j: int| 0 <= j < before.len() && j != i ==> after[j] == before[j],
        0 <= i < before.len() && before[i].iter.rev_faultless() ==> after[i].iter.rev_faultless(),
    ensures
        items_rev_ok(before) ==> items_rev_ok(after),
{
    if items_rev_ok(before) {
        assert forall|j: int| 0 <= j < after.len() implies #[trigger] after[j].iter.rev_faultless() by {
            if j != i {
                assert(after[j] == before[j]);
            } else {
                assert(before[j].iter.rev_faultless());
            }
        }
    }
}

/// K-way merge iterator over inputs of one type.
pub struct MergeIter<I> {
    items: Vec<HeapWrap<I>>,
    heap: MergeHeap,
}

impl<I> MergeIter<I> {
    /// The inputs, by level.
    pub closed spec fn inputs(&self) -> Seq<I> {
        Seq::new(self.items@.len(), |l: int| self.items@[l].iter)
    }

    /// The merge orders its inputs for a forward scan.
    pub closed spec fn faces_forward(&self) -> bool {
        self.heap is Forward
    }

    closed spec fn flags(&self) -> Seq<bool> {
        match self.heap {
            MergeHeap::Forward(f) => f@,
            MergeHeap::Reverse(f) => f@,
        }
    }

    /// The inputs are the iterators held in `items`.
    proof fn lemma_inputs(&self)
        ensures
            self.inputs().len() == self.items@.len(),
            forall|l: int| 0 <= l < self.items@.len() ==> #[trigger] self.inputs()[l] == self.items@[l].iter,
    {
    }

    /// No input takes part yet: the merge is not positioned.
    pub closed spec fn unpositioned(&self) -> bool {
        forall|l: int| 0 <= l < self.flags().len() ==> !#[trigger] self.flags()[l]
    }

    pub closed spec fn shape_ok(&self) -> bool {
        &&& self.flags().len() == self.items@.len()
        &&& forall|l: int| 0 <= l < self.items@.len() ==> #[trigger] self.items@[l].level == l
    }

    /// Merges `iters`; the input at index `l` has level `l`.
    pub fn new(iters: Vec<I>) -> (s: Self)
        ensures
            s.inputs() == iters@,
            s.shape_ok(),
            s.unpositioned(),
            s.faces_forward(),
    {
        let mut iters = iters;
        let n = iters.len();
        let ghost orig = iters@;
        let mut items: Vec<HeapWrap<I>> = Vec::new();
        while iters.len() > 0
            invariant
                n == orig.len(),
                items@.len() + iters@.len() == n,
                iters@ == orig.skip(items@.len() as int),
                forall|l: int|
                    0 <= l < items@.len() ==> #[trigger] items@[l] == (HeapWrap {
                        level: l as usize,
                        iter: orig[l],
                    }),
            decreases iters@.len(),
        {
            let level = items.len();
            let it = iters.remove(0);
            assert(iters@ =~= orig.skip(level + 1));
            items.push(HeapWrap { level, iter: it });
        }
        let mut flags: Vec<bool> = Vec::new();
        while flags.len() < n
            invariant
                flags@.len() <= n,
                forall|l: int| 0 <= l < flags@.len() ==> !#[trigger] flags@[l],
                n == orig.len(),
                items@.len() == n,
                forall|l: int|
                    0 <= l < items@.len() ==> #[trigger] items@[l] == (HeapWrap {
                        level: l as usize,
                        iter: orig[l],
                    }),
            decreases n - flags@.len(),
        {
            flags.push(false);
        }
        let s = MergeIter { items, heap: MergeHeap::Forward(flags) };
        assert(s.inputs() =~= orig);
        s
    }

    /// Takes every input out of the merge, keeping the direction.
    fn drain_to_items(&mut self)
        requires
            old(self).shape_ok(),
        ensures
            final(self).shape_ok(),
            final(self).items@ == old(self).items@,
            forall|l: int| 0 <= l < final(self).flags().len() ==> !#[trigger] final(self).flags()[l],
            final(self).heap is Forward <==> old(self).heap is Forward,
    {
        let n = self.items.len();
        let mut flags: Vec<bool> = Vec::new();
        while flags.len() < n
            invariant
                flags@.len() <= n,
                forall|l: int| 0 <= l < flags@.len() ==> !#[trigger] flags@[l],
            decreases n - flags@.len(),
        {
            flags.push(false);
        }
        match self.heap {
            MergeHeap::Forward(_) => {
                self.heap = MergeHeap::Forward(flags);
            },
            MergeHeap::Reverse(_) => {
                self.heap = MergeHeap::Reverse(flags);
            },
        }
    }
}

impl<I: IterRead> MergeIter<I> {
    /// The current item of each input taking part, by level.
    closed spec fn active_currents(&self) -> Seq<Option<(Seq<u8>, <I::Value as View>::V)>> {
        Seq::new(
            self.items@.len(),
            |l: int|
                if self.flags()[l] {
                    self.items@[l].iter.current()
                } else {
                    None
                },
        )
    }

    closed spec fn top(&self) -> int {
        match self.heap {
            MergeHeap::Forward(_) => pick_min(self.active_currents(), self.items@.len() as int),
            MergeHeap::Reverse(_) => pick_max(self.active_currents(), self.items@.len() as int),
        }
    }

    /// Participation flags for the inputs that are positioned on an item.
    fn valid_flags(&self) -> (f: Vec<bool>)
        requires
            self.wf(),
        ensures
            f@.len() == self.items@.len(),
            forall|l: int|
                0 <= l < f@.len() ==> #[trigger] f@[l] == (self.items@[l].iter.current() is Some),
    {
        let n = self.items.len();
        let mut f: Vec<bool> = Vec::new();
        while f.len() < n
            invariant
                self.wf(),
                n == self.items@.len(),
                f@.len() <= n,
                forall|l: int|
                    0 <= l < f@.len() ==> #[trigger] f@[l] == (self.items@[l].iter.current()
                        is Some),
            decreases n - f@.len(),
        {
            let l = f.len();
            let v = self.items[l].iter.valid();
            f.push(v);
        }
        f
    }

    /// The level of the input whose item comes first, if any.
    fn peek(&self) -> (r: Option<usize>)
        requires
            self.wf(),
        ensures
            r matches Some(t) ==> t == self.top() && t < self.items@.len(),
            r is None ==> self.top() < 0,
    {
        let n = self.items.len();
        let forward = match self.heap {
            MergeHeap::Forward(_) => true,
            MergeHeap::Reverse(_) => false,
        };
        let ghost heads = self.active_currents();
        let mut best: Option<usize> = None;
        let mut l: usize = 0;
        while l < n
            invariant
                self.wf(),
                n == self.items@.len(),
                heads == self.active_currents(),
                forward == (self.heap is Forward),
                l <= n,
                forward ==> (best matches Some(b) ==> b == pick_min(heads, l as int)),
                forward ==> (best is None ==> pick_min(heads, l as int) < 0),
                !forward ==> (best matches Some(b) ==> b == pick_max(heads, l as int)),
                !forward ==> (best is None ==> pick_max(heads, l as int) < 0),
                best matches Some(b) ==> b < l && heads[b as int] is Some,
            decreases n - l,
        {
            let active = match &self.heap {
                MergeHeap::Forward(f) => f[l],
                MergeHeap::Reverse(f) => f[l],
            };
            if active {
                match self.items[l].iter.key() {
                    Some(k) => {
                        match best {
                            None => {
                                best = Some(l);
                            },
                            Some(b) => {
                                let bk = self.items[b].iter.key().unwrap();
                                let better = if forward {
                                    bytes_lt(k, bk)
                                } else {
                                    bytes_lt(bk, k)
                                };
                                if better {
                                    best = Some(l);
                                }
                            },
                        }
                    },
                    None => {},
                }
            }
            l = l + 1;
        }
        best
    }
}

impl<I: IterRead> MergeIter<I> {
    /// A merge of well-formed inputs, as `new` builds it, is well formed.
    pub proof fn lemma_wf(&self)
        requires
            self.shape_ok(),
            forall|l: int| 0 <= l < self.inputs().len() ==> #[trigger] self.inputs()[l].wf(),
        ensures
            self.wf(),
    {
        assert forall|l: int| 0 <= l < self.items@.len() implies #[trigger] self.items@[l].iter.wf() by {
            assert(self.inputs()[l] == self.items@[l].iter);
        }
    }
}

impl<I: ForwardIter> MergeIter<I> {
    /// A merge facing forward with no input taking part, as `new` builds
    /// it, is in forward mode on no item with nothing left to yield: a step
    /// there succeeds and changes nothing.
    pub proof fn lemma_fresh_fwd_mode(&self)
        requires
            self.shape_ok(),
            self.unpositioned(),
            self.faces_forward(),
        ensures
            self.fwd_mode(),
            self.ready(),
            self.current() is None,
            self.fwd_rest().len() == 0,
    {
        let rests = self.fwd_rests();
        assert forall|l: int| 0 <= l < rests.len() implies #[trigger] rests[l].len() == 0 by {
            assert(!self.flags()[l]);
        }
        lemma_kmerge_fwd_items(rests);
        lemma_items_ms_empty(rests);
        assert(self.fwd_rest().to_multiset().len() == 0);
        let t = self.top();
        if 0 <= t < self.items@.len() {
            assert(!self.flags()[t]);
            assert(self.active_currents()[t] is None);
        }
    }

    /// A forward scan yields the k-way merge of the inputs' forward scans.
    pub proof fn lemma_scan_all(&self)
        ensures
            self.fwd_all() == kmerge_fwd(
                Seq::new(self.inputs().len(), |l: int| self.inputs()[l].fwd_all()),
            ),
    {
        assert(Seq::new(self.items@.len(), |l: int| self.items@[l].iter.fwd_all()) =~= Seq::new(
            self.inputs().len(),
            |l: int| self.inputs()[l].fwd_all(),
        ));
    }

    /// Every input positioned on an item takes part, forward.
    fn build_forward_heap(&mut self)
        requires
            old(self).wf(),
        ensures
            final(self).wf(),
            final(self).items@ == old(self).items@,
            final(self).heap is Forward,
            forall|l: int|
                0 <= l < final(self).items@.len() ==> #[trigger] final(self).flags()[l]
                    == (final(self).items@[l].iter.current() is Some),
    {
        let f = self.valid_flags();
        self.heap = MergeHeap::Forward(f);
    }
}

impl<I: ReverseIter> MergeIter<I> {
    /// A backward scan yields the backward k-way merge of the inputs'
    /// backward scans.
    pub proof fn lemma_rev_scan_all(&self)
        ensures
            self.rev_all() == kmerge_rev(
                Seq::new(self.inputs().len(), |l: int| self.inputs()[l].rev_all()),
            ),
    {
        assert(Seq::new(self.items@.len(), |l: int| self.items@[l].iter.rev_all()) =~= Seq::new(
            self.inputs().len(),
            |l: int| self.inputs()[l].rev_all(),
        ));
    }

    /// Every input positioned on an item takes part, backward.
    fn build_reverse_heap(&mut self)
        requires
            old(self).wf(),
        ensures
            final(self).wf(),
            final(self).items@ == old(self).items@,
            final(self).heap is Reverse,
            forall|l: int|
                0 <= l < final(self).items@.len() ==> #[trigger] final(self).flags()[l]
                    == (final(self).items@[l].iter.current() is Some),
    {
        let f = self.valid_flags();
        self.heap = MergeHeap::Reverse(f);
    }
}

impl<I: IterBase> IterBase for MergeIter<I> {
    type Value = I::Value;
}

impl<I: IterRead> IterRead for MergeIter<I> {
    closed spec fn wf(&self) -> bool {
        &&& self.shape_ok()
        &&& forall|l: int| 0 <= l < self.items@.len() ==> #[trigger] self.items@[l].iter.wf()
    }

    closed spec fn current(&self) -> Option<(Seq<u8>, <I::Value as View>::V)> {
        if 0 <= self.top() < self.items@.len() {
            self.active_currents()[self.top()]
        } else {
            None
        }
    }

    closed spec fn ready(&self) -> bool {
        forall|l: int|
            0 <= l < self.items@.len() && #[trigger] self.flags()[l] ==> self.items@[l].iter.ready()
    }

    fn valid(&self) -> (b: bool) {
        proof {
            lemma_pick_min_range(self.active_currents(), self.items@.len() as int);
            lemma_pick_max_range(self.active_currents(), self.items@.len() as int);
        }
        self.peek().is_some()
    }

    fn key(&self) -> (k: Option<&[u8]>) {
        proof {
            lemma_pick_min_range(self.active_currents(), self.items@.len() as int);
            lemma_pick_max_range(self.active_currents(), self.items@.len() as int);
        }
        match self.peek() {
            Some(t) => self.items[t].iter.key(),
            None => None,
        }
    }

    fn value(&self) -> (v: Option<I::Value>) {
        proof {
            lemma_pick_min_range(self.active_currents(), self.items@.len() as int);
            lemma_pick_max_range(self.active_currents(), self.items@.len() as int);
        }
        match self.peek() {
            Some(t) => self.items[t].iter.value(),
            None => None,
        }
    }
}

impl<I: ForwardIter> MergeIter<I> {
    /// What each input taking part still yields forward, by level.
    closed spec fn fwd_rests(&self) -> Seq<Seq<(Seq<u8>, <I::Value as View>::V)>> {
        Seq::new(
            self.items@.len(),
            |l: int|
                if self.flags()[l] {
                    self.items@[l].iter.fwd_rest()
                } else {
                    Seq::empty()
                },
        )
    }

    /// In forward mode the heads of the rests are the inputs' current items.
    proof fn lemma_fwd_heads(&self)
        requires
            self.wf(),
            self.fwd_mode(),
        ensures
            heads_of(self.fwd_rests()) == self.active_currents(),
    {
        assert forall|l: int| 0 <= l < self.items@.len() implies #[trigger] heads_of(
            self.fwd_rests(),
        )[l] == self.active_currents()[l] by {
            if self.flags()[l] {
                self.items@[l].iter.lemma_fwd_head();
            }
        }
        assert(heads_of(self.fwd_rests()) =~= self.active_currents());
    }

    /// A merge not positioned yet is on no item.
    pub proof fn lemma_unpositioned(&self)
        requires
            self.unpositioned(),
            self.shape_ok(),
        ensures
            self.current() is None,
    {
        if 0 <= self.top() < self.items@.len() {
            assert(!self.flags()[self.top()]);
        }
    }

    /// Unable to fail exactly when no held input can fail.
    proof fn lemma_fwd_ok_items(&self)
        ensures
            self.fwd_faultless() == items_fwd_ok(self.items@),
    {
        self.lemma_inputs();
        if items_fwd_ok(self.items@) {
            assert forall|l: int| 0 <= l < self.inputs().len() implies #[trigger] self.inputs()[l].fwd_faultless() by {
                assert(self.items@[l].iter.fwd_faultless());
            }
        }
        if self.fwd_faultless() {
            assert forall|l: int| 0 <= l < self.items@.len() implies #[trigger] self.items@[l].iter.fwd_faultless() by {
                assert(self.inputs()[l].fwd_faultless());
            }
        }
    }

    /// Positions every input with `op` (`seek_to_first` when `target` is
    /// `None`, else `seek(target)`), then lets those with an item take part.
    fn forward_reset(&mut self, target: Option<&[u8]>) -> (r: StorageResult<()>)
        requires
            old(self).wf(),
        ensures
            final(self).wf(),
            final(self).items@.len() == old(self).items@.len(),
            forall|l: int|
                0 <= l < old(self).items@.len() ==> #[trigger] final(self).items@[l].iter.fwd_all()
                    == old(self).items@[l].iter.fwd_all(),
            forall|l: int, t: Seq<u8>|
                0 <= l < old(self).items@.len() ==> #[trigger] final(self).items@[l].iter.fwd_seek_rest(
                    t,
                ) == old(self).items@[l].iter.fwd_seek_rest(t),
            items_fwd_ok(old(self).items@) ==> r is Ok && items_fwd_ok(final(self).items@),
            r is Ok ==> {
                &&& final(self).fwd_mode()
                &&& final(self).ready()
                &&& final(self).fwd_rests() == Seq::new(
                    old(self).items@.len(),
                    |l: int|
                        match target {
                            Some(t) => old(self).items@[l].iter.fwd_seek_rest(t@),
                            None => old(self).items@[l].iter.fwd_all(),
                        },
                )
            },
    {
        self.drain_to_items();
        let n = self.items.len();
        let mut l: usize = 0;
        while l < n
            invariant
                items_fwd_ok(old(self).items@) ==> items_fwd_ok(self.items@),
                n == self.items@.len(),
                n == old(self).items@.len(),
                l <= n,
                self.wf(),
                self.heap is Forward <==> old(self).heap is Forward,
                forall|j: int| 0 <= j < n ==> !#[trigger] self.flags()[j],
                forall|j: int|
                    0 <= j < n ==> #[trigger] self.items@[j].iter.fwd_all() == old(
                        self,
                    ).items@[j].iter.fwd_all(),
                forall|j: int, t: Seq<u8>|
                    0 <= j < n ==> #[trigger] self.items@[j].iter.fwd_seek_rest(t) == old(
                        self,
                    ).items@[j].iter.fwd_seek_rest(t),
                forall|j: int|
                    0 <= j < l ==> {
                        &&& #[trigger] self.items@[j].iter.fwd_mode()
                        &&& self.items@[j].iter.ready()
                        &&& self.items@[j].iter.fwd_rest() == match target {
                            Some(t) => old(self).items@[j].iter.fwd_seek_rest(t@),
                            None => old(self).items@[j].iter.fwd_all(),
                        }
                    },
            decreases n - l,
        {
            let ghost before = self.items@;
            let res = match target {
                Some(t) => self.items[l].iter.seek(t),
                None => self.items[l].iter.seek_to_first(),
            };
            proof {
                assert forall|j: int| 0 <= j < n && j != l implies self.items@[j] == before[j] by {}
                lemma_items_fwd_ok_update(before, self.items@, l as int);
            }
            if res.is_err() {
                return res;
            }
            l = l + 1;
        }
        self.build_forward_heap();
        proof {
            assert forall|j: int| 0 <= j < n implies #[trigger] self.fwd_rests()[j] == match target {
                Some(t) => old(self).items@[j].iter.fwd_seek_rest(t@),
                None => old(self).items@[j].iter.fwd_all(),
            } by {
                assert(self.items@[j].iter.wf());
                assert(self.items@[j].iter.fwd_mode());
                self.items@[j].iter.lemma_fwd_head();
                assert(self.items@[j].iter.fwd_rest() == match target {
                    Some(t) => old(self).items@[j].iter.fwd_seek_rest(t@),
                    None => old(self).items@[j].iter.fwd_all(),
                });
            }
            assert(self.fwd_rests() =~= Seq::new(
                old(self).items@.len(),
                |l: int|
                    match target {
                        Some(t) => old(self).items@[l].iter.fwd_seek_rest(t@),
                        None => old(self).items@[l].iter.fwd_all(),
                    },
            ));
        }
        Ok(())
    }

    /// The forward models depend only on what each input yields.
    proof fn lemma_fwd_frame(&self, other: &Self)
        requires
            self.items@.len() == other.items@.len(),
            forall|l: int|
                0 <= l < self.items@.len() ==> #[trigger] self.items@[l].iter.fwd_all()
                    == other.items@[l].iter.fwd_all(),
            forall|l: int, t: Seq<u8>|
                0 <= l < self.items@.len() ==> #[trigger] self.items@[l].iter.fwd_seek_rest(t)
                    == other.items@[l].iter.fwd_seek_rest(t),
        ensures
            self.fwd_all() == other.fwd_all(),
            forall|t: Seq<u8>| #[trigger] self.fwd_seek_rest(t) == other.fwd_seek_rest(t),
    {
        assert(Seq::new(self.items@.len(), |l: int| self.items@[l].iter.fwd_all()) =~= Seq::new(
            other.items@.len(),
            |l: int| other.items@[l].iter.fwd_all(),
        ));
        assert forall|t: Seq<u8>| #[trigger] self.fwd_seek_rest(t) == other.fwd_seek_rest(t) by {
            assert(Seq::new(self.items@.len(), |l: int| self.items@[l].iter.fwd_seek_rest(t))
                =~= Seq::new(other.items@.len(), |l: int| other.items@[l].iter.fwd_seek_rest(t)));
        }
    }
}

impl<I: ForwardIter> ForwardIter for MergeIter<I> {
    closed spec fn fwd_all(&self) -> Seq<(Seq<u8>, <I::Value as View>::V)> {
        kmerge_fwd(Seq::new(self.items@.len(), |l: int| self.items@[l].iter.fwd_all()))
    }

    closed spec fn fwd_rest(&self) -> Seq<(Seq<u8>, <I::Value as View>::V)> {
        kmerge_fwd(self.fwd_rests())
    }

    closed spec fn fwd_seek_rest(&self, target: Seq<u8>) -> Seq<(Seq<u8>, <I::Value as View>::V)> {
        kmerge_fwd(Seq::new(self.items@.len(), |l: int| self.items@[l].iter.fwd_seek_rest(target)))
    }

    closed spec fn fwd_mode(&self) -> bool {
        &&& self.heap is Forward
        &&& forall|l: int|
            0 <= l < self.items@.len() && #[trigger] self.flags()[l] ==> {
                &&& self.items@[l].iter.fwd_mode()
                &&& self.items@[l].iter.ready()
                &&& self.items@[l].iter.current() is Some
            }
    }

    /// No input can fail.
    open spec fn fwd_faultless(&self) -> bool {
        forall|l: int| 0 <= l < self.inputs().len() ==> #[trigger] self.inputs()[l].fwd_faultless()
    }

    proof fn lemma_fwd_head(&self) {
        self.lemma_fwd_heads();
        lemma_pick_min_range(self.active_currents(), self.items@.len() as int);
    }

    fn seek_to_first(&mut self) -> (r: StorageResult<()>) {
        let r = self.forward_reset(None);
        proof {
            old(self).lemma_fwd_ok_items();
            self.lemma_fwd_ok_items();
            self.lemma_fwd_frame(old(self));
            if r is Ok {
                assert(self.fwd_rests() =~= Seq::new(
                    self.items@.len(),
                    |l: int| self.items@[l].iter.fwd_all(),
                ));
            }
        }
        r
    }

    fn seek(&mut self, target: &[u8]) -> (r: StorageResult<()>) {
        let r = self.forward_reset(Some(target));
        proof {
            old(self).lemma_fwd_ok_items();
            self.lemma_fwd_ok_items();
            self.lemma_fwd_frame(old(self));
            if r is Ok {
                assert(self.fwd_rests() =~= Seq::new(
                    self.items@.len(),
                    |l: int| self.items@[l].iter.fwd_seek_rest(target@),
                ));
            }
        }
        r
    }

    /// On no item (fresh, or past the end), a step touches no input.
    fn next(&mut self) -> (r: StorageResult<()>)
        ensures
            old(self).current() is None ==> r is Ok && *final(self) == *old(self),
    {
        proof {
            self.lemma_fwd_ok_items();
        }
        let ghost rests = self.fwd_rests();
        let n = self.items.len();
        proof {
            self.lemma_fwd_heads();
            lemma_pick_min_range(self.active_currents(), n as int);
        }
        let t = match self.peek() {
            Some(t) => t,
            None => {
                return Ok(());
            },
        };
        let ghost before = self.items@;
        let ghost flags0 = self.flags();
        proof {
            assert(self.active_currents()[t as int] is Some);
            assert(flags0[t as int]);
            assert(heads_of(rests)[t as int] is Some);
            assert(rests[t as int].len() > 0);
        }
        let res = self.items[t].iter.next();
        proof {
            assert forall|j: int| 0 <= j < n && j != t implies self.items@[j] == before[j] by {}
            lemma_items_fwd_ok_update(before, self.items@, t as int);
            self.lemma_fwd_ok_items();
            self.lemma_fwd_frame(old(self));
        }
        if res.is_err() {
            return res;
        }
        if !self.items[t].iter.valid() {
            proof {
                self.items@[t as int].iter.lemma_fwd_head();
            }
            match &mut self.heap {
                MergeHeap::Forward(f) => {
                    f.set(t, false);
                },
                MergeHeap::Reverse(f) => {
                    f.set(t, false);
                },
            }
        }
        proof {
            self.lemma_fwd_frame(old(self));
            assert forall|j: int| 0 <= j < n implies #[trigger] self.fwd_rests()[j] == rests.update(
                t as int,
                rests[t as int].drop_first(),
            )[j] by {
                if j == t {
                    self.items@[t as int].iter.lemma_fwd_head();
                } else {
                    assert(self.flags()[j] == flags0[j]);
                    assert(self.items@[j] == before[j]);
                }
            }
            assert(self.fwd_rests() =~= rests.update(t as int, rests[t as int].drop_first()));
        }
        Ok(())
    }
}

impl<I: ReverseIter> MergeIter<I> {
    /// What each input taking part still yields backward, by level.
    closed spec fn rev_rests(&self) -> Seq<Seq<(Seq<u8>, <I::Value as View>::V)>> {
        Seq::new(
            self.items@.len(),
            |l: int|
                if self.flags()[l] {
                    self.items@[l].iter.rev_rest()
                } else {
                    Seq::empty()
                },
        )
    }

    /// In backward mode the heads of the rests are the inputs' current items.
    proof fn lemma_rev_heads(&self)
        requires
            self.wf(),
            self.rev_mode(),
        ensures
            heads_of(self.rev_rests()) == self.active_currents(),
    {
        assert forall|l: int| 0 <= l < self.items@.len() implies #[trigger] heads_of(
            self.rev_rests(),
        )[l] == self.active_currents()[l] by {
            if self.flags()[l] {
                self.items@[l].iter.lemma_rev_head();
            }
        }
        assert(heads_of(self.rev_rests()) =~= self.active_currents());
    }

    /// Unable to fail exactly when no held input can fail.
    proof fn lemma_rev_ok_items(&self)
        ensures
            self.rev_faultless() == items_rev_ok(self.items@),
    {
        self.lemma_inputs();
        if items_rev_ok(self.items@) {
            assert forall|l: int| 0 <= l < self.inputs().len() implies #[trigger] self.inputs()[l].rev_faultless() by {
                assert(self.items@[l].iter.rev_faultless());
            }
        }
        if self.rev_faultless() {
            assert forall|l: int| 0 <= l < self.items@.len() implies #[trigger] self.items@[l].iter.rev_faultless() by {
                assert(self.inputs()[l].rev_faultless());
            }
        }
    }

    /// Positions every input backward (`seek_to_first` when `target` is
    /// `None`, else `seek(target)`), then lets those with an item take part.
    fn backward_reset(&mut self, target: Option<&[u8]>) -> (r: StorageResult<()>)
        requires
            old(self).wf(),
        ensures
            final(self).wf(),
            final(self).items@.len() == old(self).items@.len(),
            forall|l: int|
                0 <= l < old(self).items@.len() ==> #[trigger] final(self).items@[l].iter.rev_all()
                    == old(self).items@[l].iter.rev_all(),
            forall|l: int, t: Seq<u8>|
                0 <= l < old(self).items@.len() ==> #[trigger] final(self).items@[l].iter.rev_seek_rest(
                    t,
                ) == old(self).items@[l].iter.rev_seek_rest(t),
            items_rev_ok(old(self).items@) ==> r is Ok && items_rev_ok(final(self).items@),
            r is Ok ==> {
                &&& final(self).rev_mode()
                &&& final(self).ready()
                &&& final(self).rev_rests() == Seq::new(
                    old(self).items@.len(),
                    |l: int|
                        match target {
                            Some(t) => old(self).items@[l].iter.rev_seek_rest(t@),
                            None => old(self).items@[l].iter.rev_all(),
                        },
                )
            },
    {
        self.drain_to_items();
        let n = self.items.len();
        let mut l: usize = 0;
        while l < n
            invariant
                items_rev_ok(old(self).items@) ==> items_rev_ok(self.items@),
                n == self.items@.len(),
                n == old(self).items@.len(),
                l <= n,
                self.wf(),
                forall|j: int| 0 <= j < n ==> !#[trigger] self.flags()[j],
                forall|j: int|
                    0 <= j < n ==> #[trigger] self.items@[j].iter.rev_all() == old(
                        self,
                    ).items@[j].iter.rev_all(),
                forall|j: int, t: Seq<u8>|
                    0 <= j < n ==> #[trigger] self.items@[j].iter.rev_seek_rest(t) == old(
                        self,
                    ).items@[j].iter.rev_seek_rest(t),
                forall|j: int|
                    0 <= j < l ==> {
                        &&& #[trigger] self.items@[j].iter.rev_mode()
                        &&& self.items@[j].iter.ready()
                        &&& self.items@[j].iter.rev_rest() == match target {
                            Some(t) => old(self).items@[j].iter.rev_seek_rest(t@),
                            None => old(self).items@[j].iter.rev_all(),
                        }
                    },
            decreases n - l,
        {
            let ghost before = self.items@;
            let res = match target {
                Some(t) => self.items[l].iter.seek(t),
                None => self.items[l].iter.seek_to_first(),
            };
            proof {
                assert forall|j: int| 0 <= j < n && j != l implies self.items@[j] == before[j] by {}
                lemma_items_rev_ok_update(before, self.items@, l as int);
            }
            if res.is_err() {
                return res;
            }
            l = l + 1;
        }
        self.build_reverse_heap();
        proof {
            assert forall|j: int| 0 <= j < n implies #[trigger] self.rev_rests()[j] == match target {
                Some(t) => old(self).items@[j].iter.rev_seek_rest(t@),
                None => old(self).items@[j].iter.rev_all(),
            } by {
                assert(self.items@[j].iter.wf());
                assert(self.items@[j].iter.rev_mode());
                self.items@[j].iter.lemma_rev_head();
                assert(self.items@[j].iter.rev_rest() == match target {
                    Some(t) => old(self).items@[j].iter.rev_seek_rest(t@),
                    None => old(self).items@[j].iter.rev_all(),
                });
            }
            assert(self.rev_rests() =~= Seq::new(
                old(self).items@.len(),
                |l: int|
                    match target {
                        Some(t) => old(self).items@[l].iter.rev_seek_rest(t@),
                        None => old(self).items@[l].iter.rev_all(),
                    },
            ));
        }
        Ok(())
    }

    /// The backward models depend only on what each input yields.
    proof fn lemma_rev_frame(&self, other: &Self)
        requires
            self.items@.len() == other.items@.len(),
            forall|l: int|
                0 <= l < self.items@.len() ==> #[trigger] self.items@[l].iter.rev_all()
                    == other.items@[l].iter.rev_all(),
            forall|l: int, t: Seq<u8>|
                0 <= l < self.items@.len() ==> #[trigger] self.items@[l].iter.rev_seek_rest(t)
                    == other.items@[l].iter.rev_seek_rest(t),
        ensures
            self.rev_all() == other.rev_all(),
            forall|t: Seq<u8>| #[trigger] self.rev_seek_rest(t) == other.rev_seek_rest(t),
    {
        assert(Seq::new(self.items@.len(), |l: int| self.items@[l].iter.rev_all()) =~= Seq::new(
            other.items@.len(),
            |l: int| other.items@[l].iter.rev_all(),
        ));
        assert forall|t: Seq<u8>| #[trigger] self.rev_seek_rest(t) == other.rev_seek_rest(t) by {
            assert(Seq::new(self.items@.len(), |l: int| self.items@[l].iter.rev_seek_rest(t))
                =~= Seq::new(other.items@.len(), |l: int| other.items@[l].iter.rev_seek_rest(t)));
        }
    }
}

impl<I: ReverseIter> ReverseIter for MergeIter<I> {
    closed spec fn rev_all(&self) -> Seq<(Seq<u8>, <I::Value as View>::V)> {
        kmerge_rev(Seq::new(self.items@.len(), |l: int| self.items@[l].iter.rev_all()))
    }

    closed spec fn rev_rest(&self) -> Seq<(Seq<u8>, <I::Value as View>::V)> {
        kmerge_rev(self.rev_rests())
    }

    closed spec fn rev_seek_rest(&self, target: Seq<u8>) -> Seq<(Seq<u8>, <I::Value as View>::V)> {
        kmerge_rev(Seq::new(self.items@.len(), |l: int| self.items@[l].iter.rev_seek_rest(target)))
    }

    closed spec fn rev_mode(&self) -> bool {
        &&& self.heap is Reverse
        &&& forall|l: int|
            0 <= l < self.items@.len() && #[trigger] self.flags()[l] ==> {
                &&& self.items@[l].iter.rev_mode()
                &&& self.items@[l].iter.ready()
                &&& self.items@[l].iter.current() is Some
            }
    }

    /// No input can fail.
    open spec fn rev_faultless(&self) -> bool {
        forall|l: int| 0 <= l < self.inputs().len() ==> #[trigger] self.inputs()[l].rev_faultless()
    }

    proof fn lemma_rev_head(&self) {
        self.lemma_rev_heads();
        lemma_pick_max_range(self.active_currents(), self.items@.len() as int);
    }

    fn seek_to_first(&mut self) -> (r: StorageResult<()>) {
        let r = self.backward_reset(None);
        proof {
            old(self).lemma_rev_ok_items();
            self.lemma_rev_ok_items();
            self.lemma_rev_frame(old(self));
            if r is Ok {
                assert(self.rev_rests() =~= Seq::new(
                    self.items@.len(),
                    |l: int| self.items@[l].iter.rev_all(),
                ));
            }
        }
        r
    }

    fn seek(&mut self, target: &[u8]) -> (r: StorageResult<()>) {
        let r = self.backward_reset(Some(target));
        proof {
            old(self).lemma_rev_ok_items();
            self.lemma_rev_ok_items();
            self.lemma_rev_frame(old(self));
            if r is Ok {
                assert(self.rev_rests() =~= Seq::new(
                    self.items@.len(),
                    |l: int| self.items@[l].iter.rev_seek_rest(target@),
                ));
            }
        }
        r
    }

    /// On no item (fresh, or past the end), a step touches no input.
    fn next(&mut self) -> (r: StorageResult<()>)
        ensures
            old(self).current() is None ==> r is Ok && *final(self) == *old(self),
    {
        proof {
            self.lemma_rev_ok_items();
        }
        let ghost rests = self.rev_rests();
        let n = self.items.len();
        proof {
            self.lemma_rev_heads();
            lemma_pick_max_range(self.active_currents(), n as int);
        }
        let t = match self.peek() {
            Some(t) => t,
            None => {
                return Ok(());
            },
        };
        let ghost before = self.items@;
        let ghost flags0 = self.flags();
        proof {
            assert(self.active_currents()[t as int] is Some);
            assert(flags0[t as int]);
            assert(heads_of(rests)[t as int] is Some);
            assert(rests[t as int].len() > 0);
        }
        let res = self.items[t].iter.next();
        proof {
            assert forall|j: int| 0 <= j < n && j != t implies self.items@[j] == before[j] by {}
            lemma_items_rev_ok_update(before, self.items@, t as int);
            self.lemma_rev_ok_items();
            self.lemma_rev_frame(old(self));
        }
        if res.is_err() {
            return res;
        }
        if !self.items[t].iter.valid() {
            proof {
                self.items@[t as int].iter.lemma_rev_head();
            }
            match &mut self.heap {
                MergeHeap::Forward(f) => {
                    f.set(t, false);
                },
                MergeHeap::Reverse(f) => {
                    f.set(t, false);
                },
            }
        }
        proof {
            self.lemma_rev_frame(old(self));
            assert forall|j: int| 0 <= j < n implies #[trigger] self.rev_rests()[j] == rests.update(
                t as int,
                rests[t as int].drop_first(),
            )[j] by {
                if j == t {
                    self.items@[t as int].iter.lemma_rev_head();
                } else {
                    assert(self.flags()[j] == flags0[j]);
                    assert(self.items@[j] == before[j]);
                }
            }
            assert(self.rev_rests() =~= rests.update(t as int, rests[t as int].drop_first()));
        }
        Ok(())
    }
}

// ── What a merge yields ──

/// All items of all sequences together, as a multiset.
pub open spec fn items_ms<V>(rests: Seq<Seq<(Seq<u8>, V)>>) -> Multiset<(Seq<u8>, V)>
    decreases rests.len(),
{
    if rests.len() == 0 {
        Multiset::empty()
    } else {
        items_ms(rests.drop_last()).add(rests.last().to_multiset())
    }
}

/// Replacing one sequence replaces its items.
proof fn lemma_items_ms_update<V>(rests: Seq<Seq<(Seq<u8>, V)>>, m: int, s: Seq<(Seq<u8>, V)>)
    requires
        0 <= m < rests.len(),
    ensures
        items_ms(rests.update(m, s)).add(rests[m].to_multiset()) == items_ms(rests).add(
            s.to_multiset(),
        ),
    decreases rests.len(),
{
    broadcast use vstd::multiset::group_multiset_axioms;

    let u = rests.update(m, s);
    let dl = rests.drop_last();
    if m < rests.len() - 1 {
        assert(u.drop_last() =~= dl.update(m, s));
        assert(u.last() == rests.last());
        assert(dl[m] == rests[m]);
        lemma_items_ms_update(dl, m, s);
        assert(items_ms(u) == items_ms(dl.update(m, s)).add(rests.last().to_multiset()));
        assert(items_ms(rests) == items_ms(dl).add(rests.last().to_multiset()));
        let ih_l = items_ms(dl.update(m, s)).add(dl[m].to_multiset());
        let ih_r = items_ms(dl).add(s.to_multiset());
        assert forall|x: (Seq<u8>, V)| #[trigger] items_ms(u).add(rests[m].to_multiset()).count(x)
            == items_ms(rests).add(s.to_multiset()).count(x) by {
            assert(ih_l.count(x) == ih_r.count(x));
        }
        assert(items_ms(u).add(rests[m].to_multiset()) =~= items_ms(rests).add(s.to_multiset()));
    } else {
        assert(u.drop_last() =~= dl);
        assert(u.last() == s);
        assert(items_ms(u) == items_ms(dl).add(s.to_multiset()));
        assert(items_ms(rests) == items_ms(dl).add(rests[m].to_multiset()));
        assert(items_ms(u).add(rests[m].to_multiset()) =~= items_ms(rests).add(s.to_multiset()));
    }
}

/// Sequences that are all empty hold no items.
proof fn lemma_items_ms_empty<V>(rests: Seq<Seq<(Seq<u8>, V)>>)
    requires
        forall|l: int| 0 <= l < rests.len() ==> #[trigger] rests[l].len() == 0,
    ensures
        items_ms(rests) == Multiset::<(Seq<u8>, V)>::empty(),
    decreases rests.len(),
{
    broadcast use vstd::seq_lib::group_to_multiset_ensures;

    if rests.len() > 0 {
        lemma_items_ms_empty(rests.drop_last());
        assert(rests.last().to_multiset().len() == 0);
        assert(rests.last().to_multiset() =~= Multiset::<(Seq<u8>, V)>::empty());
        assert(items_ms(rests) =~= Multiset::<(Seq<u8>, V)>::empty());
    }
}

/// An item of the sequences together is an item of one of them.
proof fn lemma_items_ms_member<V>(rests: Seq<Seq<(Seq<u8>, V)>>, x: (Seq<u8>, V))
    requires
        items_ms(rests).count(x) > 0,
    ensures
        exists|l: int| 0 <= l < rests.len() && #[trigger] rests[l].contains(x),
    decreases rests.len(),
{
    broadcast use vstd::seq_lib::group_to_multiset_ensures;

    if rests.len() > 0 {
        let last = rests.len() - 1;
        if rests.last().to_multiset().count(x) > 0 {
            assert(rests[last].contains(x));
        } else {
            lemma_items_ms_member(rests.drop_last(), x);
            let l = choose|l: int| 0 <= l < rests.drop_last().len() && #[trigger] rests.drop_last()[l].contains(x);
            assert(rests[l] == rests.drop_last()[l]);
        }
    }
}

/// A forward k-way merge yields every item of every input, each as often
/// as the inputs hold it.
pub proof fn lemma_kmerge_fwd_items<V>(rests: Seq<Seq<(Seq<u8>, V)>>)
    ensures
        kmerge_fwd(rests).to_multiset() == items_ms(rests),
    decreases total_items(rests),
{
    broadcast use vstd::seq_lib::group_to_multiset_ensures;
    broadcast use vstd::multiset::group_multiset_axioms;

    let heads = heads_of(rests);
    lemma_pick_min_range(heads, rests.len() as int);
    let m = pick_min(heads, rests.len() as int);
    if m < 0 || m >= rests.len() || rests[m].len() == 0 {
        assert forall|l: int| 0 <= l < rests.len() implies #[trigger] rests[l].len() == 0 by {
            assert(heads[l] is None);
        }
        lemma_items_ms_empty(rests);
        assert(kmerge_fwd(rests).to_multiset() =~= Multiset::<(Seq<u8>, V)>::empty());
    } else {
        let h = rests[m][0];
        let s = rests[m].drop_first();
        let u = rests.update(m, s);
        lemma_total_update(rests, m, s);
        lemma_kmerge_fwd_items(u);
        lemma_items_ms_update(rests, m, s);
        vstd::seq_lib::lemma_multiset_commutative(seq![h], kmerge_fwd(u));
        vstd::seq_lib::lemma_multiset_commutative(seq![h], s);
        assert(rests[m] =~= seq![h] + s);
        assert(seq![h].to_multiset() =~= Multiset::singleton(h)) by {
            assert(seq![h] =~= Seq::<(Seq<u8>, V)>::empty().push(h));
        }
        assert(kmerge_fwd(rests) == seq![h] + kmerge_fwd(u));
        let hm = Multiset::singleton(h);
        assert(rests[m].to_multiset() == hm.add(s.to_multiset()));
        let lhs = items_ms(u).add(hm.add(s.to_multiset()));
        let rhs = items_ms(rests).add(s.to_multiset());
        assert(lhs == rhs);
        assert forall|x: (Seq<u8>, V)| #[trigger] items_ms(u).add(hm).count(x) == items_ms(
            rests,
        ).count(x) by {
            assert(lhs.count(x) == rhs.count(x));
        }
        assert(items_ms(u).add(hm) =~= items_ms(rests));
        assert(kmerge_fwd(rests).to_multiset() =~= items_ms(rests));
    }
}

/// The head the forward merge picks has a key no greater than any other
/// head's.
proof fn lemma_pick_min_least<V>(heads: Seq<Option<(Seq<u8>, V)>>, i: int)
    requires
        0 <= i <= heads.len(),
    ensures
        pick_min(heads, i) >= 0 ==> forall|j: int|
            0 <= j < i && #[trigger] heads[j] is Some ==> lex_le(
                (heads[pick_min(heads, i)]->0).0,
                (heads[j]->0).0,
            ),
    decreases i,
{
    if i > 0 {
        lemma_pick_min_least(heads, i - 1);
        lemma_pick_min_range(heads, i - 1);
        let b = pick_min(heads, i - 1);
        if let Some(h) = heads[i - 1] {
            crate::row_key::lemma_lex_irrefl(h.0);
            if b >= 0 {
                lemma_lex_total(h.0, (heads[b]->0).0);
                lemma_lex_asym(h.0, (heads[b]->0).0);
                if lex_lt(h.0, (heads[b]->0).0) {
                    assert forall|j: int| 0 <= j < i && #[trigger] heads[j] is Some implies lex_le(
                        h.0,
                        (heads[j]->0).0,
                    ) by {
                        if j < i - 1 {
                            lemma_lex_total((heads[b]->0).0, (heads[j]->0).0);
                            if lex_lt((heads[j]->0).0, h.0) {
                                lemma_lex_trans((heads[j]->0).0, h.0, (heads[b]->0).0);
                                lemma_lex_asym((heads[b]->0).0, (heads[j]->0).0);
                            }
                        } else {
                            crate::row_key::lemma_lex_irrefl(h.0);
                        }
                    }
                }
            }
        }
    }
}

/// The head `pick_min` selects has a key strictly below that of every head
/// before it: among equal smallest keys, the lowest index wins.
proof fn lemma_pick_min_first<V>(heads: Seq<Option<(Seq<u8>, V)>>, i: int)
    requires
        0 <= i <= heads.len(),
    ensures
        pick_min(heads, i) >= 0 ==> forall|j: int|
            0 <= j < pick_min(heads, i) && #[trigger] heads[j] is Some ==> lex_lt(
                (heads[pick_min(heads, i)]->0).0,
                (heads[j]->0).0,
            ),
    decreases i,
{
    if i > 0 {
        lemma_pick_min_first(heads, i - 1);
        lemma_pick_min_least(heads, i - 1);
        lemma_pick_min_range(heads, i - 1);
        let b = pick_min(heads, i - 1);
        if pick_min(heads, i) == i - 1 {
            let h = (heads[i - 1]->0).0;
            assert forall|j: int| 0 <= j < i - 1 && #[trigger] heads[j] is Some implies lex_lt(
                h,
                (heads[j]->0).0,
            ) by {
                let hb = (heads[b]->0).0;
                let hj = (heads[j]->0).0;
                crate::row_key::lemma_lex_total(hb, hj);
                if lex_lt(hb, hj) {
                    crate::row_key::lemma_lex_trans(h, hb, hj);
                }
            }
        }
    }
}

/// Newer inputs first: when every item of input `l` carries the tag `l`
/// and each input is sorted by key, a forward k-way merge yields, among
/// items with equal keys, those of lower-numbered inputs first.
pub proof fn lemma_kmerge_fwd_newest_first<V>(rests: Seq<Seq<(Seq<u8>, (nat, V))>>)
    requires
        forall|l: int| 0 <= l < rests.len() ==> sorted(keys_of(#[trigger] rests[l])),
        forall|l: int, i: int|
            0 <= l < rests.len() && 0 <= i < rests[l].len() ==> (#[trigger] rests[l][i]).1.0 == l,
    ensures
        forall|i: int, j: int|
            0 <= i < j < kmerge_fwd(rests).len() && (#[trigger] kmerge_fwd(rests)[i]).0 == (
            #[trigger] kmerge_fwd(rests)[j]).0 ==> kmerge_fwd(rests)[i].1.0 <= kmerge_fwd(
                rests,
            )[j].1.0,
    decreases total_items(rests),
{
    broadcast use vstd::seq_lib::group_to_multiset_ensures;

    let heads = heads_of(rests);
    lemma_pick_min_range(heads, rests.len() as int);
    let m = pick_min(heads, rests.len() as int);
    if !(m < 0 || m >= rests.len() || rests[m].len() == 0) {
        let h = rests[m][0];
        let r2 = rests.update(m, rests[m].drop_first());
        lemma_total_update(rests, m, rests[m].drop_first());
        assert forall|l: int| 0 <= l < r2.len() implies sorted(keys_of(#[trigger] r2[l])) by {
            if l == m {
                assert(keys_of(r2[l]) =~= keys_of(rests[m]).drop_first());
            }
        }
        assert forall|l: int, i: int| 0 <= l < r2.len() && 0 <= i < r2[l].len() implies (
        #[trigger] r2[l][i]).1.0 == l by {
            if l == m {
                assert(r2[l][i] == rests[m][i + 1]);
            }
        }
        lemma_kmerge_fwd_newest_first(r2);
        let tl = kmerge_fwd(r2);
        let out = kmerge_fwd(rests);
        assert(out == seq![h] + tl);
        lemma_kmerge_fwd_items(r2);
        lemma_pick_min_first(heads, rests.len() as int);
        assert forall|i: int, j: int|
            0 <= i < j < out.len() && (#[trigger] out[i]).0 == (#[trigger] out[j]).0 implies out[i].1.0
            <= out[j].1.0 by {
            if i > 0 {
                assert(out[i] == tl[i - 1]);
                assert(out[j] == tl[j - 1]);
            } else {
                let y = tl[j - 1];
                assert(out[j] == y);
                assert(tl.contains(y));
                assert(tl.to_multiset().count(y) > 0);
                lemma_items_ms_member(r2, y);
                let l = choose|l: int| 0 <= l < r2.len() && #[trigger] r2[l].contains(y);
                let p = choose|p: int| 0 <= p < r2[l].len() && r2[l][p] == y;
                assert(y.1.0 == l);
                if l < m {
                    assert(r2[l] == rests[l]);
                    assert(heads[l] is Some);
                    assert(lex_lt(h.0, rests[l][0].0));
                    if p > 0 {
                        assert(keys_of(rests[l])[0] == rests[l][0].0);
                        assert(keys_of(rests[l])[p] == y.0);
                        assert(lex_le(rests[l][0].0, y.0));
                        crate::row_key::lemma_lex_total(rests[l][0].0, y.0);
                        if lex_lt(rests[l][0].0, y.0) {
                            crate::row_key::lemma_lex_trans(h.0, rests[l][0].0, y.0);
                        }
                    }
                    crate::row_key::lemma_lex_irrefl(h.0);
                }
            }
        }
    }
}

/// For inputs each sorted by key, a forward k-way merge is sorted by key.
pub proof fn lemma_kmerge_fwd_sorted<V>(rests: Seq<Seq<(Seq<u8>, V)>>)
    requires
        forall|l: int| 0 <= l < rests.len() ==> sorted(keys_of(#[trigger] rests[l])),
    ensures
        sorted(keys_of(kmerge_fwd(rests))),
    decreases total_items(rests),
{
    broadcast use vstd::seq_lib::group_to_multiset_ensures;

    let heads = heads_of(rests);
    lemma_pick_min_range(heads, rests.len() as int);
    let m = pick_min(heads, rests.len() as int);
    if m < 0 || m >= rests.len() || rests[m].len() == 0 {
        assert(keys_of(kmerge_fwd(rests)) =~= Seq::<Seq<u8>>::empty());
    } else {
        let h = rests[m][0];
        let s = rests[m].drop_first();
        let u = rests.update(m, s);
        lemma_total_update(rests, m, s);
        assert forall|l: int| 0 <= l < u.len() implies sorted(keys_of(#[trigger] u[l])) by {
            if l == m {
                assert forall|i: int, j: int| 0 <= i < j < keys_of(s).len() implies lex_le(
                    #[trigger] keys_of(s)[i],
                    #[trigger] keys_of(s)[j],
                ) by {
                    assert(keys_of(s)[i] == keys_of(rests[m])[i + 1]);
                    assert(keys_of(s)[j] == keys_of(rests[m])[j + 1]);
                }
            }
        }
        lemma_kmerge_fwd_sorted(u);
        lemma_kmerge_fwd_items(u);
        lemma_pick_min_least(heads, rests.len() as int);
        let k = kmerge_fwd(u);
        // every later item has a key no smaller than the picked head's
        assert forall|x: (Seq<u8>, V)| k.contains(x) implies lex_le(h.0, x.0) by {
            assert(k.to_multiset().count(x) > 0);
            lemma_items_ms_member(u, x);
            let l = choose|l: int| 0 <= l < u.len() && #[trigger] u[l].contains(x);
            let i = choose|i: int| 0 <= i < u[l].len() && u[l][i] == x;
            if l == m {
                assert(rests[m][i + 1] == x);
                assert(keys_of(rests[m])[0] == h.0);
                assert(keys_of(rests[m])[i + 1] == x.0);
            } else {
                assert(heads[l] is Some);
                assert(lex_le(h.0, rests[l][0].0));
                if i > 0 {
                    assert(keys_of(rests[l])[0] == rests[l][0].0);
                    assert(keys_of(rests[l])[i] == x.0);
                    lemma_lex_total(rests[l][0].0, x.0);
                    lemma_lex_total(h.0, rests[l][0].0);
                    if lex_lt(x.0, h.0) {
                        if lex_lt(h.0, rests[l][0].0) {
                            lemma_lex_trans(x.0, h.0, rests[l][0].0);
                            lemma_lex_asym(x.0, rests[l][0].0);
                        }
                    }
                }
            }
        }
        let r = seq![h] + k;
        assert(kmerge_fwd(rests) == r);
        assert forall|i: int, j: int| 0 <= i < j < keys_of(r).len() implies lex_le(
            #[trigger] keys_of(r)[i],
            #[trigger] keys_of(r)[j],
        ) by {
            assert(r[j] == k[j - 1]);
            assert(k.contains(k[j - 1]));
            if i > 0 {
                assert(r[i] == k[i - 1]);
                assert(keys_of(k)[i - 1] == k[i - 1].0);
                assert(keys_of(k)[j - 1] == k[j - 1].0);
            }
        }
    }
}

/// Keys in descending order (repetitions allowed).
pub open spec fn sorted_desc(s: Seq<Seq<u8>>) -> bool {
    forall|i: int, j: int| 0 <= i < j < s.len() ==> lex_le(#[trigger] s[j], #[trigger] s[i])
}

/// A backward k-way merge yields every item of every input, each as often
/// as the inputs hold it.
pub proof fn lemma_kmerge_rev_items<V>(rests: Seq<Seq<(Seq<u8>, V)>>)
    ensures
        kmerge_rev(rests).to_multiset() == items_ms(rests),
    decreases total_items(rests),
{
    broadcast use vstd::seq_lib::group_to_multiset_ensures;
    broadcast use vstd::multiset::group_multiset_axioms;

    let heads = heads_of(rests);
    lemma_pick_max_range(heads, rests.len() as int);
    let m = pick_max(heads, rests.len() as int);
    if m < 0 || m >= rests.len() || rests[m].len() == 0 {
        assert forall|l: int| 0 <= l < rests.len() implies #[trigger] rests[l].len() == 0 by {
            assert(heads[l] is None);
        }
        lemma_items_ms_empty(rests);
        assert(kmerge_rev(rests).to_multiset() =~= Multiset::<(Seq<u8>, V)>::empty());
    } else {
        let h = rests[m][0];
        let s = rests[m].drop_first();
        let u = rests.update(m, s);
        lemma_total_update(rests, m, s);
        lemma_kmerge_rev_items(u);
        lemma_items_ms_update(rests, m, s);
        vstd::seq_lib::lemma_multiset_commutative(seq![h], kmerge_rev(u));
        vstd::seq_lib::lemma_multiset_commutative(seq![h], s);
        assert(rests[m] =~= seq![h] + s);
        assert(seq![h].to_multiset() =~= Multiset::singleton(h)) by {
            assert(seq![h] =~= Seq::<(Seq<u8>, V)>::empty().push(h));
        }
        assert(kmerge_rev(rests) == seq![h] + kmerge_rev(u));
        let hm = Multiset::singleton(h);
        assert(rests[m].to_multiset() == hm.add(s.to_multiset()));
        let lhs = items_ms(u).add(hm.add(s.to_multiset()));
        let rhs = items_ms(rests).add(s.to_multiset());
        assert(lhs == rhs);
        assert forall|x: (Seq<u8>, V)| #[trigger] items_ms(u).add(hm).count(x) == items_ms(
            rests,
        ).count(x) by {
            assert(lhs.count(x) == rhs.count(x));
        }
        assert(items_ms(u).add(hm) =~= items_ms(rests));
        assert(kmerge_rev(rests).to_multiset() =~= items_ms(rests));
    }
}

/// The head `pick_max` selects has a key no smaller than every head's.
proof fn lemma_pick_max_greatest<V>(heads: Seq<Option<(Seq<u8>, V)>>, i: int)
    requires
        0 <= i <= heads.len(),
    ensures
        pick_max(heads, i) >= 0 ==> forall|j: int|
            0 <= j < i && #[trigger] heads[j] is Some ==> lex_le(
                (heads[j]->0).0,
                (heads[pick_max(heads, i)]->0).0,
            ),
    decreases i,
{
    if i > 0 {
        lemma_pick_max_greatest(heads, i - 1);
        lemma_pick_max_range(heads, i - 1);
        let b = pick_max(heads, i - 1);
        if let Some(h) = heads[i - 1] {
            crate::row_key::lemma_lex_irrefl(h.0);
            if b >= 0 && lex_lt((heads[b]->0).0, h.0) {
                assert forall|j: int| 0 <= j < i && #[trigger] heads[j] is Some implies lex_le(
                    (heads[j]->0).0,
                    h.0,
                ) by {
                    if j < i - 1 {
                        lemma_lex_total((heads[b]->0).0, (heads[j]->0).0);
                        if lex_lt(h.0, (heads[j]->0).0) {
                            lemma_lex_trans((heads[b]->0).0, h.0, (heads[j]->0).0);
                            lemma_lex_asym((heads[b]->0).0, (heads[j]->0).0);
                        }
                    }
                }
            }
        }
    }
}

/// The head `pick_max` selects has a key strictly above that of every head
/// before it: among equal largest keys, the lowest index wins.
proof fn lemma_pick_max_first<V>(heads: Seq<Option<(Seq<u8>, V)>>, i: int)
    requires
        0 <= i <= heads.len(),
    ensures
        pick_max(heads, i) >= 0 ==> forall|j: int|
            0 <= j < pick_max(heads, i) && #[trigger] heads[j] is Some ==> lex_lt(
                (heads[j]->0).0,
                (heads[pick_max(heads, i)]->0).0,
            ),
    decreases i,
{
    if i > 0 {
        lemma_pick_max_first(heads, i - 1);
        lemma_pick_max_greatest(heads, i - 1);
        lemma_pick_max_range(heads, i - 1);
        let b = pick_max(heads, i - 1);
        if pick_max(heads, i) == i - 1 {
            let h = (heads[i - 1]->0).0;
            assert forall|j: int| 0 <= j < i - 1 && #[trigger] heads[j] is Some implies lex_lt(
                (heads[j]->0).0,
                h,
            ) by {
                let hb = (heads[b]->0).0;
                let hj = (heads[j]->0).0;
                lemma_lex_total(hb, hj);
                if lex_lt(hj, hb) {
                    lemma_lex_trans(hj, hb, h);
                }
            }
        }
    }
}

/// For inputs each in descending key order, a backward k-way merge is in
/// descending key order.
pub proof fn lemma_kmerge_rev_sorted<V>(rests: Seq<Seq<(Seq<u8>, V)>>)
    requires
        forall|l: int| 0 <= l < rests.len() ==> sorted_desc(keys_of(#[trigger] rests[l])),
    ensures
        sorted_desc(keys_of(kmerge_rev(rests))),
    decreases total_items(rests),
{
    broadcast use vstd::seq_lib::group_to_multiset_ensures;

    let heads = heads_of(rests);
    lemma_pick_max_range(heads, rests.len() as int);
    let m = pick_max(heads, rests.len() as int);
    if m < 0 || m >= rests.len() || rests[m].len() == 0 {
        assert(keys_of(kmerge_rev(rests)) =~= Seq::<Seq<u8>>::empty());
    } else {
        let h = rests[m][0];
        let s = rests[m].drop_first();
        let u = rests.update(m, s);
        lemma_total_update(rests, m, s);
        assert forall|l: int| 0 <= l < u.len() implies sorted_desc(keys_of(#[trigger] u[l])) by {
            if l == m {
                assert forall|i: int, j: int| 0 <= i < j < keys_of(s).len() implies lex_le(
                    #[trigger] keys_of(s)[j],
                    #[trigger] keys_of(s)[i],
                ) by {
                    assert(keys_of(s)[i] == keys_of(rests[m])[i + 1]);
                    assert(keys_of(s)[j] == keys_of(rests[m])[j + 1]);
                }
            }
        }
        lemma_kmerge_rev_sorted(u);
        lemma_kmerge_rev_items(u);
        lemma_pick_max_greatest(heads, rests.len() as int);
        let k = kmerge_rev(u);
        assert forall|x: (Seq<u8>, V)| k.contains(x) implies lex_le(x.0, h.0) by {
            assert(k.to_multiset().count(x) > 0);
            lemma_items_ms_member(u, x);
            let l = choose|l: int| 0 <= l < u.len() && #[trigger] u[l].contains(x);
            let i = choose|i: int| 0 <= i < u[l].len() && u[l][i] == x;
            if l == m {
                assert(rests[m][i + 1] == x);
                assert(keys_of(rests[m])[0] == h.0);
                assert(keys_of(rests[m])[i + 1] == x.0);
            } else {
                assert(heads[l] is Some);
                assert(lex_le(rests[l][0].0, h.0));
                if i > 0 {
                    assert(keys_of(rests[l])[0] == rests[l][0].0);
                    assert(keys_of(rests[l])[i] == x.0);
                    lemma_lex_total(rests[l][0].0, x.0);
                    lemma_lex_total(h.0, rests[l][0].0);
                    if lex_lt(h.0, x.0) {
                        if lex_lt(rests[l][0].0, h.0) {
                            lemma_lex_trans(rests[l][0].0, h.0, x.0);
                            lemma_lex_asym(x.0, rests[l][0].0);
                        }
                    }
                }
            }
        }
        let r = seq![h] + k;
        assert(kmerge_rev(rests) == r);
        assert forall|i: int, j: int| 0 <= i < j < keys_of(r).len() implies lex_le(
            #[trigger] keys_of(r)[j],
            #[trigger] keys_of(r)[i],
        ) by {
            assert(r[j] == k[j - 1]);
            assert(k.contains(k[j - 1]));
            if i > 0 {
                assert(r[i] == k[i - 1]);
                assert(keys_of(k)[i - 1] == k[i - 1].0);
                assert(keys_of(k)[j - 1] == k[j - 1].0);
            }
        }
    }
}

/// Newer inputs first, backward too: when every item of input `l` carries
/// the tag `l` and each input is in descending key order, a backward k-way
/// merge yields, among items with equal keys, those of lower-numbered
/// inputs first.
pub proof fn lemma_kmerge_rev_newest_first<V>(rests: Seq<Seq<(Seq<u8>, (nat, V))>>)
    requires
        forall|l: int| 0 <= l < rests.len() ==> sorted_desc(keys_of(#[trigger] rests[l])),
        forall|l: int, i: int|
            0 <= l < rests.len() && 0 <= i < rests[l].len() ==> (#[trigger] rests[l][i]).1.0 == l,
    ensures
        forall|i: int, j: int|
            0 <= i < j < kmerge_rev(rests).len() && (#[trigger] kmerge_rev(rests)[i]).0 == (
            #[trigger] kmerge_rev(rests)[j]).0 ==> kmerge_rev(rests)[i].1.0 <= kmerge_rev(
                rests,
            )[j].1.0,
    decreases total_items(rests),
{
    broadcast use vstd::seq_lib::group_to_multiset_ensures;

    let heads = heads_of(rests);
    lemma_pick_max_range(heads, rests.len() as int);
    let m = pick_max(heads, rests.len() as int);
    if !(m < 0 || m >= rests.len() || rests[m].len() == 0) {
        let h = rests[m][0];
        let r2 = rests.update(m, rests[m].drop_first());
        lemma_total_update(rests, m, rests[m].drop_first());
        assert forall|l: int| 0 <= l < r2.len() implies sorted_desc(keys_of(#[trigger] r2[l])) by {
            if l == m {
                assert(keys_of(r2[l]) =~= keys_of(rests[m]).drop_first());
            }
        }
        assert forall|l: int, i: int| 0 <= l < r2.len() && 0 <= i < r2[l].len() implies (
        #[trigger] r2[l][i]).1.0 == l by {
            if l == m {
                assert(r2[l][i] == rests[m][i + 1]);
            }
        }
        lemma_kmerge_rev_newest_first(r2);
        let tl = kmerge_rev(r2);
        let out = kmerge_rev(rests);
        assert(out == seq![h] + tl);
        lemma_kmerge_rev_items(r2);
        lemma_pick_max_first(heads, rests.len() as int);
        assert forall|i: int, j: int|
            0 <= i < j < out.len() && (#[trigger] out[i]).0 == (#[trigger] out[j]).0 implies out[i].1.0
            <= out[j].1.0 by {
            if i > 0 {
                assert(out[i] == tl[i - 1]);
                assert(out[j] == tl[j - 1]);
            } else {
                let y = tl[j - 1];
                assert(out[j] == y);
                assert(tl.contains(y));
                assert(tl.to_multiset().count(y) > 0);
                lemma_items_ms_member(r2, y);
                let l = choose|l: int| 0 <= l < r2.len() && #[trigger] r2[l].contains(y);
                let p = choose|p: int| 0 <= p < r2[l].len() && r2[l][p] == y;
                assert(y.1.0 == l);
                if l < m {
                    assert(r2[l] == rests[l]);
                    assert(heads[l] is Some);
                    assert(lex_lt(rests[l][0].0, h.0));
                    if p > 0 {
                        assert(keys_of(rests[l])[0] == rests[l][0].0);
                        assert(keys_of(rests[l])[p] == y.0);
                        assert(lex_le(y.0, rests[l][0].0));
                        lemma_lex_total(rests[l][0].0, y.0);
                        if lex_lt(y.0, rests[l][0].0) {
                            lemma_lex_trans(y.0, rests[l][0].0, h.0);
                        }
                    }
                    crate::row_key::lemma_lex_irrefl(h.0);
                }
            }
        }
    }
}

/// `s[p]` is the first item of `s` with key `k`.
pub open spec fn first_with_key<V>(s: Seq<(Seq<u8>, V)>, k: Seq<u8>, p: int) -> bool {
    &&& 0 <= p < s.len()
    &&& s[p].0 == k
    &&& forall|j: int| 0 <= j < p ==> (#[trigger] s[j]).0 != k
}

/// Newest source first, for one key: when input `l` is the lowest-numbered
/// input holding key `k`, and its first item with that key is `rests[l][p]`,
/// a forward k-way merge of inputs each sorted by key yields that item
/// before any other item with key `k`.
pub proof fn lemma_kmerge_fwd_first_of_newest<V>(rests: Seq<Seq<(Seq<u8>, V)>>, l: int, p: int, k: Seq<u8>)
    requires
        forall|i: int| 0 <= i < rests.len() ==> sorted(keys_of(#[trigger] rests[i])),
        0 <= l < rests.len(),
        first_with_key(rests[l], k, p),
        forall|i: int| 0 <= i < l ==> !keys_of(#[trigger] rests[i]).contains(k),
    ensures
        exists|n: int| first_with_key(kmerge_fwd(rests), k, n) && kmerge_fwd(rests)[n] == rests[l][p],
    decreases total_items(rests),
{
    let heads = heads_of(rests);
    lemma_pick_min_range(heads, rests.len() as int);
    let m = pick_min(heads, rests.len() as int);
    assert(heads[l] is Some);
    let h = rests[m][0];
    let out = kmerge_fwd(rests);
    let r2 = rests.update(m, rests[m].drop_first());
    lemma_total_update(rests, m, rests[m].drop_first());
    let tl = kmerge_fwd(r2);
    assert(out == seq![h] + tl);
    // the head of input `l` is no later than its item with key `k`
    assert(!lex_lt(k, rests[l][0].0)) by {
        if p > 0 {
            assert(keys_of(rests[l])[0] == rests[l][0].0);
            assert(keys_of(rests[l])[p] == k);
            lemma_lex_asym(k, rests[l][0].0);
        } else {
            crate::row_key::lemma_lex_irrefl(k);
        }
    }
    if h.0 == k {
        if m < l {
            assert(keys_of(rests[m])[0] == k);
            assert(keys_of(rests[m]).contains(k));
        } else if m > l {
            lemma_pick_min_first(heads, rests.len() as int);
            assert(lex_lt(h.0, rests[l][0].0));
        }
        assert(m == l);
        if p > 0 {
            assert(rests[l][0].0 != k);
        }
        assert(first_with_key(out, k, 0));
    } else {
        let p2 = if m == l { p - 1 } else { p };
        if m == l {
            assert(p != 0);
        }
        assert forall|i: int| 0 <= i < r2.len() implies sorted(keys_of(#[trigger] r2[i])) by {
            if i == m {
                assert(keys_of(r2[i]) =~= keys_of(rests[m]).drop_first());
            }
        }
        assert(first_with_key(r2[l], k, p2)) by {
            if m == l {
                assert forall|j: int| 0 <= j < p2 implies (#[trigger] r2[l][j]).0 != k by {
                    assert(r2[l][j] == rests[l][j + 1]);
                }
            }
        }
        assert forall|i: int| 0 <= i < l implies !keys_of(#[trigger] r2[i]).contains(k) by {
            if i == m && keys_of(r2[i]).contains(k) {
                let q = choose|q: int| 0 <= q < keys_of(r2[i]).len() && keys_of(r2[i])[q] == k;
                assert(keys_of(rests[i])[q + 1] == k);
            }
        }
        lemma_kmerge_fwd_first_of_newest(r2, l, p2, k);
        let n = choose|n: int| first_with_key(tl, k, n) && tl[n] == r2[l][p2];
        assert(r2[l][p2] == rests[l][p]);
        assert forall|j: int| 0 <= j < n + 1 implies (#[trigger] out[j]).0 != k by {
            if j > 0 {
                assert(out[j] == tl[j - 1]);
            }
        }
        assert(first_with_key(out, k, n + 1));
    }
}

/// A key a forward k-way merge yields is a key of one of its inputs.
pub proof fn lemma_kmerge_fwd_keys<V>(rests: Seq<Seq<(Seq<u8>, V)>>, k: Seq<u8>)
    ensures
        keys_of(kmerge_fwd(rests)).contains(k) ==> exists|l: int|
            0 <= l < rests.len() && keys_of(#[trigger] rests[l]).contains(k),
{
    broadcast use vstd::seq_lib::group_to_multiset_ensures;

    let out = kmerge_fwd(rests);
    if keys_of(out).contains(k) {
        let q = choose|q: int| 0 <= q < keys_of(out).len() && keys_of(out)[q] == k;
        let x = out[q];
        assert(out.contains(x));
        lemma_kmerge_fwd_items(rests);
        assert(items_ms(rests).count(x) > 0);
        lemma_items_ms_member(rests, x);
        let l = choose|l: int| 0 <= l < rests.len() && #[trigger] rests[l].contains(x);
        let i = choose|i: int| 0 <= i < rests[l].len() && rests[l][i] == x;
        assert(keys_of(rests[l])[i] == k);
    }
}

} // verus!
