//! An iterator over an in-memory sorted list of entries.

use vstd::prelude::*;
use crate::errors::StorageResult;
use crate::iterators::raw_entry::RawEntry;
use crate::iterators::storage_iter::{
    fwd_rest_at, keys_of, leaf_fwd_seek, leaf_rev_seek, lemma_fwd_step,
    lemma_lower_bound_range, lemma_rev_step, lemma_upper_bound_range, lower_bound, rev_rest_at,
    upper_bound, ForwardIter, IterBase, IterRead, ReverseIter,
};
use crate::row_key::{bytes_le, bytes_lt};

verus! {

/// Iterator over `(key, value)` pairs held in a vector, in vector order.
pub struct VecIter {
    data: Vec<(Vec<u8>, Vec<u8>)>,
    pos: Option<usize>,
}

/// The entries of a vector of pairs.
pub open spec fn pairs_view(data: Seq<(Vec<u8>, Vec<u8>)>) -> Seq<(Seq<u8>, Seq<u8>)> {
    Seq::new(data.len(), |i: int| (data[i].0@, data[i].1@))
}

impl VecIter {
    pub closed spec fn items(&self) -> Seq<(Seq<u8>, Seq<u8>)> {
        pairs_view(self.data@)
    }

    pub closed spec fn cursor(&self) -> Option<int> {
        match self.pos {
            Some(i) => Some(i as int),
            None => None,
        }
    }

    /// What the iterator yields: a forward scan gives the items in vector
    /// order, a backward scan in reverse order; seeks land on the lower
    /// (forward) or upper (backward) bound of the target among the keys;
    /// the current item is the one at the cursor.
    pub proof fn lemma_model(&self)
        ensures
            self.fwd_all() == self.items(),
            self.rev_all() == self.items().reverse(),
            forall|t: Seq<u8>| #[trigger] self.fwd_seek_rest(t) == leaf_fwd_seek(self.items(), t),
            forall|t: Seq<u8>| #[trigger] self.rev_seek_rest(t) == leaf_rev_seek(self.items(), t),
            self.fwd_rest() == fwd_rest_at(self.items(), self.cursor()),
            self.rev_rest() == rev_rest_at(self.items(), self.cursor()),
            self.current() == (match self.cursor() {
                Some(i) => Some(self.items()[i]),
                None => None,
            }),
    {
    }

    /// A new, unpositioned iterator over `data`.
    pub fn new(data: Vec<(Vec<u8>, Vec<u8>)>) -> (it: VecIter)
        ensures
            it.items() == pairs_view(data@),
            it.cursor() is None,
            it.wf(),
    {
        VecIter { data, pos: None }
    }

    fn key_at(&self, i: usize) -> (k: &[u8])
        requires
            i < self.data@.len(),
        ensures
            k@ == keys_of(self.items())[i as int],
    {
        self.data[i].0.as_slice()
    }

    /// Bisection for the first key not below `target`.
    fn lower(&self, target: &[u8]) -> (l: usize)
        ensures
            l == lower_bound(keys_of(self.items()), target@, 0, self.items().len() as int),
            l <= self.items().len(),
    {
        let n = self.data.len();
        let ghost keys = keys_of(self.items());
        let mut lo: usize = 0;
        let mut hi: usize = n;
        proof {
            lemma_lower_bound_range(keys, target@, 0, n as int);
        }
        while lo < hi
            invariant
                lo <= hi <= n,
                n == self.data@.len(),
                keys == keys_of(self.items()),
                lower_bound(keys, target@, lo as int, hi as int) == lower_bound(
                    keys,
                    target@,
                    0,
                    n as int,
                ),
            decreases hi - lo,
        {
            let mid = lo + (hi - lo) / 2;
            if bytes_lt(self.key_at(mid), target) {
                lo = mid + 1;
            } else {
                hi = mid;
            }
        }
        lo
    }

    /// Bisection for the first key above `target`.
    fn upper(&self, target: &[u8]) -> (u: usize)
        ensures
            u == upper_bound(keys_of(self.items()), target@, 0, self.items().len() as int),
            u <= self.items().len(),
    {
        let n = self.data.len();
        let ghost keys = keys_of(self.items());
        let mut lo: usize = 0;
        let mut hi: usize = n;
        proof {
            lemma_upper_bound_range(keys, target@, 0, n as int);
        }
        while lo < hi
            invariant
                lo <= hi <= n,
                n == self.data@.len(),
                keys == keys_of(self.items()),
                upper_bound(keys, target@, lo as int, hi as int) == upper_bound(
                    keys,
                    target@,
                    0,
                    n as int,
                ),
            decreases hi - lo,
        {
            let mid = lo + (hi - lo) / 2;
            if bytes_le(self.key_at(mid), target) {
                lo = mid + 1;
            } else {
                hi = mid;
            }
        }
        lo
    }
}

impl IterBase for VecIter {
    type Value = RawEntry;
}

impl IterRead for VecIter {
    closed spec fn wf(&self) -> bool {
        self.pos matches Some(i) ==> i < self.data@.len()
    }

    closed spec fn current(&self) -> Option<(Seq<u8>, Seq<u8>)> {
        match self.pos {
            Some(i) => Some(self.items()[i as int]),
            None => None,
        }
    }

    open spec fn ready(&self) -> bool {
        true
    }

    fn valid(&self) -> (b: bool) {
        self.pos.is_some()
    }

    fn key(&self) -> (k: Option<&[u8]>) {
        match self.pos {
            Some(i) => Some(self.data[i].0.as_slice()),
            None => None,
        }
    }

    fn value(&self) -> (v: Option<RawEntry>) {
        match self.pos {
            Some(i) => Some(RawEntry::from_slice(self.data[i].1.as_slice())),
            None => None,
        }
    }
}

impl ForwardIter for VecIter {
    closed spec fn fwd_all(&self) -> Seq<(Seq<u8>, Seq<u8>)> {
        self.items()
    }

    closed spec fn fwd_rest(&self) -> Seq<(Seq<u8>, Seq<u8>)> {
        fwd_rest_at(self.items(), self.cursor())
    }

    closed spec fn fwd_seek_rest(&self, target: Seq<u8>) -> Seq<(Seq<u8>, Seq<u8>)> {
        leaf_fwd_seek(self.items(), target)
    }

    open spec fn fwd_mode(&self) -> bool {
        true
    }

    open spec fn fwd_faultless(&self) -> bool {
        true
    }

    proof fn lemma_fwd_head(&self) {
    }

    fn seek_to_first(&mut self) -> (r: StorageResult<()>) {
        self.pos = if self.data.len() > 0 {
            Some(0)
        } else {
            None
        };
        assert(self.items().skip(0) =~= self.items());
        Ok(())
    }

    fn seek(&mut self, target: &[u8]) -> (r: StorageResult<()>) {
        let l = self.lower(target);
        self.pos = if l < self.data.len() {
            Some(l)
        } else {
            None
        };
        proof {
            if l == self.data@.len() {
                assert(self.items().skip(l as int) =~= Seq::<(Seq<u8>, Seq<u8>)>::empty());
            }
        }
        Ok(())
    }

    fn next(&mut self) -> (r: StorageResult<()>) {
        let n = self.data.len();
        if let Some(i) = self.pos {
            proof {
                lemma_fwd_step(self.items(), i as int);
            }
            self.pos = if i + 1 < n {
                Some(i + 1)
            } else {
                None
            };
        }
        Ok(())
    }
}

impl ReverseIter for VecIter {
    closed spec fn rev_all(&self) -> Seq<(Seq<u8>, Seq<u8>)> {
        self.items().reverse()
    }

    closed spec fn rev_rest(&self) -> Seq<(Seq<u8>, Seq<u8>)> {
        rev_rest_at(self.items(), self.cursor())
    }

    closed spec fn rev_seek_rest(&self, target: Seq<u8>) -> Seq<(Seq<u8>, Seq<u8>)> {
        leaf_rev_seek(self.items(), target)
    }

    open spec fn rev_mode(&self) -> bool {
        true
    }

    open spec fn rev_faultless(&self) -> bool {
        true
    }

    proof fn lemma_rev_head(&self) {
    }

    fn seek_to_first(&mut self) -> (r: StorageResult<()>) {
        let n = self.data.len();
        self.pos = if n > 0 {
            Some(n - 1)
        } else {
            None
        };
        proof {
            assert(self.items().take(n as int) =~= self.items());
            if n == 0 {
                assert(self.items().reverse() =~= Seq::<(Seq<u8>, Seq<u8>)>::empty());
            }
        }
        Ok(())
    }

    fn seek(&mut self, target: &[u8]) -> (r: StorageResult<()>) {
        let u = self.upper(target);
        self.pos = if u > 0 {
            Some(u - 1)
        } else {
            None
        };
        proof {
            if u == 0 {
                assert(self.items().take(0).reverse() =~= Seq::<(Seq<u8>, Seq<u8>)>::empty());
            }
        }
        Ok(())
    }

    fn next(&mut self) -> (r: StorageResult<()>) {
        if let Some(i) = self.pos {
            proof {
                lemma_rev_step(self.items(), i as int);
            }
            self.pos = if i > 0 {
                Some(i - 1)
            } else {
                None
            };
        }
        Ok(())
    }
}

} // verus!
