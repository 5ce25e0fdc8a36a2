//! Iterator over the entries of one block (data or index layout).

use vstd::prelude::*;
use vstd::slice::slice_subrange;
use bytes::Bytes;
use crate::buf::{bytes_as_slice, bytes_view};
use crate::codec::read_u32_be;
use crate::errors::{StorageError, StorageResult};
use crate::format::{
    block_header_fits, block_count, block_items, block_key, block_key_off, block_val, block_val_off, block_wf,
    field_u32, lemma_block_ranges,
};
use crate::iterators::raw_entry::RawEntry;
use crate::iterators::storage_iter::{
    fwd_rest_at, keys_of, leaf_fwd_seek, leaf_rev_seek, lemma_fwd_step,
    lemma_lower_bound_range, lemma_rev_step, lemma_upper_bound_range, lower_bound, rev_rest_at,
    upper_bound, ForwardIter, IterBase, IterRead, ReverseIter,
};
use crate::row_key::{bytes_le, bytes_lt};

verus! {

/// Whether the header of `b` and every key and value range it names lie
/// inside `b`.
fn block_ranges_fit(b: &[u8]) -> (ok: bool)
    ensures
        ok == block_wf(b@),
{
    let len = b.len();
    if len < 4 {
        return false;
    }
    let count = read_u32_be(b, 0) as u64;
    assert(count == block_count(b@));
    if 4 + (count + 1) * 8 > len as u64 {
        return false;
    }
    let n = count as usize;
    let vt: usize = 4 + 4 * (n + 1);
    let mut i: usize = 0;
    while i < n
        invariant
            n == block_count(b@),
            4 + (n + 1) * 8 <= len,
            len == b@.len(),
            vt == 4 + 4 * (n + 1),
            i <= n,
            forall|j: int| 0 <= j < i ==> #[trigger] block_key_off(b@, j) <= block_key_off(b@, j + 1),
            forall|j: int| 0 <= j < i ==> #[trigger] block_val_off(b@, j) <= block_val_off(b@, j + 1),
        decreases n - i,
    {
        let k0 = read_u32_be(b, 4 + 4 * i);
        let k1 = read_u32_be(b, 4 + 4 * (i + 1));
        assert(k0 == block_key_off(b@, i as int));
        assert(k1 == block_key_off(b@, i + 1));
        if k0 > k1 {
            return false;
        }
        let v0 = read_u32_be(b, vt + 4 * i);
        let v1 = read_u32_be(b, vt + 4 * (i + 1));
        assert(v0 == block_val_off(b@, i as int));
        assert(v1 == block_val_off(b@, i + 1));
        if v0 > v1 {
            return false;
        }
        i = i + 1;
    }
    let ks = read_u32_be(b, 4 + 4 * n);
    let vs = read_u32_be(b, vt + 4 * n);
    assert(ks == block_key_off(b@, n as int));
    assert(vs == block_val_off(b@, n as int));
    (ks as usize) <= len && (vs as usize) <= len
}

/// The entries of block `b` can be read: it has none, or every key and
/// value range its header names lies inside it.
#[verifier::opaque]
pub open spec fn entries_readable(b: Seq<u8>) -> bool {
    block_count(b) == 0 || block_wf(b)
}

/// The entries an iterator over block `b` yields: the block's entries when
/// every range lies inside it, else none (positioning such a block fails).
#[verifier::opaque]
pub open spec fn readable_items(b: Seq<u8>) -> Seq<(Seq<u8>, Seq<u8>)> {
    if block_wf(b) {
        block_items(b)
    } else {
        Seq::empty()
    }
}

/// A well-formed block yields its entries.
pub proof fn lemma_wf_items(b: Seq<u8>)
    requires
        block_wf(b),
    ensures
        readable_items(b) == block_items(b),
        entries_readable(b),
{
    reveal(readable_items);
    reveal(entries_readable);
}

/// What an iterator over block `b` yields, and when its entries can be
/// read: a well-formed block yields its entries; a block with entries
/// yields some only when it is well formed.
pub proof fn lemma_readable_items(b: Seq<u8>)
    ensures
        readable_items(b) == (if block_wf(b) {
            block_items(b)
        } else {
            Seq::<(Seq<u8>, Seq<u8>)>::empty()
        }),
        entries_readable(b) == (block_count(b) == 0 || block_wf(b)),
        block_wf(b) ==> readable_items(b) == block_items(b) && entries_readable(b),
        readable_items(b).len() > 0 ==> block_wf(b) && entries_readable(b),
{
    reveal(readable_items);
    reveal(entries_readable);
}

/// Iterator over a block laid out as in [`crate::format`]. The header is
/// parsed once, into the two offset tables.
pub struct NormalBlockIter {
    block: Bytes,
    key_offsets: Vec<usize>,
    values_offsets: Vec<usize>,
    count: usize,
    /// Every entry range lies inside the block (or it has no entry).
    ranges_ok: bool,
    /// `None`: exhausted or not positioned.
    curr: Option<usize>,
}

/// Reads `n` consecutive 4-byte big-endian offsets starting at byte `start`.
fn read_offsets(buf: &[u8], start: usize, n: usize) -> (v: Vec<usize>)
    requires
        start + 4 * n <= buf@.len(),
    ensures
        v@.len() == n,
        forall|j: int| 0 <= j < n ==> #[trigger] v@[j] == field_u32(buf@, start + 4 * j),
{
    let len = buf.len();
    let mut v: Vec<usize> = Vec::new();
    let mut at: usize = start;
    let mut i: usize = 0;
    while i < n
        invariant
            len == buf@.len(),
            start + 4 * n <= len,
            i <= n,
            at == start + 4 * i,
            v@.len() == i,
            forall|j: int| 0 <= j < i ==> #[trigger] v@[j] == field_u32(buf@, start + 4 * j),
        decreases n - i,
    {
        let off = read_u32_be(buf, at) as usize;
        v.push(off);
        at = at + 4;
        i = i + 1;
    }
    v
}

impl NormalBlockIter {
    /// The block's bytes.
    pub closed spec fn block_bytes(&self) -> Seq<u8> {
        bytes_view(self.block)
    }

    /// The block's `(key, value)` entries, in block order.
    pub open spec fn items(&self) -> Seq<(Seq<u8>, Seq<u8>)> {
        readable_items(self.block_bytes())
    }

    /// Index of the current entry, if any.
    pub closed spec fn cursor(&self) -> Option<int> {
        match self.curr {
            Some(i) => Some(i as int),
            None => None,
        }
    }

    /// The iterator's models in terms of its entries and cursor.
    pub proof fn lemma_model(&self)
        requires
            self.wf(),
        ensures
            self.cursor() matches Some(c) ==> 0 <= c < self.items().len(),
            self.current() == (match self.cursor() {
                Some(c) => Some(self.items()[c]),
                None => None,
            }),
            self.ready(),
            ForwardIter::fwd_mode(self),
            ReverseIter::rev_mode(self),
            self.fwd_all() == self.items(),
            self.fwd_rest() == fwd_rest_at(self.items(), self.cursor()),
            forall|t: Seq<u8>| #[trigger] self.fwd_seek_rest(t) == leaf_fwd_seek(self.items(), t),
            self.rev_all() == self.items().reverse(),
            self.rev_rest() == rev_rest_at(self.items(), self.cursor()),
            forall|t: Seq<u8>| #[trigger] self.rev_seek_rest(t) == leaf_rev_seek(self.items(), t),
    {
        lemma_readable_items(self.block_bytes());
    }

    /// Reads the header of `block`; a block whose header does not fit in
    /// it is refused with `InvalidValue`. The entry ranges are checked
    /// when the block is positioned: positioning a block with an entry
    /// range outside it fails with `InvalidValue`.
    pub fn new(block: Bytes) -> (r: StorageResult<NormalBlockIter>)
        ensures
            r is Ok <==> block_header_fits(bytes_view(block)),
            r is Err ==> r->Err_0 is InvalidValue,
            r matches Ok(it) ==> it.wf() && it.block_bytes() == bytes_view(block) && it.items()
                == readable_items(bytes_view(block)) && it.cursor() is None,
    {
        let buf = bytes_as_slice(&block);
        let len = buf.len();
        if len < 4 {
            return Err(StorageError::InvalidValue("corrupt block: header outside the block".to_owned()));
        }
        let count = read_u32_be(buf, 0) as u64;
        assert(count == block_count(buf@));
        if 4 + (count + 1) * 8 > len as u64 {
            return Err(StorageError::InvalidValue("corrupt block: header outside the block".to_owned()));
        }
        let ranges_ok = count == 0 || block_ranges_fit(buf);
        proof {
            lemma_readable_items(buf@);
        }
        let mut s = NormalBlockIter {
            block,
            key_offsets: Vec::new(),
            values_offsets: Vec::new(),
            curr: None,
            count: 0,
            ranges_ok,
        };
        s.parse_header();
        Ok(s)
    }

    /// Whether the block's header and every entry range lie inside it.
    pub(crate) fn is_well_formed(&self) -> (b: bool)
        ensures
            b == block_wf(self.block_bytes()),
    {
        block_ranges_fit(bytes_as_slice(&self.block))
    }

    fn parse_header(&mut self)
        requires
            block_header_fits(bytes_view(old(self).block)),
            old(self).ranges_ok == entries_readable(bytes_view(old(self).block)),
            old(self).curr is None,
        ensures
            final(self).block == old(self).block,
            final(self).wf(),
            final(self).curr is None,
    {
        proof {
            lemma_readable_items(bytes_view(self.block));
        }
        self.reset();
        let ghost b = bytes_view(self.block);
        let buf = bytes_as_slice(&self.block);
        let len = buf.len();
        let count = read_u32_be(buf, 0) as usize;
        assert(count == block_count(b));
        assert(4 + 8 * (count + 1) <= len);
        let key_offsets = read_offsets(buf, 4, count + 1);
        let values_offsets = read_offsets(buf, 4 + 4 * (count + 1), count + 1);
        assert forall|j: int| 0 <= j <= count implies #[trigger] key_offsets@[j] == block_key_off(
            b,
            j,
        ) by {}
        assert forall|j: int| 0 <= j <= count implies #[trigger] values_offsets@[j]
            == block_val_off(b, j) by {}
        self.key_offsets = key_offsets;
        self.values_offsets = values_offsets;
        self.count = count;
    }

    fn reset(&mut self)
        ensures
            final(self).block == old(self).block,
            final(self).curr is None,
            final(self).key_offsets@.len() == 0,
            final(self).values_offsets@.len() == 0,
            final(self).ranges_ok == old(self).ranges_ok,
    {
        self.curr = None;
        self.key_offsets.clear();
        self.values_offsets.clear();
    }

    /// The number of entries in the block.
    pub(crate) fn entry_count(&self) -> (n: usize)
        requires
            self.wf(),
        ensures
            n == self.items().len(),
    {
        proof {
            lemma_readable_items(bytes_view(self.block));
        }
        if self.ranges_ok {
            self.count
        } else {
            0
        }
    }

    pub(crate) fn key_at(&self, i: usize) -> (k: &[u8])
        requires
            self.wf(),
            i < self.items().len(),
        ensures
            k@ == keys_of(self.items())[i as int],
            k@ == block_key(self.block_bytes(), i as int),
    {
        proof {
            lemma_readable_items(bytes_view(self.block));
        }
        let ghost b = bytes_view(self.block);
        proof {
            lemma_block_ranges(b, i + 1);
        }
        let buf = bytes_as_slice(&self.block);
        slice_subrange(buf, self.key_offsets[i], self.key_offsets[i + 1])
    }

    pub(crate) fn value_at(&self, i: usize) -> (v: &[u8])
        requires
            self.wf(),
            i < self.items().len(),
        ensures
            v@ == self.items()[i as int].1,
            v@ == block_val(self.block_bytes(), i as int),
    {
        proof {
            lemma_readable_items(bytes_view(self.block));
        }
        let ghost b = bytes_view(self.block);
        proof {
            lemma_block_ranges(b, i + 1);
        }
        let buf = bytes_as_slice(&self.block);
        slice_subrange(buf, self.values_offsets[i], self.values_offsets[i + 1])
    }

    /// Bisection for the first key not below `target`.
    fn lower(&self, target: &[u8]) -> (l: usize)
        requires
            self.wf(),
            self.ranges_ok,
        ensures
            l == lower_bound(keys_of(self.items()), target@, 0, self.items().len() as int),
            l <= self.items().len(),
    {
        proof {
            lemma_readable_items(bytes_view(self.block));
        }
        let n = self.count;
        let ghost keys = keys_of(self.items());
        let mut lo: usize = 0;
        let mut hi: usize = n;
        proof {
            lemma_lower_bound_range(keys, target@, 0, n as int);
        }
        while lo < hi
            invariant
                self.wf(),
                lo <= hi <= n,
                n == self.items().len(),
                keys == keys_of(self.items()),
                lower_bound(keys, target@, lo as int, hi as int) == lower_bound(
                    keys,
                    target@,
                    0,
                    n as int,
                ),
            decreases hi - lo,
        {
            let mid = lo + (hi - lo) / 2;
            if bytes_lt(self.key_at(mid), target) {
                lo = mid + 1;
            } else {
                hi = mid;
            }
        }
        lo
    }

    /// Bisection for the first key above `target`.
    fn upper(&self, target: &[u8]) -> (u: usize)
        requires
            self.wf(),
            self.ranges_ok,
        ensures
            u == upper_bound(keys_of(self.items()), target@, 0, self.items().len() as int),
            u <= self.items().len(),
    {
        proof {
            lemma_readable_items(bytes_view(self.block));
        }
        let n = self.count;
        let ghost keys = keys_of(self.items());
        let mut lo: usize = 0;
        let mut hi: usize = n;
        proof {
            lemma_upper_bound_range(keys, target@, 0, n as int);
        }
        while lo < hi
            invariant
                self.wf(),
                lo <= hi <= n,
                n == self.items().len(),
                keys == keys_of(self.items()),
                upper_bound(keys, target@, lo as int, hi as int) == upper_bound(
                    keys,
                    target@,
                    0,
                    n as int,
                ),
            decreases hi - lo,
        {
            let mid = lo + (hi - lo) / 2;
            if bytes_le(self.key_at(mid), target) {
                lo = mid + 1;
            } else {
                hi = mid;
            }
        }
        lo
    }
}

impl IterBase for NormalBlockIter {
    type Value = RawEntry;
}

impl IterRead for NormalBlockIter {
    closed spec fn wf(&self) -> bool {
        let b = bytes_view(self.block);
        &&& block_header_fits(b)
        &&& self.ranges_ok == entries_readable(b)
        &&& self.count == block_count(b)
        &&& self.key_offsets@.len() == self.count + 1
        &&& self.values_offsets@.len() == self.count + 1
        &&& forall|j: int|
            0 <= j <= self.count ==> #[trigger] self.key_offsets@[j] == block_key_off(b, j)
        &&& forall|j: int|
            0 <= j <= self.count ==> #[trigger] self.values_offsets@[j] == block_val_off(b, j)
        &&& self.curr matches Some(i) ==> i < self.count && block_wf(b)
    }

    closed spec fn current(&self) -> Option<(Seq<u8>, Seq<u8>)> {
        match self.curr {
            Some(i) => Some(self.items()[i as int]),
            None => None,
        }
    }

    open spec fn ready(&self) -> bool {
        true
    }

    fn valid(&self) -> (v: bool) {
        self.curr.is_some()
    }

    fn key(&self) -> (k: Option<&[u8]>) {
        proof {
            lemma_readable_items(bytes_view(self.block));
        }
        match self.curr {
            Some(i) => Some(self.key_at(i)),
            None => None,
        }
    }

    fn value(&self) -> (v: Option<RawEntry>) {
        proof {
            lemma_readable_items(bytes_view(self.block));
        }
        match self.curr {
            Some(i) => Some(RawEntry::from_slice(self.value_at(i))),
            None => None,
        }
    }
}

impl ForwardIter for NormalBlockIter {
    closed spec fn fwd_all(&self) -> Seq<(Seq<u8>, Seq<u8>)> {
        self.items()
    }

    closed spec fn fwd_rest(&self) -> Seq<(Seq<u8>, Seq<u8>)> {
        fwd_rest_at(self.items(), self.cursor())
    }

    closed spec fn fwd_seek_rest(&self, target: Seq<u8>) -> Seq<(Seq<u8>, Seq<u8>)> {
        leaf_fwd_seek(self.items(), target)
    }

    open spec fn fwd_mode(&self) -> bool {
        true
    }

    /// Positioning fails only on a block with an entry range outside it.
    open spec fn fwd_faultless(&self) -> bool {
        entries_readable(self.block_bytes())
    }

    proof fn lemma_fwd_head(&self) {
        lemma_readable_items(self.block_bytes());
    }

    fn seek_to_first(&mut self) -> (r: StorageResult<()>) {
        proof {
            lemma_readable_items(bytes_view(self.block));
        }
        if !self.ranges_ok {
            return Err(StorageError::InvalidValue("corrupt block: an entry range lies outside the block".to_owned()));
        }
        let ghost items = self.items();
        proof {
            assert(items.len() == self.count);
            assert(items.skip(0) =~= items);
        }
        self.curr = if self.count > 0 {
            Some(0)
        } else {
            None
        };
        Ok(())
    }

    fn seek(&mut self, target: &[u8]) -> (r: StorageResult<()>) {
        proof {
            lemma_readable_items(bytes_view(self.block));
        }
        if !self.ranges_ok {
            return Err(StorageError::InvalidValue("corrupt block: an entry range lies outside the block".to_owned()));
        }
        proof {
            assert(self.items().len() == self.count);
        }
        let l = self.lower(target);
        self.curr = if l < self.count {
            Some(l)
        } else {
            None
        };
        proof {
            if l == self.count {
                assert(self.items().skip(l as int) =~= Seq::<(Seq<u8>, Seq<u8>)>::empty());
            }
        }
        Ok(())
    }

    fn next(&mut self) -> (r: StorageResult<()>) {
        proof {
            lemma_readable_items(bytes_view(self.block));
        }
        if let Some(i) = self.curr {
            proof {
                lemma_fwd_step(self.items(), i as int);
            }
            self.curr = if i + 1 < self.count {
                Some(i + 1)
            } else {
                None
            };
        }
        Ok(())
    }
}

impl ReverseIter for NormalBlockIter {
    closed spec fn rev_all(&self) -> Seq<(Seq<u8>, Seq<u8>)> {
        self.items().reverse()
    }

    closed spec fn rev_rest(&self) -> Seq<(Seq<u8>, Seq<u8>)> {
        rev_rest_at(self.items(), self.cursor())
    }

    closed spec fn rev_seek_rest(&self, target: Seq<u8>) -> Seq<(Seq<u8>, Seq<u8>)> {
        leaf_rev_seek(self.items(), target)
    }

    open spec fn rev_mode(&self) -> bool {
        true
    }

    /// Positioning fails only on a block with an entry range outside it.
    open spec fn rev_faultless(&self) -> bool {
        entries_readable(self.block_bytes())
    }

    proof fn lemma_rev_head(&self) {
        lemma_readable_items(self.block_bytes());
    }

    fn seek_to_first(&mut self) -> (r: StorageResult<()>) {
        proof {
            lemma_readable_items(bytes_view(self.block));
        }
        if !self.ranges_ok {
            return Err(StorageError::InvalidValue("corrupt block: an entry range lies outside the block".to_owned()));
        }
        let ghost items = self.items();
        let n = self.count;
        proof {
            assert(items.len() == n);
            assert(items.take(n as int) =~= items);
            if n == 0 {
                assert(items.reverse() =~= Seq::<(Seq<u8>, Seq<u8>)>::empty());
            }
        }
        self.curr = if n > 0 {
            Some(n - 1)
        } else {
            None
        };
        Ok(())
    }

    fn seek(&mut self, target: &[u8]) -> (r: StorageResult<()>) {
        proof {
            lemma_readable_items(bytes_view(self.block));
        }
        if !self.ranges_ok {
            return Err(StorageError::InvalidValue("corrupt block: an entry range lies outside the block".to_owned()));
        }
        let ghost items = self.items();
        proof {
            assert(items.len() == self.count);
        }
        let u = self.upper(target);
        proof {
            if u == 0 {
                assert(items.take(0).reverse() =~= Seq::<(Seq<u8>, Seq<u8>)>::empty());
            }
        }
        self.curr = if u > 0 {
            Some(u - 1)
        } else {
            None
        };
        Ok(())
    }

    fn next(&mut self) -> (r: StorageResult<()>) {
        proof {
            lemma_readable_items(bytes_view(self.block));
        }
        if let Some(i) = self.curr {
            proof {
                lemma_rev_step(self.items(), i as int);
            }
            self.curr = if i > 0 {
                Some(i - 1)
            } else {
                None
            };
        }
        Ok(())
    }
}

} // verus!
