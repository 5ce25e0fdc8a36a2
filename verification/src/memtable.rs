//! The memtable: an in-memory, ordered write buffer of puts and delete
//! tombstones, kept in a skip list, and its iterator.

use vstd::prelude::*;
use vstd::relations::{is_minimal, total_ordering};
use bytes::Bytes;
use crossbeam_skiplist::SkipMap;
use crate::buf::{bytes_as_slice, bytes_view};
use crate::errors::StorageResult;
use crate::iterators::index_tree::lemma_lower_bound_sorted;
use crate::iterators::storage_iter::{
    fwd_rest_at, keys_of, leaf_fwd_seek, leaf_rev_seek, lemma_fwd_step, lemma_rev_step, lower_bound,
    rev_rest_at, upper_bound, ForwardIter, IterBase, IterRead, ReverseIter,
};
use crate::row_key::{
    lemma_lex_asym, lemma_lex_irrefl, lemma_lex_total, lemma_lex_trans, lex_le, lex_lt, sorted,
};
use crate::skiplist::{
    from, is_first_from, is_greatest_key, is_last_upto, skip_back, skip_front, skip_insert,
    skip_is_empty, skip_len, skip_lower_bound, skip_lower_bound_above, skip_new, skip_upper_bound,
    skip_upper_bound_below, table_contents, upto, found_key,
};
use vstd::string::StringSliceAdditionalSpecFns;
use vstd::slice::slice_to_vec;
use crate::iterators::entry_decode_iter::EntryValue;
use crate::iterators::map_iter::{map_items, MapIter, MappedStorageIter};

verus! {

/// Types that can report their approximate heap size in bytes.
pub trait MemSize {
    spec fn spec_mem_size(&self) -> nat;

    fn mem_size(&self) -> (n: usize)
        ensures
            n == self.spec_mem_size(),
    ;
}

impl MemSize for Bytes {
    open spec fn spec_mem_size(&self) -> nat {
        bytes_view(*self).len()
    }

    fn mem_size(&self) -> (n: usize) {
        bytes_as_slice(self).len()
    }
}

impl MemSize for Vec<u8> {
    open spec fn spec_mem_size(&self) -> nat {
        self@.len()
    }

    fn mem_size(&self) -> (n: usize) {
        self.len()
    }
}

impl MemSize for String {
    /// The length of the UTF-8 encoding.
    open spec fn spec_mem_size(&self) -> nat {
        (vstd::utf8::encode_utf8(self@).len() as usize) as nat
    }

    fn mem_size(&self) -> (n: usize) {
        let s = self.as_str();
        assert(s.spec_bytes() == vstd::utf8::encode_utf8(s@));
        s.len()
    }
}

/// A value stored in a memtable: a live value or a delete tombstone.
#[derive(Debug, Clone, PartialEq)]
pub enum Entry<V> {
    Put(V),
    Delete,
}

/// The value an entry stands for: the bytes of a put, none for a tombstone.
pub open spec fn entry_view(e: Entry<Bytes>) -> Option<Seq<u8>> {
    match e {
        Entry::Put(v) => Some(bytes_view(v)),
        Entry::Delete => None,
    }
}

impl View for Entry<Bytes> {
    type V = Option<Seq<u8>>;

    open spec fn view(&self) -> Option<Seq<u8>> {
        entry_view(*self)
    }
}

/// A copy of an entry (the value's bytes are shared).
fn copy_entry(e: &Entry<Bytes>) -> (c: Entry<Bytes>)
    ensures
        entry_view(c) == entry_view(*e),
{
    match e {
        Entry::Put(v) => Entry::Put(v.clone()),
        Entry::Delete => Entry::Delete,
    }
}

// ── Keys in order ──

/// The key order as a relation.
pub open spec fn key_le() -> spec_fn(Seq<u8>, Seq<u8>) -> bool {
    |a: Seq<u8>, b: Seq<u8>| lex_le(a, b)
}

/// The lexicographic order on keys is a total order.
pub proof fn lemma_key_order()
    ensures
        total_ordering(key_le()),
{
    assert forall|a: Seq<u8>| #[trigger] key_le()(a, a) by {
        lemma_lex_irrefl(a);
    }
    assert forall|a: Seq<u8>, b: Seq<u8>| #[trigger] key_le()(a, b) && #[trigger] key_le()(b, a)
        implies a == b by {
        lemma_lex_total(a, b);
    }
    assert forall|a: Seq<u8>, b: Seq<u8>, c: Seq<u8>|
        #[trigger] key_le()(a, b) && #[trigger] key_le()(b, c) implies key_le()(a, c) by {
        lemma_lex_total(a, b);
        if lex_lt(c, a) && lex_lt(a, b) {
            lemma_lex_trans(c, a, b);
        }
    }
    assert forall|a: Seq<u8>, b: Seq<u8>| #[trigger] key_le()(a, b) || #[trigger] key_le()(b, a) by {
        lemma_lex_asym(a, b);
    }
}

/// The least key of a finite, non-empty set of keys.
pub open spec fn least_key(dom: Set<Seq<u8>>) -> Seq<u8> {
    dom.find_unique_minimal(key_le())
}

/// The keys of a finite set in ascending order.
pub open spec fn sorted_keys(dom: Set<Seq<u8>>) -> Seq<Seq<u8>>
    decreases dom.len(),
    when dom.finite()
{
    if dom.len() == 0 {
        Seq::empty()
    } else {
        proof {
            lemma_key_order();
            dom.find_unique_minimal_ensures(key_le());
        }
        seq![least_key(dom)] + sorted_keys(dom.remove(least_key(dom)))
    }
}

/// A finite set's keys in order: exactly its keys, each once, ascending.
pub proof fn lemma_sorted_keys(dom: Set<Seq<u8>>)
    requires
        dom.finite(),
    ensures
        sorted_keys(dom).len() == dom.len(),
        forall|i: int| 0 <= i < sorted_keys(dom).len() ==> dom.contains(#[trigger] sorted_keys(dom)[i]),
        forall|k: Seq<u8>| dom.contains(k) ==> sorted_keys(dom).contains(k),
        forall|i: int, j: int|
            0 <= i < j < sorted_keys(dom).len() ==> lex_lt(
                #[trigger] sorted_keys(dom)[i],
                #[trigger] sorted_keys(dom)[j],
            ),
    decreases dom.len(),
{
    if dom.len() == 0 {
        vstd::set_lib::lemma_set_empty_equivalency_len(dom);
    } else {
        lemma_key_order();
        dom.find_unique_minimal_ensures(key_le());
        let k0 = least_key(dom);
        let rest = dom.remove(k0);
        lemma_sorted_keys(rest);
        let ks = sorted_keys(dom);
        let kr = sorted_keys(rest);
        assert(ks == seq![k0] + kr);
        assert(is_minimal(key_le(), k0, dom));
        assert forall|x: Seq<u8>| rest.contains(x) implies lex_lt(k0, x) by {
            assert(dom.contains(x));
            lemma_lex_total(k0, x);
            lemma_lex_asym(x, k0);
            if lex_lt(x, k0) {
                assert(key_le()(x, k0));
                assert(key_le()(k0, x));
            }
        }
        assert forall|i: int| 0 <= i < ks.len() implies dom.contains(#[trigger] ks[i]) by {
            if i > 0 {
                assert(ks[i] == kr[i - 1]);
            }
        }
        assert forall|k: Seq<u8>| dom.contains(k) implies ks.contains(k) by {
            if k == k0 {
                assert(ks[0] == k0);
            } else {
                assert(rest.contains(k));
                assert(kr.contains(k));
                let j = choose|j: int| 0 <= j < kr.len() && kr[j] == k;
                assert(ks[j + 1] == k);
            }
        }
        assert forall|i: int, j: int| 0 <= i < j < ks.len() implies lex_lt(
            #[trigger] ks[i],
            #[trigger] ks[j],
        ) by {
            assert(ks[j] == kr[j - 1]);
            if i > 0 {
                assert(ks[i] == kr[i - 1]);
            } else {
                assert(rest.contains(kr[j - 1]));
            }
        }
    }
}

/// A map's entries in key order.
pub open spec fn table_items(m: Map<Seq<u8>, Option<Seq<u8>>>) -> Seq<(Seq<u8>, Option<Seq<u8>>)> {
    sorted_keys(m.dom()).map_values(|k: Seq<u8>| (k, m[k]))
}

/// In a strictly ascending sequence of keys, a key sits at one index.
proof fn lemma_key_at(ks: Seq<Seq<u8>>, i: int, j: int)
    requires
        forall|a: int, b: int| 0 <= a < b < ks.len() ==> lex_lt(#[trigger] ks[a], #[trigger] ks[b]),
        0 <= i < ks.len(),
        0 <= j < ks.len(),
        ks[i] == ks[j],
    ensures
        i == j,
{
    if i < j {
        lemma_lex_irrefl(ks[i]);
    } else if j < i {
        lemma_lex_irrefl(ks[i]);
    }
}

/// The facts about a finite map's ordered entries the iterator uses.
pub proof fn lemma_items(m: Map<Seq<u8>, Option<Seq<u8>>>)
    requires
        m.dom().finite(),
    ensures
        ({
            let ks = sorted_keys(m.dom());
            &&& keys_of(table_items(m)) == ks
            &&& table_items(m).len() == ks.len()
            &&& sorted(ks)
            &&& forall|i: int| 0 <= i < ks.len() ==> #[trigger] table_items(m)[i] == (ks[i], m[ks[i]])
            &&& forall|i: int| 0 <= i < ks.len() ==> m.dom().contains(#[trigger] ks[i])
            &&& forall|k: Seq<u8>| m.dom().contains(k) ==> ks.contains(k)
            &&& forall|a: int, b: int|
                0 <= a < b < ks.len() ==> lex_lt(#[trigger] ks[a], #[trigger] ks[b])
        }),
{
    let ks = sorted_keys(m.dom());
    lemma_sorted_keys(m.dom());
    assert(keys_of(table_items(m)) =~= ks);
    assert forall|a: int, b: int| 0 <= a < b < ks.len() implies lex_le(
        #[trigger] ks[a],
        #[trigger] ks[b],
    ) by {
        lemma_lex_asym(ks[a], ks[b]);
    }
}

/// Where the first key not below `t` sits in the ordered keys.
proof fn lemma_first_from_index(m: Map<Seq<u8>, Option<Seq<u8>>>, t: Seq<u8>, r: Option<Seq<u8>>)
    requires
        m.dom().finite(),
        r is None <==> !exists|k: Seq<u8>| m.dom().contains(k) && from(k, t, false),
        r matches Some(k) ==> is_first_from(m.dom(), t, false, k),
    ensures
        ({
            let ks = sorted_keys(m.dom());
            let lb = lower_bound(ks, t, 0, ks.len() as int);
            &&& 0 <= lb <= ks.len()
            &&& r is None <==> lb == ks.len()
            &&& r matches Some(k) ==> lb < ks.len() && ks[lb] == k
        }),
{
    let ks = sorted_keys(m.dom());
    lemma_items(m);
    lemma_lower_bound_sorted(ks, t, 0, ks.len() as int);
    let lb = lower_bound(ks, t, 0, ks.len() as int);
    if lb < ks.len() {
        assert(m.dom().contains(ks[lb]) && from(ks[lb], t, false));
    }
    if let Some(k) = r {
        assert(ks.contains(k));
        let i = choose|i: int| 0 <= i < ks.len() && ks[i] == k;
        if i < lb {
            assert(lex_lt(ks[i], t));
        }
        assert(lb < ks.len());
        assert(m.dom().contains(ks[lb]) && from(ks[lb], t, false));
        assert(lex_le(k, ks[lb]));
        if i > lb {
            lemma_lex_asym(ks[lb], ks[i]);
        }
    }
}

/// Where the last key not above `t` sits in the ordered keys.
proof fn lemma_last_upto_index(m: Map<Seq<u8>, Option<Seq<u8>>>, t: Seq<u8>, r: Option<Seq<u8>>)
    requires
        m.dom().finite(),
        r is None <==> !exists|k: Seq<u8>| m.dom().contains(k) && upto(k, t, false),
        r matches Some(k) ==> is_last_upto(m.dom(), t, false, k),
    ensures
        ({
            let ks = sorted_keys(m.dom());
            let ub = upper_bound(ks, t, 0, ks.len() as int);
            &&& 0 <= ub <= ks.len()
            &&& r is None <==> ub == 0
            &&& r matches Some(k) ==> ub > 0 && ks[ub - 1] == k
        }),
{
    let ks = sorted_keys(m.dom());
    lemma_items(m);
    lemma_upper_bound_sorted(ks, t, 0, ks.len() as int);
    let ub = upper_bound(ks, t, 0, ks.len() as int);
    if ub > 0 {
        assert(m.dom().contains(ks[ub - 1]) && upto(ks[ub - 1], t, false));
    }
    if let Some(k) = r {
        assert(ks.contains(k));
        let i = choose|i: int| 0 <= i < ks.len() && ks[i] == k;
        if i >= ub {
            if i > ub {
                lemma_lex_trans(t, ks[ub], ks[i]);
            }
            assert(lex_lt(t, ks[i]));
        }
        assert(ub > 0);
        assert(m.dom().contains(ks[ub - 1]) && upto(ks[ub - 1], t, false));
        assert(lex_le(ks[ub - 1], k));
        if i < ub - 1 {
            lemma_lex_asym(ks[i], ks[ub - 1]);
        }
    }
}

/// The key after the one at index `i` is the least key above it.
proof fn lemma_next_index(m: Map<Seq<u8>, Option<Seq<u8>>>, i: int, r: Option<Seq<u8>>)
    requires
        m.dom().finite(),
        0 <= i < sorted_keys(m.dom()).len(),
        r is None <==> !exists|k: Seq<u8>| m.dom().contains(k) && from(
            k,
            sorted_keys(m.dom())[i],
            true,
        ),
        r matches Some(k) ==> is_first_from(m.dom(), sorted_keys(m.dom())[i], true, k),
    ensures
        r is None <==> i + 1 == sorted_keys(m.dom()).len(),
        r matches Some(k) ==> sorted_keys(m.dom())[i + 1] == k,
{
    let ks = sorted_keys(m.dom());
    lemma_items(m);
    if i + 1 < ks.len() {
        assert(m.dom().contains(ks[i + 1]) && from(ks[i + 1], ks[i], true));
    } else {
        assert forall|k: Seq<u8>| m.dom().contains(k) implies !from(k, ks[i], true) by {
            assert(ks.contains(k));
            assert(ks.contains(k));
        let j = choose|j: int| 0 <= j < ks.len() && ks[j] == k;
            if j < i {
                lemma_lex_asym(ks[j], ks[i]);
            } else {
                lemma_lex_irrefl(ks[i]);
            }
        }
    }
    if let Some(k) = r {
        assert(ks.contains(k));
        let j = choose|j: int| 0 <= j < ks.len() && ks[j] == k;
        if j <= i {
            if j < i {
                lemma_lex_asym(ks[j], ks[i]);
            } else {
                lemma_lex_irrefl(ks[i]);
            }
        }
        assert(lex_le(k, ks[i + 1]));
        if j > i + 1 {
            lemma_lex_asym(ks[i + 1], ks[j]);
        }
    }
}

/// The key before the one at index `i` is the greatest key below it.
proof fn lemma_prev_index(m: Map<Seq<u8>, Option<Seq<u8>>>, i: int, r: Option<Seq<u8>>)
    requires
        m.dom().finite(),
        0 <= i < sorted_keys(m.dom()).len(),
        r is None <==> !exists|k: Seq<u8>| m.dom().contains(k) && upto(
            k,
            sorted_keys(m.dom())[i],
            true,
        ),
        r matches Some(k) ==> is_last_upto(m.dom(), sorted_keys(m.dom())[i], true, k),
    ensures
        r is None <==> i == 0,
        r matches Some(k) ==> i > 0 && sorted_keys(m.dom())[i - 1] == k,
{
    let ks = sorted_keys(m.dom());
    lemma_items(m);
    if i > 0 {
        assert(m.dom().contains(ks[i - 1]) && upto(ks[i - 1], ks[i], true));
    } else {
        assert forall|k: Seq<u8>| m.dom().contains(k) implies !upto(k, ks[i], true) by {
            assert(ks.contains(k));
            assert(ks.contains(k));
        let j = choose|j: int| 0 <= j < ks.len() && ks[j] == k;
            if j > i {
                lemma_lex_asym(ks[i], ks[j]);
            } else {
                lemma_lex_irrefl(ks[i]);
            }
        }
    }
    if let Some(k) = r {
        assert(ks.contains(k));
        let j = choose|j: int| 0 <= j < ks.len() && ks[j] == k;
        if j >= i {
            if j > i {
                lemma_lex_asym(ks[i], ks[j]);
            } else {
                lemma_lex_irrefl(ks[i]);
            }
        }
        assert(lex_le(ks[i - 1], k));
        if j < i - 1 {
            lemma_lex_asym(ks[j], ks[i - 1]);
        }
    }
}

/// Where the greatest key sits in the ordered keys.
proof fn lemma_greatest_index(m: Map<Seq<u8>, Option<Seq<u8>>>, k: Seq<u8>)
    requires
        m.dom().finite(),
        is_greatest_key(m.dom(), k),
    ensures
        sorted_keys(m.dom()).len() > 0,
        sorted_keys(m.dom())[sorted_keys(m.dom()).len() - 1] == k,
{
    let ks = sorted_keys(m.dom());
    lemma_items(m);
    assert(ks.contains(k));
    let j = choose|j: int| 0 <= j < ks.len() && ks[j] == k;
    let last = ks.len() - 1;
    assert(m.dom().contains(ks[last]));
    assert(lex_le(ks[last], k));
    if j < last {
        lemma_lex_asym(ks[j], ks[last]);
    }
}

/// On sorted keys, bisection finds the first key above `t`.
pub proof fn lemma_upper_bound_sorted(keys: Seq<Seq<u8>>, t: Seq<u8>, lo: int, hi: int)
    requires
        0 <= lo <= hi <= keys.len(),
        sorted(keys),
    ensures
        lo <= upper_bound(keys, t, lo, hi) <= hi,
        forall|j: int| lo <= j < upper_bound(keys, t, lo, hi) ==> lex_le(#[trigger] keys[j], t),
        upper_bound(keys, t, lo, hi) < hi ==> lex_lt(t, keys[upper_bound(keys, t, lo, hi)]),
    decreases hi - lo,
{
    if lo < hi {
        let mid = lo + (hi - lo) / 2;
        if lex_le(keys[mid], t) {
            lemma_upper_bound_sorted(keys, t, mid + 1, hi);
            assert forall|j: int| lo <= j <= mid implies lex_le(#[trigger] keys[j], t) by {
                if j < mid {
                    assert(lex_le(keys[j], keys[mid]));
                    lemma_lex_total(keys[j], keys[mid]);
                    lemma_lex_total(keys[mid], t);
                    if lex_lt(t, keys[j]) && lex_lt(keys[j], keys[mid]) {
                        lemma_lex_trans(t, keys[j], keys[mid]);
                    }
                }
            }
        } else {
            lemma_upper_bound_sorted(keys, t, lo, mid);
            lemma_lex_total(keys[mid], t);
        }
    }
}

// ── The memtable ──

/// `a + b` wrapped around at `usize::MAX`, for `a` and `b` that fit.
pub open spec fn wrapping_sum(a: int, b: int) -> int {
    if a + b > usize::MAX {
        a + b - (usize::MAX + 1)
    } else {
        a + b
    }
}

/// In-memory write buffer of puts and delete tombstones, ordered by key.
pub struct MemTable {
    map: SkipMap<Bytes, Entry<Bytes>>,
    memory_size: usize,
}

impl MemTable {
    #[verifier::type_invariant]
    closed spec fn finite_map(&self) -> bool {
        table_contents(self.map).dom().finite()
    }

    /// The approximate memory the entries take: the sizes of the keys and
    /// values written so far, wrapping around at `usize::MAX`.
    pub closed spec fn memory(&self) -> usize {
        self.memory_size
    }

    /// An empty memtable.
    pub fn new() -> (m: Self)
        ensures
            m@ == Map::<Seq<u8>, Option<Seq<u8>>>::empty(),
            m.memory() == 0,
    {
        MemTable { map: skip_new(), memory_size: 0 }
    }

    /// Writes `value` under `key`, replacing what the key held. Adds the
    /// key's and the value's sizes to the memory estimate.
    pub fn put(&mut self, key: Bytes, value: Bytes)
        requires
            bytes_view(key).len() + bytes_view(value).len() <= usize::MAX,
        ensures
            final(self)@ == old(self)@.insert(bytes_view(key), Some(bytes_view(value))),
            final(self).memory() == wrapping_sum(
                old(self).memory() as int,
                bytes_view(key).len() + bytes_view(value).len() as int,
            ),
    {
        proof {
            use_type_invariant(&*self);
        }
        let n = key.mem_size() + value.mem_size();
        self.memory_size = self.memory_size.wrapping_add(n);
        let ghost kv = bytes_view(key);
        let ghost vv = bytes_view(value);
        skip_insert(&mut self.map, key, Entry::Put(value));
        proof {
            assert(entry_view(Entry::Put(value)) == Some(vv));
        }
    }

    /// Writes a delete tombstone under `key`. Adds the key's size to the
    /// memory estimate.
    pub fn delete(&mut self, key: Bytes)
        ensures
            final(self)@ == old(self)@.insert(bytes_view(key), None),
            final(self).memory() == wrapping_sum(old(self).memory() as int, bytes_view(key).len() as int),
    {
        proof {
            use_type_invariant(&*self);
        }
        let n = key.mem_size();
        self.memory_size = self.memory_size.wrapping_add(n);
        skip_insert(&mut self.map, key, Entry::Delete);
    }

    /// The approximate memory the entries take.
    pub fn estimate_memory(&self) -> (n: usize)
        ensures
            n == self.memory(),
    {
        self.memory_size
    }

    /// The number of keys in the table.
    pub fn len(&self) -> (n: usize)
        ensures
            n == self@.dom().len(),
    {
        skip_len(&self.map)
    }

    /// Whether the table holds no entry.
    pub fn is_empty(&self) -> (b: bool)
        ensures
            b == (self@.dom().len() == 0),
    {
        proof {
            use_type_invariant(self);
            vstd::set_lib::lemma_set_empty_equivalency_len(self@.dom());
        }
        skip_is_empty(&self.map)
    }

    /// An iterator over the table's entries in key order, not yet
    /// positioned.
    pub fn iter(&self) -> (it: OwnedMemTableIter<'_>)
        ensures
            it.wf(),
            it.table() == self@,
            it.current() is None,
    {
        proof {
            use_type_invariant(self);
        }
        OwnedMemTableIter { map: &self.map, item: None }
    }
}

impl View for MemTable {
    type V = Map<Seq<u8>, Option<Seq<u8>>>;

    /// Each key's bytes to its latest write: the value of a put, none for
    /// a delete.
    closed spec fn view(&self) -> Map<Seq<u8>, Option<Seq<u8>>> {
        table_contents(self.map)
    }
}

/// Iterator over a memtable's entries in key order, each a copy of the
/// key and its entry.
pub struct OwnedMemTableIter<'a> {
    map: &'a SkipMap<Bytes, Entry<Bytes>>,
    item: Option<(Bytes, Entry<Bytes>)>,
}

impl<'a> OwnedMemTableIter<'a> {
    /// The table this iterator reads.
    pub closed spec fn table(&self) -> Map<Seq<u8>, Option<Seq<u8>>> {
        table_contents(*self.map)
    }

    /// The index of the current key among the table's ordered keys.
    closed spec fn cursor(&self) -> Option<int> {
        match self.item {
            Some(kv) => Some(sorted_keys(self.table().dom()).index_of(bytes_view(kv.0))),
            None => None,
        }
    }

    /// The cursor is the index of the current key among the ordered keys,
    /// and the current entry is the entry there.
    proof fn lemma_cursor(&self)
        requires
            self.wf(),
        ensures
            self.cursor() matches Some(c) ==> {
                &&& 0 <= c < table_items(self.table()).len()
                &&& sorted_keys(self.table().dom())[c] == bytes_view((self.item->0).0)
            },
            self.current() == (match self.cursor() {
                Some(c) => Some(table_items(self.table())[c]),
                None => None,
            }),
    {
        let m = self.table();
        lemma_items(m);
        if self.item is Some {
            let k = bytes_view((self.item->0).0);
            let ks = sorted_keys(m.dom());
            assert(ks.contains(k));
        }
    }

    /// The current key sits at index `i` of the ordered keys: the iterator
    /// is positioned there.
    proof fn lemma_at(&self, i: int)
        requires
            self.wf(),
            self.item is Some,
            0 <= i < sorted_keys(self.table().dom()).len(),
            sorted_keys(self.table().dom())[i] == bytes_view((self.item->0).0),
        ensures
            self.cursor() == Some(i),
    {
        self.lemma_cursor();
        let ks = sorted_keys(self.table().dom());
        lemma_items(self.table());
        lemma_key_at(ks, i, self.cursor()->0);
    }
}

impl<'a> IterBase for OwnedMemTableIter<'a> {
    type Value = Entry<Bytes>;
}

impl<'a> IterRead for OwnedMemTableIter<'a> {
    closed spec fn wf(&self) -> bool {
        &&& self.table().dom().finite()
        &&& self.item matches Some(kv) ==> {
            &&& self.table().dom().contains(bytes_view(kv.0))
            &&& self.table()[bytes_view(kv.0)] == entry_view(kv.1)
        }
    }

    closed spec fn current(&self) -> Option<(Seq<u8>, Option<Seq<u8>>)> {
        match self.item {
            Some(kv) => Some((bytes_view(kv.0), entry_view(kv.1))),
            None => None,
        }
    }

    open spec fn ready(&self) -> bool {
        true
    }

    fn valid(&self) -> (b: bool) {
        self.item.is_some()
    }

    fn key(&self) -> (k: Option<&[u8]>) {
        match &self.item {
            Some(kv) => Some(bytes_as_slice(&kv.0)),
            None => None,
        }
    }

    fn value(&self) -> (v: Option<Entry<Bytes>>) {
        match &self.item {
            Some(kv) => Some(copy_entry(&kv.1)),
            None => None,
        }
    }
}

impl<'a> ForwardIter for OwnedMemTableIter<'a> {
    /// The table's entries in key order.
    closed spec fn fwd_all(&self) -> Seq<(Seq<u8>, Option<Seq<u8>>)> {
        table_items(self.table())
    }

    closed spec fn fwd_rest(&self) -> Seq<(Seq<u8>, Option<Seq<u8>>)> {
        fwd_rest_at(table_items(self.table()), self.cursor())
    }

    closed spec fn fwd_seek_rest(&self, target: Seq<u8>) -> Seq<(Seq<u8>, Option<Seq<u8>>)> {
        leaf_fwd_seek(table_items(self.table()), target)
    }

    open spec fn fwd_mode(&self) -> bool {
        true
    }

    open spec fn fwd_faultless(&self) -> bool {
        true
    }

    proof fn lemma_fwd_head(&self) {
        self.lemma_cursor();
        crate::iterators::storage_iter::lemma_fwd_rest_head(
            table_items(self.table()),
            self.cursor(),
        );
    }

    /// Positions at the smallest key.
    fn seek_to_first(&mut self) -> (r: StorageResult<()>) {
        let ghost m = self.table();
        let item = skip_front(self.map);
        proof {
            lemma_items(m);
            lemma_first_from_index(
                m,
                Seq::empty(),
                found_key(item),
            );
        }
        self.item = item;
        proof {
            let ks = sorted_keys(m.dom());
            if self.item is Some {
                self.lemma_at(lower_bound(ks, Seq::empty(), 0, ks.len() as int));
            }
            let lb = lower_bound(ks, Seq::empty(), 0, ks.len() as int);
            if lb > 0 {
                lemma_lower_bound_sorted(ks, Seq::<u8>::empty(), 0, ks.len() as int);
                assert(lex_lt(ks[0], Seq::<u8>::empty()));
            }
            assert(table_items(m).skip(0) =~= table_items(m));
            if self.item is None {
                assert(table_items(m) =~= Seq::<(Seq<u8>, Option<Seq<u8>>)>::empty());
            }
        }
        Ok(())
    }

    /// Positions at the first key not below `target`.
    fn seek(&mut self, target: &[u8]) -> (r: StorageResult<()>) {
        let ghost m = self.table();
        let item = skip_lower_bound(self.map, target);
        proof {
            lemma_items(m);
            lemma_first_from_index(
                m,
                target@,
                found_key(item),
            );
        }
        self.item = item;
        proof {
            let ks = sorted_keys(m.dom());
            let lb = lower_bound(ks, target@, 0, ks.len() as int);
            if self.item is Some {
                self.lemma_at(lb);
            } else {
                assert(table_items(m).skip(lb) =~= Seq::<(Seq<u8>, Option<Seq<u8>>)>::empty());
            }
        }
        Ok(())
    }

    /// Steps to the next key.
    fn next(&mut self) -> (r: StorageResult<()>) {
        let ghost m = self.table();
        let ghost ks = sorted_keys(m.dom());
        if let Some(kv) = &self.item {
            let ghost i = self.cursor()->0;
            proof {
                self.lemma_cursor();
                lemma_items(m);
                lemma_fwd_step(table_items(m), i);
            }
            let item = skip_lower_bound_above(self.map, bytes_as_slice(&kv.0));
            proof {
                lemma_next_index(
                    m,
                    i,
                    found_key(item),
                );
            }
            self.item = item;
            proof {
                if self.item is Some {
                    self.lemma_at(i + 1);
                }
            }
        }
        Ok(())
    }
}

impl<'a> ReverseIter for OwnedMemTableIter<'a> {
    /// The table's entries, greatest key first.
    closed spec fn rev_all(&self) -> Seq<(Seq<u8>, Option<Seq<u8>>)> {
        table_items(self.table()).reverse()
    }

    closed spec fn rev_rest(&self) -> Seq<(Seq<u8>, Option<Seq<u8>>)> {
        rev_rest_at(table_items(self.table()), self.cursor())
    }

    closed spec fn rev_seek_rest(&self, target: Seq<u8>) -> Seq<(Seq<u8>, Option<Seq<u8>>)> {
        leaf_rev_seek(table_items(self.table()), target)
    }

    open spec fn rev_mode(&self) -> bool {
        true
    }

    open spec fn rev_faultless(&self) -> bool {
        true
    }

    proof fn lemma_rev_head(&self) {
        self.lemma_cursor();
        crate::iterators::storage_iter::lemma_rev_rest_head(
            table_items(self.table()),
            self.cursor(),
        );
    }

    /// Positions at the greatest key.
    fn seek_to_first(&mut self) -> (r: StorageResult<()>) {
        let ghost m = self.table();
        let item = skip_back(self.map);
        proof {
            lemma_items(m);
        }
        self.item = item;
        proof {
            let items = table_items(m);
            if self.item is Some {
                lemma_greatest_index(m, bytes_view((self.item->0).0));
                self.lemma_at(items.len() - 1);
                assert(items.take(items.len() as int) =~= items);
            } else {
                if items.len() > 0 {
                    assert(m.dom().contains(sorted_keys(m.dom())[0]));
                }
                assert(items.reverse() =~= Seq::<(Seq<u8>, Option<Seq<u8>>)>::empty());
            }
        }
        Ok(())
    }

    /// Positions at the last key not above `target`.
    fn seek(&mut self, target: &[u8]) -> (r: StorageResult<()>) {
        let ghost m = self.table();
        let item = skip_upper_bound(self.map, target);
        proof {
            lemma_items(m);
            lemma_last_upto_index(
                m,
                target@,
                found_key(item),
            );
        }
        self.item = item;
        proof {
            let ks = sorted_keys(m.dom());
            let ub = upper_bound(ks, target@, 0, ks.len() as int);
            if self.item is Some {
                self.lemma_at(ub - 1);
            } else {
                assert(table_items(m).take(0).reverse() =~= Seq::<
                    (Seq<u8>, Option<Seq<u8>>),
                >::empty());
            }
        }
        Ok(())
    }

    /// Steps to the previous key.
    fn next(&mut self) -> (r: StorageResult<()>) {
        let ghost m = self.table();
        if let Some(kv) = &self.item {
            let ghost i = self.cursor()->0;
            proof {
                self.lemma_cursor();
                lemma_items(m);
                lemma_rev_step(table_items(m), i);
            }
            let item = skip_upper_bound_below(self.map, bytes_as_slice(&kv.0));
            proof {
                lemma_prev_index(
                    m,
                    i,
                    found_key(item),
                );
            }
            self.item = item;
            proof {
                if self.item is Some {
                    self.lemma_at(i - 1);
                }
            }
        }
        Ok(())
    }
}

/// The memtable's entries, shown as decoded values so that a memtable can
/// be merged with SSTs: a put keeps its bytes, a delete stays a tombstone.
impl<'a> MappedStorageIter for OwnedMemTableIter<'a> {
    type MappedValue = EntryValue;

    open spec fn map_value_view(v: Option<Seq<u8>>) -> Option<Seq<u8>> {
        v
    }

    fn map_value(value: Entry<Bytes>) -> (m: EntryValue) {
        match value {
            Entry::Put(v) => EntryValue::Put(slice_to_vec(bytes_as_slice(&v))),
            Entry::Delete => EntryValue::Delete,
        }
    }
}

/// Seeking a key the table holds lands on that key and its latest write
/// (the value of the last put, none after a delete); going backward from
/// it does too.
pub proof fn lemma_seek_lands_on_key(m: Map<Seq<u8>, Option<Seq<u8>>>, k: Seq<u8>)
    requires
        m.dom().finite(),
        m.dom().contains(k),
    ensures
        leaf_fwd_seek(table_items(m), k).len() > 0,
        leaf_fwd_seek(table_items(m), k)[0] == (k, m[k]),
        leaf_rev_seek(table_items(m), k).len() > 0,
        leaf_rev_seek(table_items(m), k)[0] == (k, m[k]),
{
    let ks = sorted_keys(m.dom());
    lemma_items(m);
    lemma_lex_irrefl(k);
    assert(m.dom().contains(k) && from(k, k, false));
    assert(m.dom().contains(k) && upto(k, k, false));
    lemma_first_from_index(m, k, Some(k));
    lemma_last_upto_index(m, k, Some(k));
    let lb = lower_bound(ks, k, 0, ks.len() as int);
    let ub = upper_bound(ks, k, 0, ks.len() as int);
    assert(table_items(m)[lb] == (k, m[k]));
    assert(table_items(m)[ub - 1] == (k, m[k]));
}

/// A memtable iterator shown through `MapIter` scans the table's entries in
/// key order forward, and in reverse key order backward, each entry's value
/// unchanged.
pub proof fn lemma_mapped_scan<'a>(it: MapIter<OwnedMemTableIter<'a>>)
    ensures
        it.fwd_all() == table_items(it.source().table()),
        it.rev_all() == table_items(it.source().table()).reverse(),
{
    let items = table_items(it.source().table());
    assert(map_items::<OwnedMemTableIter<'a>>(items) =~= items);
    assert(map_items::<OwnedMemTableIter<'a>>(items.reverse()) =~= items.reverse());
}

/// A memtable iterator scans the table's entries in key order; the table
/// of a well-formed iterator holds finitely many keys.
pub proof fn lemma_scan_all<'a>(it: &OwnedMemTableIter<'a>)
    ensures
        it.fwd_all() == table_items(it.table()),
        it.wf() ==> it.table().dom().finite(),
{
}

} // verus!
