//! The index tree of an SST, as read back from its blocks.
//!
//! Each index block maps end keys to the offsets of child blocks (the
//! stored value is a version byte and the 8-byte offset). An index of
//! height `h` has `h - 1` levels of index blocks; the leaf level points at
//! data blocks. These spec functions describe what an index tree holds.

use vstd::prelude::*;
use crate::block::read_window;
use crate::codec::be_value;
use crate::format::{block_items, block_wf};
use crate::iterators::storage_iter::{keys_of, lower_bound};
use crate::row_key::{lex_le, lex_lt, sorted};

verus! {

/// The block at offset `pos` of `src`, for blocks of `bs` bytes.
pub open spec fn node(src: Seq<u8>, bs: nat, pos: u64) -> Seq<u8> {
    read_window(src, pos as int, bs)
}

/// The child offset an index value names (its bytes after the version).
pub open spec fn child_of(raw: Seq<u8>) -> u64 {
    be_value(raw.skip(1)) as u64
}

/// The entries of an index block: end key and child offset.
pub open spec fn offsets_of(items: Seq<(Seq<u8>, Seq<u8>)>) -> Seq<(Seq<u8>, u64)> {
    Seq::new(items.len(), |i: int| (items[i].0, child_of(items[i].1)))
}

/// The leaf entries under the index block at `pos`, `d` levels above the
/// leaf level, in key order.
pub open spec fn subtree(src: Seq<u8>, bs: nat, pos: u64, d: nat) -> Seq<(Seq<u8>, u64)>
    decreases d, 0int,
{
    let items = block_items(node(src, bs, pos));
    if d == 0 {
        offsets_of(items)
    } else {
        subtrees(src, bs, items, 0, items.len() as int, (d - 1) as nat)
    }
}

/// The subtrees of the entries `items[lo..hi]`, one after the other.
pub open spec fn subtrees(
    src: Seq<u8>,
    bs: nat,
    items: Seq<(Seq<u8>, Seq<u8>)>,
    lo: int,
    hi: int,
    d: nat,
) -> Seq<(Seq<u8>, u64)>
    decreases d, hi - lo,
{
    if hi <= lo || lo < 0 || hi > items.len() {
        Seq::empty()
    } else {
        subtrees(src, bs, items, lo, hi - 1, d) + subtree(src, bs, child_of(items[hi - 1].1), d)
    }
}

/// The data block at `pos` is well formed, its keys are sorted, and it is
/// not empty and ends at `end_key`.
pub open spec fn data_ok(src: Seq<u8>, bs: nat, pos: u64, end_key: Seq<u8>) -> bool {
    let b = node(src, bs, pos);
    let items = block_items(b);
    &&& block_wf(b)
    &&& sorted(keys_of(items))
    &&& items.len() > 0
    &&& items.last().0 == end_key
}

/// A well-formed index tree: every block is well formed with sorted keys;
/// every child of an inner block is a non-empty block whose last key is
/// the entry's end key; every entry of a leaf-level block names a data
/// block that ends at the entry's end key.
pub open spec fn tree_ok(src: Seq<u8>, bs: nat, pos: u64, d: nat) -> bool
    decreases d,
{
    let b = node(src, bs, pos);
    let items = block_items(b);
    &&& block_wf(b)
    &&& sorted(keys_of(items))
    &&& d == 0 ==> forall|i: int|
        0 <= i < items.len() ==> data_ok(src, bs, child_of(#[trigger] items[i].1), items[i].0)
    &&& d > 0 ==> forall|i: int|
        0 <= i < items.len() ==> {
            let c = block_items(node(src, bs, child_of(#[trigger] items[i].1)));
            &&& c.len() > 0
            &&& c.last().0 == items[i].0
            &&& tree_ok(src, bs, child_of(items[i].1), (d - 1) as nat)
        }
}

/// What positioning the tree at the first end key not below `t` yields:
/// descend through the lower bound at each level.
pub open spec fn seek_desc(src: Seq<u8>, bs: nat, pos: u64, d: nat, t: Seq<u8>) -> Seq<
    (Seq<u8>, u64),
>
    decreases d,
{
    let items = block_items(node(src, bs, pos));
    let i = lower_bound(keys_of(items), t, 0, items.len() as int);
    if d == 0 {
        offsets_of(items).skip(i)
    } else if i >= items.len() || i < 0 {
        Seq::empty()
    } else {
        seek_desc(src, bs, child_of(items[i].1), (d - 1) as nat, t) + subtrees(
            src,
            bs,
            items,
            i + 1,
            items.len() as int,
            (d - 1) as nat,
        )
    }
}

/// Peeling the first subtree off a range.
pub proof fn lemma_subtrees_front(
    src: Seq<u8>,
    bs: nat,
    items: Seq<(Seq<u8>, Seq<u8>)>,
    lo: int,
    hi: int,
    d: nat,
)
    requires
        0 <= lo < hi <= items.len(),
    ensures
        subtrees(src, bs, items, lo, hi, d) == subtree(src, bs, child_of(items[lo].1), d)
            + subtrees(src, bs, items, lo + 1, hi, d),
    decreases hi - lo,
{
    if hi - 1 > lo {
        lemma_subtrees_front(src, bs, items, lo, hi - 1, d);
        assert(subtrees(src, bs, items, lo, hi, d) =~= subtree(src, bs, child_of(items[lo].1), d)
            + subtrees(src, bs, items, lo + 1, hi, d));
    } else {
        assert(subtrees(src, bs, items, lo, lo, d) =~= Seq::<(Seq<u8>, u64)>::empty());
        assert(subtrees(src, bs, items, lo + 1, hi, d) =~= Seq::<(Seq<u8>, u64)>::empty());
        assert(subtrees(src, bs, items, lo, hi, d) =~= subtree(src, bs, child_of(items[lo].1), d)
            + subtrees(src, bs, items, lo + 1, hi, d));
    }
}

/// An empty range holds nothing.
pub proof fn lemma_subtrees_empty(
    src: Seq<u8>,
    bs: nat,
    items: Seq<(Seq<u8>, Seq<u8>)>,
    lo: int,
    d: nat,
)
    ensures
        subtrees(src, bs, items, lo, lo, d) == Seq::<(Seq<u8>, u64)>::empty(),
{
}

/// On sorted keys, bisection finds the first key not below `t`.
pub proof fn lemma_lower_bound_sorted(keys: Seq<Seq<u8>>, t: Seq<u8>, lo: int, hi: int)
    requires
        0 <= lo <= hi <= keys.len(),
        sorted(keys),
    ensures
        lo <= lower_bound(keys, t, lo, hi) <= hi,
        forall|j: int| lo <= j < lower_bound(keys, t, lo, hi) ==> lex_lt(#[trigger] keys[j], t),
        lower_bound(keys, t, lo, hi) < hi ==> !lex_lt(keys[lower_bound(keys, t, lo, hi)], t),
    decreases hi - lo,
{
    if lo < hi {
        let mid = lo + (hi - lo) / 2;
        if lex_lt(keys[mid], t) {
            lemma_lower_bound_sorted(keys, t, mid + 1, hi);
            assert forall|j: int| lo <= j <= mid implies lex_lt(#[trigger] keys[j], t) by {
                if j < mid {
                    assert(lex_le(keys[j], keys[mid]));
                    crate::row_key::lemma_lex_total(keys[j], keys[mid]);
                    if keys[j] != keys[mid] {
                        crate::row_key::lemma_lex_trans(keys[j], keys[mid], t);
                    }
                }
            }
        } else {
            lemma_lower_bound_sorted(keys, t, lo, mid);
        }
    }
}

/// On sorted keys whose last is not below `t`, the lower bound is inside.
pub proof fn lemma_lower_bound_found(keys: Seq<Seq<u8>>, t: Seq<u8>)
    requires
        sorted(keys),
        keys.len() > 0,
        !lex_lt(keys.last(), t),
    ensures
        lower_bound(keys, t, 0, keys.len() as int) < keys.len(),
{
    lemma_lower_bound_sorted(keys, t, 0, keys.len() as int);
    if lower_bound(keys, t, 0, keys.len() as int) == keys.len() {
        assert(lex_lt(keys[keys.len() - 1], t));
    }
}

/// Where the lower bound of `t` falls inside a well-formed tree's block,
/// the descent toward `t` yields something; and what it yields first is
/// an end key not below `t`.
pub proof fn lemma_seek_desc_head(src: Seq<u8>, bs: nat, pos: u64, d: nat, t: Seq<u8>)
    requires
        tree_ok(src, bs, pos, d),
    ensures
        ({
            let items = block_items(node(src, bs, pos));
            lower_bound(keys_of(items), t, 0, items.len() as int) < items.len() ==> seek_desc(
                src,
                bs,
                pos,
                d,
                t,
            ).len() > 0
        }),
        seek_desc(src, bs, pos, d, t).len() > 0 ==> !lex_lt(seek_desc(src, bs, pos, d, t)[0].0, t),
    decreases d,
{
    let items = block_items(node(src, bs, pos));
    let i = lower_bound(keys_of(items), t, 0, items.len() as int);
    lemma_lower_bound_sorted(keys_of(items), t, 0, items.len() as int);
    if i < items.len() {
        assert(keys_of(items)[i] == items[i].0);
        if d > 0 {
            let c = child_of(items[i].1);
            let ci = block_items(node(src, bs, c));
            assert(tree_ok(src, bs, c, (d - 1) as nat));
            assert(keys_of(ci).last() == ci.last().0);
            lemma_lower_bound_found(keys_of(ci), t);
            lemma_seek_desc_head(src, bs, c, (d - 1) as nat, t);
        }
    }
}

} // verus!
