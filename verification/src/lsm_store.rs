//! The read path of an LSM shard: the merge of its memtables and SST levels
//! into one iterator.

use vstd::prelude::*;
use crate::block::BlockReader;
use crate::errors::StorageResult;
use crate::iterators::concat_iter::{fwd_concat, ConcatIter};
use crate::iterators::map_iter::MapIter;
use crate::iterators::merge_iter::{first_with_key, kmerge_fwd, lemma_kmerge_fwd_first_of_newest, MergeIter};
use crate::iterators::sst_iter::SstIter;
use crate::iterators::storage_iter::{ForwardIter, IterRead};
use crate::iterators::two_merge_iter::{twomerge, TwoMergeIter};
use crate::lsm_state::LsmState;
use crate::buf::{bytes_copy_from_slice, bytes_view};
use crate::builder::data_block::data_entry_size;
use crate::builder::footer::SstFooter;
use crate::row_key::{lex_lt, sorted};
use crate::builder::image::{
    blocks_read, entry_fits, lemma_sst_reads_back_with, root_of, sst_data_blocks, sst_image,
};
use crate::iterators::entry_decode_iter::decode_items;
use crate::builder::sst::{
    build_cost, cascade_cost, key_fits, lemma_cascade_add, lemma_cascade_mono, lemma_cascade_split,
    lemma_finish_mono, SstBuilder,
};
use crate::builder::sst_writer::SstWriter;
use crate::iterators::storage_iter::{keys_of, tail};
use crate::memtable::{
    lemma_items, lemma_mapped_scan, lemma_scan_all, sorted_keys, table_items, Entry, MemTable,
    OwnedMemTableIter,
};

verus! {

/// The memtables' side of the merge: active and immutable memtables.
pub type MemSide<'a> = MergeIter<MapIter<OwnedMemTableIter<'a>>>;

/// Level 0: SSTs that may overlap one another.
pub type L0Side<R> = MergeIter<SstIter<R>>;

/// Levels 1 and below: each a run of non-overlapping SSTs.
pub type LnSide<R> = MergeIter<ConcatIter<SstIter<R>>>;

/// The SSTs' side: level 0 wins over deeper levels on equal keys.
pub type SstSide<R> = TwoMergeIter<L0Side<R>, LnSide<R>>;

/// Everything: memtables win over SSTs on equal keys.
pub type MergedIter<'a, R> = TwoMergeIter<MemSide<'a>, SstSide<R>>;

/// The memtables' scans, newest source first: the active memtable, then the
/// immutable ones in the state's order.
pub open spec fn memtable_scans(state: LsmState) -> Seq<Seq<(Seq<u8>, Option<Seq<u8>>)>> {
    seq![table_items(state.active_mem@)] + Seq::new(
        state.imm_memtables@.len(),
        |i: int| table_items(state.imm_memtables@[i]@),
    )
}

/// What the merged iterator scans forward: the memtables' merge (active
/// first, then the immutable ones newest first), shadowing level 0's merge
/// (newest SST first: `l0` is in the state's order, oldest first, and is
/// taken in reverse), shadowing the merge of the deeper levels' runs. On
/// equal keys the k-way merges yield the newer source's item first.
pub open spec fn merged_scan<R: BlockReader>(
    state: LsmState,
    l0: Seq<SstIter<R>>,
    ln: Seq<Vec<SstIter<R>>>,
) -> Seq<(Seq<u8>, Option<Seq<u8>>)> {
    twomerge(
        kmerge_fwd(memtable_scans(state)),
        twomerge(
            kmerge_fwd(Seq::new(l0.len(), |i: int| l0.reverse()[i].fwd_all())),
            kmerge_fwd(Seq::new(ln.len(), |i: int| fwd_concat(ln[i]@, 0))),
        ),
    )
}

/// In a memtable's scan, a key it holds has one item, its entry; a key it
/// lacks has none.
proof fn lemma_table_key(m: Map<Seq<u8>, Option<Seq<u8>>>, k: Seq<u8>)
    requires
        m.dom().finite(),
    ensures
        sorted(keys_of(table_items(m))),
        m.dom().contains(k) ==> exists|p: int|
            first_with_key(table_items(m), k, p) && table_items(m)[p] == (k, m[k]),
        !m.dom().contains(k) ==> !keys_of(table_items(m)).contains(k),
{
    lemma_items(m);
    let ks = sorted_keys(m.dom());
    if m.dom().contains(k) {
        assert(ks.contains(k));
        let p = choose|p: int| 0 <= p < ks.len() && ks[p] == k;
        assert(table_items(m)[p] == (k, m[k]));
        assert forall|j: int| 0 <= j < p implies (#[trigger] table_items(m)[j]).0 != k by {
            assert(table_items(m)[j] == (ks[j], m[ks[j]]));
            assert(lex_lt(ks[j], ks[p]));
            crate::row_key::lemma_lex_irrefl(k);
        }
        assert(first_with_key(table_items(m), k, p));
    } else if keys_of(table_items(m)).contains(k) {
        let p = choose|p: int| 0 <= p < ks.len() && keys_of(table_items(m))[p] == k;
        assert(ks[p] == k);
    }
}

/// Every memtable scan is in key order when every memtable is finite.
proof fn lemma_memtable_scans_sorted(state: LsmState)
    requires
        state.active_mem@.dom().finite(),
        forall|j: int| 0 <= j < state.imm_memtables@.len() ==> (#[trigger] state.imm_memtables@[j])@.dom().finite(),
    ensures
        forall|j: int|
            0 <= j < memtable_scans(state).len() ==> sorted(keys_of(#[trigger] memtable_scans(state)[j])),
{
    assert forall|j: int| 0 <= j < memtable_scans(state).len() implies sorted(
        keys_of(#[trigger] memtable_scans(state)[j]),
    ) by {
        if j == 0 {
            lemma_table_key(state.active_mem@, Seq::empty());
        } else {
            assert(memtable_scans(state)[j] == table_items(state.imm_memtables@[j - 1]@));
            lemma_table_key(state.imm_memtables@[j - 1]@, Seq::empty());
        }
    }
}

/// The active memtable is read first: for a key it holds, its entry is the
/// first item with that key in the memtables' merge.
pub proof fn lemma_active_mem_first(state: LsmState, k: Seq<u8>)
    requires
        state.active_mem@.dom().finite(),
        forall|j: int| 0 <= j < state.imm_memtables@.len() ==> (#[trigger] state.imm_memtables@[j])@.dom().finite(),
        state.active_mem@.dom().contains(k),
    ensures
        exists|n: int|
            first_with_key(kmerge_fwd(memtable_scans(state)), k, n) && kmerge_fwd(memtable_scans(state))[n]
                == (k, state.active_mem@[k]),
{
    lemma_memtable_scans_sorted(state);
    lemma_table_key(state.active_mem@, k);
    let p = choose|p: int|
        first_with_key(table_items(state.active_mem@), k, p) && table_items(state.active_mem@)[p] == (
        k,
        state.active_mem@[k],
    );
    lemma_kmerge_fwd_first_of_newest(memtable_scans(state), 0, p, k);
}

/// The newest immutable memtable is read next: when the active memtable
/// lacks a key and `imm_memtables[i]` is the most recently switched out
/// memtable holding it (`imm_memtables[0]` is the newest), that memtable's
/// entry is the first item with the key in the memtables' merge.
pub proof fn lemma_imm_mem_newest_first(state: LsmState, i: int, k: Seq<u8>)
    requires
        state.active_mem@.dom().finite(),
        forall|j: int| 0 <= j < state.imm_memtables@.len() ==> (#[trigger] state.imm_memtables@[j])@.dom().finite(),
        !state.active_mem@.dom().contains(k),
        0 <= i < state.imm_memtables@.len(),
        state.imm_memtables@[i]@.dom().contains(k),
        forall|j: int| 0 <= j < i ==> !(#[trigger] state.imm_memtables@[j])@.dom().contains(k),
    ensures
        exists|n: int|
            first_with_key(kmerge_fwd(memtable_scans(state)), k, n) && kmerge_fwd(memtable_scans(state))[n]
                == (k, state.imm_memtables@[i]@[k]),
{
    let sc = memtable_scans(state);
    lemma_memtable_scans_sorted(state);
    let m = state.imm_memtables@[i]@;
    assert(sc[i + 1] == table_items(m));
    lemma_table_key(m, k);
    let p = choose|p: int| first_with_key(table_items(m), k, p) && table_items(m)[p] == (k, m[k]);
    assert forall|j: int| 0 <= j < i + 1 implies !keys_of(#[trigger] sc[j]).contains(k) by {
        if j == 0 {
            lemma_table_key(state.active_mem@, k);
        } else {
            assert(sc[j] == table_items(state.imm_memtables@[j - 1]@));
            lemma_table_key(state.imm_memtables@[j - 1]@, k);
        }
    }
    lemma_kmerge_fwd_first_of_newest(sc, i + 1, p, k);
}

/// Newest write first: when every source's scan is in key order, a merged
/// read holds an item exactly when it is in the memtables' merge, or in
/// level 0's merge under a key no memtable holds, or in the deeper levels'
/// merge under a key neither of those holds; within each merge, items of
/// equal keys come from the newer source first (see
/// `lemma_kmerge_fwd_newest_first`).
pub proof fn lemma_merged_scan_newest<R: BlockReader>(
    state: LsmState,
    l0: Seq<SstIter<R>>,
    ln: Seq<Vec<SstIter<R>>>,
)
    requires
        forall|i: int|
            0 <= i < memtable_scans(state).len() ==> sorted(keys_of(#[trigger] memtable_scans(state)[i])),
        forall|i: int| 0 <= i < l0.len() ==> sorted(keys_of((#[trigger] l0[i]).fwd_all())),
        forall|i: int| 0 <= i < ln.len() ==> sorted(keys_of(fwd_concat((#[trigger] ln[i])@, 0))),
    ensures
        ({
            let a = kmerge_fwd(memtable_scans(state));
            let b = kmerge_fwd(Seq::new(l0.len(), |i: int| l0.reverse()[i].fwd_all()));
            let c = kmerge_fwd(Seq::new(ln.len(), |i: int| fwd_concat(ln[i]@, 0)));
            forall|x: (Seq<u8>, Option<Seq<u8>>)| #[trigger]
                merged_scan(state, l0, ln).contains(x) <==> {
                    ||| a.contains(x)
                    ||| b.contains(x) && !keys_of(a).contains(x.0)
                    ||| c.contains(x) && !keys_of(a).contains(x.0) && !keys_of(b).contains(x.0)
                }
        }),
{
    let s0 = Seq::new(l0.len(), |i: int| l0.reverse()[i].fwd_all());
    let s1 = Seq::new(ln.len(), |i: int| fwd_concat(ln[i]@, 0));
    assert forall|i: int| 0 <= i < s0.len() implies sorted(keys_of(#[trigger] s0[i])) by {
        assert(l0.reverse()[i] == l0[l0.len() - 1 - i]);
    }
    assert forall|i: int| 0 <= i < s1.len() implies sorted(keys_of(#[trigger] s1[i])) by {
        assert(s1[i] == fwd_concat(ln[i]@, 0));
    }
    crate::iterators::merge_iter::lemma_kmerge_fwd_sorted(memtable_scans(state));
    crate::iterators::merge_iter::lemma_kmerge_fwd_sorted(s0);
    crate::iterators::merge_iter::lemma_kmerge_fwd_sorted(s1);
    crate::iterators::two_merge_iter::lemma_tiers_newest_win(
        kmerge_fwd(memtable_scans(state)),
        kmerge_fwd(s0),
        kmerge_fwd(s1),
    );
}

/// The three tiers of a merged read, each sorted by key when its sources'
/// scans are.
proof fn lemma_tiers_sorted<R: BlockReader>(state: LsmState, l0: Seq<SstIter<R>>, ln: Seq<Vec<SstIter<R>>>)
    requires
        state.active_mem@.dom().finite(),
        forall|j: int| 0 <= j < state.imm_memtables@.len() ==> (#[trigger] state.imm_memtables@[j])@.dom().finite(),
        forall|i: int| 0 <= i < l0.len() ==> sorted(keys_of((#[trigger] l0[i]).fwd_all())),
        forall|i: int| 0 <= i < ln.len() ==> sorted(keys_of(fwd_concat((#[trigger] ln[i])@, 0))),
    ensures
        sorted(keys_of(kmerge_fwd(memtable_scans(state)))),
        sorted(keys_of(kmerge_fwd(Seq::new(l0.len(), |i: int| l0.reverse()[i].fwd_all())))),
        sorted(keys_of(kmerge_fwd(Seq::new(ln.len(), |i: int| fwd_concat(ln[i]@, 0))))),
        sorted(keys_of(twomerge(
            kmerge_fwd(Seq::new(l0.len(), |i: int| l0.reverse()[i].fwd_all())),
            kmerge_fwd(Seq::new(ln.len(), |i: int| fwd_concat(ln[i]@, 0))),
        ))),
{
    let s0 = Seq::new(l0.len(), |i: int| l0.reverse()[i].fwd_all());
    let s1 = Seq::new(ln.len(), |i: int| fwd_concat(ln[i]@, 0));
    assert forall|i: int| 0 <= i < s0.len() implies sorted(keys_of(#[trigger] s0[i])) by {
        assert(l0.reverse()[i] == l0[l0.len() - 1 - i]);
    }
    assert forall|i: int| 0 <= i < s1.len() implies sorted(keys_of(#[trigger] s1[i])) by {
        assert(s1[i] == fwd_concat(ln[i]@, 0));
    }
    lemma_memtable_scans_sorted(state);
    crate::iterators::merge_iter::lemma_kmerge_fwd_sorted(memtable_scans(state));
    crate::iterators::merge_iter::lemma_kmerge_fwd_sorted(s0);
    crate::iterators::merge_iter::lemma_kmerge_fwd_sorted(s1);
    crate::iterators::two_merge_iter::lemma_twomerge_law_sorted(kmerge_fwd(s0), kmerge_fwd(s1));
}

/// A read sees the active memtable's write first: for a key the active
/// memtable holds, the merged read's first item with that key is the
/// active memtable's entry, whatever the older memtables and SSTs hold.
pub proof fn lemma_merged_active_first<R: BlockReader>(
    state: LsmState,
    l0: Seq<SstIter<R>>,
    ln: Seq<Vec<SstIter<R>>>,
    k: Seq<u8>,
)
    requires
        state.active_mem@.dom().finite(),
        forall|j: int| 0 <= j < state.imm_memtables@.len() ==> (#[trigger] state.imm_memtables@[j])@.dom().finite(),
        forall|i: int| 0 <= i < l0.len() ==> sorted(keys_of((#[trigger] l0[i]).fwd_all())),
        forall|i: int| 0 <= i < ln.len() ==> sorted(keys_of(fwd_concat((#[trigger] ln[i])@, 0))),
        state.active_mem@.dom().contains(k),
    ensures
        exists|n: int|
            first_with_key(merged_scan(state, l0, ln), k, n) && merged_scan(state, l0, ln)[n] == (
                k,
                state.active_mem@[k],
            ),
{
    lemma_tiers_sorted(state, l0, ln);
    lemma_active_mem_first(state, k);
    let a = kmerge_fwd(memtable_scans(state));
    let n = choose|n: int| first_with_key(a, k, n) && a[n] == (k, state.active_mem@[k]);
    let x = twomerge(
        kmerge_fwd(Seq::new(l0.len(), |i: int| l0.reverse()[i].fwd_all())),
        kmerge_fwd(Seq::new(ln.len(), |i: int| fwd_concat(ln[i]@, 0))),
    );
    crate::iterators::two_merge_iter::lemma_twomerge_first_from_a(a, x, k, n);
    assert(merged_scan(state, l0, ln) == twomerge(a, x));
}

/// A read sees the newest immutable memtable's write next: when the active
/// memtable lacks a key and `imm_memtables[i]` is the most recently
/// switched out memtable holding it, the merged read's first item with
/// that key is that memtable's entry.
pub proof fn lemma_merged_imm_first<R: BlockReader>(
    state: LsmState,
    l0: Seq<SstIter<R>>,
    ln: Seq<Vec<SstIter<R>>>,
    i: int,
    k: Seq<u8>,
)
    requires
        state.active_mem@.dom().finite(),
        forall|j: int| 0 <= j < state.imm_memtables@.len() ==> (#[trigger] state.imm_memtables@[j])@.dom().finite(),
        forall|j: int| 0 <= j < l0.len() ==> sorted(keys_of((#[trigger] l0[j]).fwd_all())),
        forall|j: int| 0 <= j < ln.len() ==> sorted(keys_of(fwd_concat((#[trigger] ln[j])@, 0))),
        !state.active_mem@.dom().contains(k),
        0 <= i < state.imm_memtables@.len(),
        state.imm_memtables@[i]@.dom().contains(k),
        forall|j: int| 0 <= j < i ==> !(#[trigger] state.imm_memtables@[j])@.dom().contains(k),
    ensures
        exists|n: int|
            first_with_key(merged_scan(state, l0, ln), k, n) && merged_scan(state, l0, ln)[n] == (
                k,
                state.imm_memtables@[i]@[k],
            ),
{
    lemma_tiers_sorted(state, l0, ln);
    lemma_imm_mem_newest_first(state, i, k);
    let a = kmerge_fwd(memtable_scans(state));
    let n = choose|n: int| first_with_key(a, k, n) && a[n] == (k, state.imm_memtables@[i]@[k]);
    let x = twomerge(
        kmerge_fwd(Seq::new(l0.len(), |i: int| l0.reverse()[i].fwd_all())),
        kmerge_fwd(Seq::new(ln.len(), |i: int| fwd_concat(ln[i]@, 0))),
    );
    crate::iterators::two_merge_iter::lemma_twomerge_first_from_a(a, x, k, n);
    assert(merged_scan(state, l0, ln) == twomerge(a, x));
}

/// No memtable scan holds a key that no memtable holds.
proof fn lemma_memtables_lack(state: LsmState, k: Seq<u8>)
    requires
        state.active_mem@.dom().finite(),
        forall|j: int| 0 <= j < state.imm_memtables@.len() ==> (#[trigger] state.imm_memtables@[j])@.dom().finite(),
        !state.active_mem@.dom().contains(k),
        forall|j: int| 0 <= j < state.imm_memtables@.len() ==> !(#[trigger] state.imm_memtables@[j])@.dom().contains(k),
    ensures
        !keys_of(kmerge_fwd(memtable_scans(state))).contains(k),
{
    let sc = memtable_scans(state);
    crate::iterators::merge_iter::lemma_kmerge_fwd_keys(sc, k);
    assert forall|j: int| 0 <= j < sc.len() implies !keys_of(#[trigger] sc[j]).contains(k) by {
        if j == 0 {
            lemma_table_key(state.active_mem@, k);
        } else {
            assert(sc[j] == table_items(state.imm_memtables@[j - 1]@));
            lemma_table_key(state.imm_memtables@[j - 1]@, k);
        }
    }
}

/// A read sees the newest level-0 SST's write when no memtable holds the
/// key: `l0` is in the state's order (oldest first), so when `l0[i]` holds
/// the key, first at `p`, and no later SST of level 0 holds it, the merged
/// read's first item with that key is `l0[i]`'s.
pub proof fn lemma_merged_l0_newest_first<R: BlockReader>(
    state: LsmState,
    l0: Seq<SstIter<R>>,
    ln: Seq<Vec<SstIter<R>>>,
    i: int,
    p: int,
    k: Seq<u8>,
)
    requires
        state.active_mem@.dom().finite(),
        forall|j: int| 0 <= j < state.imm_memtables@.len() ==> (#[trigger] state.imm_memtables@[j])@.dom().finite(),
        forall|j: int| 0 <= j < l0.len() ==> sorted(keys_of((#[trigger] l0[j]).fwd_all())),
        forall|j: int| 0 <= j < ln.len() ==> sorted(keys_of(fwd_concat((#[trigger] ln[j])@, 0))),
        !state.active_mem@.dom().contains(k),
        forall|j: int| 0 <= j < state.imm_memtables@.len() ==> !(#[trigger] state.imm_memtables@[j])@.dom().contains(k),
        0 <= i < l0.len(),
        first_with_key(l0[i].fwd_all(), k, p),
        forall|j: int| i < j < l0.len() ==> !keys_of((#[trigger] l0[j]).fwd_all()).contains(k),
    ensures
        exists|n: int|
            first_with_key(merged_scan(state, l0, ln), k, n) && merged_scan(state, l0, ln)[n]
                == l0[i].fwd_all()[p],
{
    lemma_tiers_sorted(state, l0, ln);
    lemma_memtables_lack(state, k);
    let s0 = Seq::new(l0.len(), |j: int| l0.reverse()[j].fwd_all());
    let s1 = Seq::new(ln.len(), |j: int| fwd_concat(ln[j]@, 0));
    let r = l0.len() - 1 - i;
    assert(s0[r] == l0[i].fwd_all()) by {
        assert(l0.reverse()[r] == l0[i]);
    }
    assert forall|j: int| 0 <= j < s0.len() implies sorted(keys_of(#[trigger] s0[j])) by {
        assert(l0.reverse()[j] == l0[l0.len() - 1 - j]);
    }
    assert forall|j: int| 0 <= j < r implies !keys_of(#[trigger] s0[j]).contains(k) by {
        assert(l0.reverse()[j] == l0[l0.len() - 1 - j]);
    }
    crate::iterators::merge_iter::lemma_kmerge_fwd_first_of_newest(s0, r, p, k);
    let b = kmerge_fwd(s0);
    let n = choose|n: int| first_with_key(b, k, n) && b[n] == l0[i].fwd_all()[p];
    crate::iterators::two_merge_iter::lemma_twomerge_first_from_a(b, kmerge_fwd(s1), k, n);
    let x = twomerge(b, kmerge_fwd(s1));
    let n2 = choose|n2: int| first_with_key(x, k, n2) && x[n2] == l0[i].fwd_all()[p];
    crate::iterators::two_merge_iter::lemma_twomerge_first_from_b(kmerge_fwd(memtable_scans(state)), x, k, n2);
    assert(merged_scan(state, l0, ln) == twomerge(kmerge_fwd(memtable_scans(state)), x));
}

/// Composes the merge iterator over the state's memtables, the iterators of
/// level 0's SSTs (`l0[i]` reads `state.levels[0].ssts[i]`, so oldest
/// first) and, for each deeper level, the iterators of its SSTs in key order
/// (`ln[i][j]` reads `state.levels[i + 1].ssts[j]`). Fails when positioning
/// an SST iterator fails.
pub fn build_merged_iter<'a, R: BlockReader>(
    state: &'a LsmState,
    l0: Vec<SstIter<R>>,
    ln: Vec<Vec<SstIter<R>>>,
) -> (r: StorageResult<MergedIter<'a, R>>)
    requires
        state.levels@.len() == 0 ==> l0@.len() == 0 && ln@.len() == 0,
        state.levels@.len() > 0 ==> l0@.len() == state.levels@[0].ssts@.len() && ln@.len()
            == state.levels@.len() - 1,
        forall|i: int| 0 <= i < ln@.len() ==> (#[trigger] ln@[i])@.len() == state.levels@[i + 1].ssts@.len(),
        forall|i: int| 0 <= i < l0@.len() ==> (#[trigger] l0@[i]).wf(),
        forall|i: int, j: int|
            0 <= i < ln@.len() && 0 <= j < ln@[i]@.len() ==> (#[trigger] ln@[i]@[j]).wf(),
    ensures
        (forall|i: int| 0 <= i < l0@.len() ==> (#[trigger] l0@[i]).fwd_faultless()) && (forall|i: int, j: int|
            0 <= i < ln@.len() && 0 <= j < ln@[i]@.len() ==> (#[trigger] ln@[i]@[j]).fwd_faultless())
            ==> r is Ok && r->Ok_0.fwd_faultless(),
        r matches Ok(m) ==> {
            &&& m.wf()
            &&& m.fwd_mode()
            &&& m.fwd_all() == merged_scan(*state, l0@, ln@)
        },
{
    let ghost l0_all = l0@;
    let ghost ln_all = ln@;
    let ghost ok = (forall|i: int| 0 <= i < l0@.len() ==> (#[trigger] l0@[i]).fwd_faultless()) && (forall|i: int, j: int|
        0 <= i < ln@.len() && 0 <= j < ln@[i]@.len() ==> (#[trigger] ln@[i]@[j]).fwd_faultless());
    let mut mem_iters: Vec<MapIter<OwnedMemTableIter<'a>>> = Vec::new();
    let first = MapIter::new(state.active_mem.iter());
    proof {
        lemma_mapped_scan(first);
    }
    mem_iters.push(first);
    let mut i: usize = 0;
    while i < state.imm_memtables.len()
        invariant
            i <= state.imm_memtables@.len(),
            mem_iters@.len() == i + 1,
            forall|k: int| 0 <= k <= i ==> (#[trigger] mem_iters@[k]).wf(),
            forall|k: int| 0 <= k <= i ==> (#[trigger] mem_iters@[k]).fwd_faultless(),
            forall|k: int|
                0 <= k <= i ==> (#[trigger] mem_iters@[k]).fwd_all() == memtable_scans(*state)[k],
        decreases state.imm_memtables@.len() - i,
    {
        let it = MapIter::new(state.imm_memtables[i].iter());
        proof {
            lemma_mapped_scan(it);
            assert(memtable_scans(*state)[i + 1] == table_items(state.imm_memtables@[i as int]@));
        }
        mem_iters.push(it);
        i = i + 1;
    }
    let ghost mem_all = mem_iters@;
    let mem_merge = MergeIter::new(mem_iters);
    proof {
        mem_merge.lemma_wf();
        mem_merge.lemma_scan_all();
        assert(Seq::new(mem_all.len(), |l: int| mem_all[l].fwd_all()) =~= memtable_scans(*state));
    }

    let mut l0 = l0;
    let mut newest_first: Vec<SstIter<R>> = Vec::new();
    while l0.len() > 0
        invariant
            newest_first@.len() + l0@.len() == l0_all.len(),
            l0@ == l0_all.take(l0@.len() as int),
            forall|k: int| 0 <= k < newest_first@.len() ==> #[trigger] newest_first@[k] == l0_all[l0_all.len() - 1 - k],
        decreases l0@.len(),
    {
        let x = l0.pop().unwrap();
        newest_first.push(x);
        assert(l0@ =~= l0_all.take(l0@.len() as int));
    }
    let ghost l0_rev = l0_all.reverse();
    assert(newest_first@ =~= l0_rev);
    let l0_merge = MergeIter::new(newest_first);
    proof {
        l0_merge.lemma_wf();
        l0_merge.lemma_scan_all();
    }

    let mut runs: Vec<ConcatIter<SstIter<R>>> = Vec::new();
    let mut ln = ln;
    let mut j: usize = 0;
    let n_levels: usize = ln.len();
    assert(ln_all.len() == n_levels);
    while ln.len() > 0
        invariant
            ln_all.len() <= usize::MAX,
            j + ln@.len() == ln_all.len(),
            ln@ == ln_all.skip(j as int),
            runs@.len() == j,
            forall|i: int, k: int|
                0 <= i < ln_all.len() && 0 <= k < ln_all[i]@.len() ==> (#[trigger] ln_all[i]@[k]).wf(),
            forall|k: int| 0 <= k < j ==> (#[trigger] runs@[k]).wf(),
            ok ==> forall|k: int| 0 <= k < j ==> (#[trigger] runs@[k]).fwd_faultless(),
            ok == ((forall|i: int| 0 <= i < l0_all.len() ==> (#[trigger] l0_all[i]).fwd_faultless()) && (forall|i: int, k: int|
                0 <= i < ln_all.len() && 0 <= k < ln_all[i]@.len() ==> (#[trigger] ln_all[i]@[k]).fwd_faultless())),
            forall|k: int| 0 <= k < j ==> (#[trigger] runs@[k]).fwd_all() == fwd_concat(ln_all[k]@, 0),
        decreases ln@.len(),
    {
        let level = ln.remove(0);
        let ghost parts = level@;
        assert(parts == ln_all[j as int]@);
        let run = ConcatIter::new(level);
        proof {
            run.lemma_wf();
            run.lemma_scan_all();
            if ok {
                assert forall|k: int| 0 <= k < run.parts().len() implies #[trigger] run.parts()[k].fwd_faultless() by {
                    assert(ln_all[j as int]@[k].fwd_faultless());
                }
            }
        }
        runs.push(run);
        assert(ln@ =~= ln_all.skip(j + 1));
        j = j + 1;
    }
    let ghost runs_all = runs@;
    let ln_merge = MergeIter::new(runs);
    proof {
        ln_merge.lemma_wf();
        ln_merge.lemma_scan_all();
        assert(Seq::new(runs_all.len(), |l: int| runs_all[l].fwd_all()) =~= Seq::new(
            ln_all.len(),
            |l: int| fwd_concat(ln_all[l]@, 0),
        ));
        assert(Seq::new(l0_all.len(), |l: int| l0_all.reverse()[l].fwd_all()) =~= Seq::new(
            l0_merge.inputs().len(),
            |l: int| l0_merge.inputs()[l].fwd_all(),
        ));
    }

    proof {
        assert(mem_merge.fwd_faultless());
        if ok {
            assert forall|k: int| 0 <= k < l0_merge.inputs().len() implies #[trigger] l0_merge.inputs()[k].fwd_faultless() by {
                assert(l0_rev[k].fwd_faultless());
            }
            assert forall|k: int| 0 <= k < ln_merge.inputs().len() implies #[trigger] ln_merge.inputs()[k].fwd_faultless() by {
                assert(runs_all[k].fwd_faultless());
            }
        }
    }
    let sst_merge = TwoMergeIter::new(l0_merge, ln_merge)?;
    TwoMergeIter::new(mem_merge, sst_merge)
}

/// Every entry of `m` fits in a block of `bs` bytes: its key fits, and so
/// does the data entry of a put.
pub open spec fn entries_fit(m: Map<Seq<u8>, Option<Seq<u8>>>, bs: nat) -> bool {
    forall|k: Seq<u8>|
        #[trigger] m.dom().contains(k) ==> {
            &&& key_fits(k.len(), bs)
            &&& (m[k] matches Some(v) ==> 12 + data_entry_size(k.len(), v.len()) < bs)
        }
}

/// Writes the entries of `imm`, in key order, to a fresh SST through
/// `builder`, and finishes it. The footer records the table's first and last
/// keys (empty for an empty table).
pub fn build_sst_from_memtable<S: SstWriter>(imm: &MemTable, builder: SstBuilder<S>) -> (r: StorageResult<(SstFooter, S)>)
    requires
        builder.wf(),
        builder.added().len() == 0,
        entries_fit(imm@, builder.spec_block_size()),
    ensures
        ({
            let ks = sorted_keys(imm@.dom());
            build_cost(ks.len() as int, builder.spec_block_size() as int) + 24 + (if ks.len() == 0 {
                0
            } else {
                ks[0].len() + ks.last().len()
            }) <= builder.writer_view().capacity() ==> r is Ok
        }),
        r matches Ok((footer, w)) ==> {
            let ks = sorted_keys(imm@.dom());
            &&& bytes_view(footer.first_key) == (if ks.len() == 0 {
                Seq::<u8>::empty()
            } else {
                ks[0]
            })
            &&& bytes_view(footer.last_key) == (if ks.len() == 0 {
                Seq::<u8>::empty()
            } else {
                ks.last()
            })
        },
        r matches Ok((footer, w)) ==> {
            let img = sst_image(builder.start_content(), table_items(imm@), builder.spec_block_size());
            &&& w.content() == img.3 + footer.encoded()
            &&& footer.root_index_block_position.offset == root_of(img)
            &&& footer.tree_height == img.2.len() as u32
        },
        r matches Ok((footer, w)) ==> (builder.spec_block_size() <= u32::MAX ==> decode_items(
            blocks_read(
                w.content(),
                sst_data_blocks(builder.start_content(), table_items(imm@), builder.spec_block_size()),
                builder.spec_block_size(),
            ),
        ) == table_items(imm@)),
{
    proof {
        builder.lemma_fresh_image();
    }
    let mut b = builder;
    let mut iter = imm.iter();
    let ghost m = imm@;
    let ghost ks = sorted_keys(m.dom());
    let ghost total = ks.len() as int;
    let ghost bs = b.spec_block_size() as int;
    let ghost k = cascade_cost(total + 2, bs);
    let ghost foot: int = if ks.len() == 0 {
        0int
    } else {
        (ks[0].len() + ks.last().len()) as int
    };
    let ghost ok = build_cost(total, bs) + 24 + foot <= b.writer_view().capacity();
    let ghost cap0 = b.writer_view().capacity();
    proof {
        b.lemma_levels();
        lemma_cascade_mono(0, total + 2, bs);
        lemma_cascade_add(0, 0, bs);
        lemma_cascade_add(0, 0, k);
    }
    proof {
        lemma_scan_all(&iter);
        lemma_items(m);
    }
    ForwardIter::seek_to_first(&mut iter)?;
    while iter.valid()
        invariant
            iter.wf(),
            iter.fwd_mode(),
            iter.fwd_all() == table_items(m),
            m.dom().finite(),
            b.wf(),
            entries_fit(m, b.spec_block_size()),
            keys_of(table_items(m)) == ks,
            forall|i: int| 0 <= i < ks.len() ==> #[trigger] table_items(m)[i] == (ks[i], m[ks[i]]),
            forall|i: int| 0 <= i < ks.len() ==> m.dom().contains(#[trigger] ks[i]),
            table_items(m).len() == ks.len(),
            b.added().len() + iter.fwd_rest().len() == ks.len(),
            iter.fwd_rest() == table_items(m).skip(b.added().len() as int),
            b.added() == ks.take(b.added().len() as int),
            b.index_levels() <= b.added().len(),
            b.spec_block_size() == bs,
            bs >= 0,
            k == cascade_cost(total + 2, bs),
            k >= 0,
            total == ks.len(),
            foot >= 0,
            ok ==> cap0 >= build_cost(total, bs) + 24 + foot,
            ok == (build_cost(total, bs) + 24 + foot <= cap0),
            cap0 == builder.writer_view().capacity(),
            bs == builder.spec_block_size(),
            ks == sorted_keys(imm@.dom()),
            foot == (if ks.len() == 0 {
                0int
            } else {
                (ks[0].len() + ks.last().len()) as int
            }),
            ok ==> b.writer_view().capacity() >= cap0 - cascade_cost(b.added().len() as int, k),
            b.image_ok(),
            b.entries() == table_items(m).take(b.added().len() as int),
            b.start_content() == builder.start_content(),
            b.spec_block_size() == builder.spec_block_size(),
        decreases iter.fwd_rest().len(),
    {
        proof {
            iter.lemma_fwd_head();
        }
        let ghost n = b.added().len() as int;
        let key = bytes_copy_from_slice(iter.key().unwrap());
        let value = iter.value().unwrap();
        proof {
            assert(iter.fwd_rest()[0] == table_items(m)[n]);
            assert(bytes_view(key) == ks[n]);
            assert(m.dom().contains(ks[n]));
        }
        proof {
            let i = b.added().len() as int;
            assert(iter.fwd_rest().len() > 0);
            lemma_cascade_mono((b.index_levels() + 2) as int, total + 2, bs);
            lemma_cascade_split(total, i, k);
            lemma_cascade_split(total - i, 1, k);
            lemma_cascade_add(0, 0, k);
            lemma_cascade_mono(0, total - i - 1, k);
            lemma_cascade_split(i + 1, i, k);
            lemma_finish_mono(0, total, bs);
            lemma_cascade_mono(0, 2, bs);
            lemma_cascade_add(0, 0, bs);
        }
        match value {
            Entry::Put(v) => {
                b.add(key, v)?;
            },
            Entry::Delete => {
                b.add_delete(key)?;
            },
        }
        let ghost before = iter.fwd_rest();
        ForwardIter::next(&mut iter)?;
        proof {
            assert(b.added() =~= ks.take(n + 1));
            assert(b.entries() =~= table_items(m).take(n + 1));
            assert(tail(before) =~= table_items(m).skip(n + 1));
        }
    }
    proof {
        iter.lemma_fwd_head();
        assert(b.added() =~= ks);
        assert(b.entries() =~= table_items(m));
        lemma_finish_mono(b.index_levels() as int, total, bs);
        lemma_cascade_add(0, 0, k);
    }
    let r = b.finish();
    proof {
        if r is Ok && bs <= u32::MAX {
            let (footer, w) = r->Ok_0;
            let es = table_items(m);
            assert forall|i: int| 0 <= i < es.len() implies entry_fits(#[trigger] es[i], bs as nat) by {
                assert(es[i] == (ks[i], m[ks[i]]));
                assert(m.dom().contains(ks[i]));
                crate::builder::data_block::lemma_stored_len(m[ks[i]].unwrap_or(Seq::empty()));
            }
            lemma_sst_reads_back_with(builder.start_content(), es, bs as nat, footer.encoded());
        }
    }
    r
}

/// Whether every entry of `imm` fits in a block of `bs` bytes (see
/// [`entries_fit`]), scanning the table in key order.
pub fn memtable_fits(imm: &MemTable, bs: usize) -> (ok: bool)
    ensures
        ok == entries_fit(imm@, bs as nat),
{
    let mut iter = imm.iter();
    let ghost m = imm@;
    proof {
        lemma_scan_all(&iter);
        lemma_items(m);
    }
    let ghost ks = sorted_keys(m.dom());
    if ForwardIter::seek_to_first(&mut iter).is_err() {
        return false;
    }
    let ghost mut seen: int = 0;
    while iter.valid()
        invariant
            iter.wf(),
            iter.fwd_mode(),
            iter.fwd_all() == table_items(m),
            m.dom().finite(),
            m == imm@,
            ks == sorted_keys(m.dom()),
            keys_of(table_items(m)) == ks,
            forall|i: int| 0 <= i < ks.len() ==> #[trigger] table_items(m)[i] == (ks[i], m[ks[i]]),
            forall|i: int| 0 <= i < ks.len() ==> m.dom().contains(#[trigger] ks[i]),
            forall|k: Seq<u8>| #[trigger] m.dom().contains(k) ==> ks.contains(k),
            table_items(m).len() == ks.len(),
            0 <= seen,
            seen + iter.fwd_rest().len() == ks.len(),
            iter.fwd_rest() == table_items(m).skip(seen),
            forall|i: int| 0 <= i < seen ==> {
                &&& key_fits((#[trigger] ks[i]).len(), bs as nat)
                &&& (m[ks[i]] matches Some(v) ==> 12 + data_entry_size(ks[i].len(), v.len()) < bs)
            },
        decreases iter.fwd_rest().len(),
    {
        proof {
            iter.lemma_fwd_head();
            assert(iter.fwd_rest()[0] == table_items(m)[seen]);
            assert(m.dom().contains(ks[seen]));
        }
        let key_len = iter.key().unwrap().len();
        let key_ok = key_len < bs && bs - key_len > 29;
        assert(key_len == ks[seen].len());
        let ghost entry_fits = key_fits(ks[seen].len(), bs as nat) && (m[ks[seen]] matches Some(v)
            ==> 12 + data_entry_size(ks[seen].len(), v.len()) < bs);
        let fits = match iter.value().unwrap() {
            Entry::Put(v) => {
                let value_len = crate::buf::bytes_as_slice(&v).len();
                assert(m[ks[seen]] == Some(bytes_view(v)));
                let f = key_ok && value_len < bs - key_len && bs - key_len - value_len > 22;
                assert(f == entry_fits);
                f
            },
            Entry::Delete => {
                assert(m[ks[seen]] is None);
                assert(key_ok == entry_fits);
                key_ok
            },
        };
        if !fits {
            proof {
                assert(m.dom().contains(ks[seen]));
                assert(!entries_fit(m, bs as nat));
            }
            return false;
        }
        ForwardIter::next(&mut iter).unwrap();
        proof {
            seen = seen + 1;
            assert(iter.fwd_rest() =~= table_items(m).skip(seen));
        }
    }
    proof {
        iter.lemma_fwd_head();
        assert forall|k: Seq<u8>| #[trigger] m.dom().contains(k) implies {
            &&& key_fits(k.len(), bs as nat)
            &&& (m[k] matches Some(v) ==> 12 + data_entry_size(k.len(), v.len()) < bs)
        } by {
            assert(ks.contains(k));
            let i = choose|i: int| 0 <= i < ks.len() && ks[i] == k;
            assert(ks[i] == k);
        }
    }
    true
}

/// Writes `imm` to a fresh SST through `builder` after checking that every
/// entry fits in a block: a table holding an entry too large for a block
/// is refused with `InvalidValue`, and nothing is written.
pub fn flush_memtable<S: SstWriter>(imm: &MemTable, builder: SstBuilder<S>) -> (r: StorageResult<(SstFooter, S)>)
    requires
        builder.wf(),
        builder.added().len() == 0,
    ensures
        !entries_fit(imm@, builder.spec_block_size()) ==> (r matches Err(e) && e is InvalidValue),
        entries_fit(imm@, builder.spec_block_size()) && ({
            let ks = sorted_keys(imm@.dom());
            build_cost(ks.len() as int, builder.spec_block_size() as int) + 24 + (if ks.len() == 0 {
                0
            } else {
                ks[0].len() + ks.last().len()
            }) <= builder.writer_view().capacity()
        }) ==> r is Ok,
        r matches Ok((footer, w)) ==> {
            let ks = sorted_keys(imm@.dom());
            &&& bytes_view(footer.first_key) == (if ks.len() == 0 {
                Seq::<u8>::empty()
            } else {
                ks[0]
            })
            &&& bytes_view(footer.last_key) == (if ks.len() == 0 {
                Seq::<u8>::empty()
            } else {
                ks.last()
            })
        },
        r matches Ok((footer, w)) ==> {
            let img = sst_image(builder.start_content(), table_items(imm@), builder.spec_block_size());
            &&& w.content() == img.3 + footer.encoded()
            &&& footer.root_index_block_position.offset == root_of(img)
            &&& footer.tree_height == img.2.len() as u32
        },
        r matches Ok((footer, w)) ==> (builder.spec_block_size() <= u32::MAX ==> decode_items(
            blocks_read(
                w.content(),
                sst_data_blocks(builder.start_content(), table_items(imm@), builder.spec_block_size()),
                builder.spec_block_size(),
            ),
        ) == table_items(imm@)),
{
    if !memtable_fits(imm, builder.block_size()) {
        return Err(crate::errors::StorageError::InvalidValue("entry too large for a block".to_owned()));
    }
    build_sst_from_memtable(imm, builder)
}

} // verus!
