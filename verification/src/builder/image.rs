//! The bytes an SST build writes, as a function of the entries added: the
//! streaming layout of data blocks and of the index levels above them.
//!
//! A build holds the entries of the pending data block, the pending
//! entries `(end key, child offset)` of each index level, and the bytes
//! written so far. A data block is written when the next entry would not
//! fit in it; its last key and offset become an entry of index level 0.
//! An index level is written the same way when its next entry would not
//! fit, and its last key and offset become an entry of the level above.

use vstd::prelude::*;
use crate::builder::data_block::{stored_entry, KIND_DELETE, KIND_PUT};
use crate::builder::index_block::stored_index_value;
use crate::format::{block_header_len, block_items, encode_block, fit_to, total_len, zip_items};
use crate::iterators::entry_decode_iter::{decode_items, decoded_entry, entry_header_ok};

verus! {

/// The pending entries of one index level: end keys and child offsets.
pub type Level = (Seq<Seq<u8>>, Seq<u64>);

/// A build in progress: pending data keys, their stored values, the index
/// levels (level 0 first), and everything written so far.
pub type Build = (Seq<Seq<u8>>, Seq<Seq<u8>>, Seq<Level>, Seq<u8>);

/// The bytes stored for an entry: a put's value or a tombstone.
pub open spec fn stored(e: Option<Seq<u8>>) -> Seq<u8> {
    match e {
        Some(v) => stored_entry(KIND_PUT, v),
        None => stored_entry(KIND_DELETE, Seq::empty()),
    }
}

/// The size a data block's entries take besides its fixed header.
pub open spec fn data_size(keys: Seq<Seq<u8>>, vals: Seq<Seq<u8>>) -> nat {
    total_len(keys, keys.len() as int) + total_len(vals, vals.len() as int) + 8 * keys.len()
}

/// The size an index block's entries take besides its fixed header.
pub open spec fn index_size(keys: Seq<Seq<u8>>) -> nat {
    total_len(keys, keys.len() as int) + 17 * keys.len()
}

/// The stored values naming the children at `children`.
pub open spec fn index_vals(children: Seq<u64>) -> Seq<Seq<u8>> {
    Seq::new(children.len(), |i: int| stored_index_value(children[i]))
}

/// The number of index levels from `level` up that hold entries.
pub open spec fn busy_from(lv: Seq<Level>, level: int) -> nat
    decreases lv.len() - level,
{
    if level >= lv.len() || level < 0 {
        0
    } else {
        (if lv[level].0.len() > 0 {
            1nat
        } else {
            0nat
        }) + busy_from(lv, level + 1)
    }
}

pub proof fn lemma_busy_from_update(lv: Seq<Level>, i: int, x: Level, level: int)
    requires
        0 <= i < level,
        i < lv.len(),
    ensures
        busy_from(lv.update(i, x), level) == busy_from(lv, level),
    decreases lv.len() - level,
{
    if 0 <= level < lv.len() {
        lemma_busy_from_update(lv, i, x, level + 1);
    }
}

pub proof fn lemma_busy_from_push(lv: Seq<Level>, x: Level, level: int)
    requires
        0 <= level,
        x.0.len() == 0,
    ensures
        busy_from(lv.push(x), level) == busy_from(lv, level),
    decreases lv.len() + 1 - level,
{
    if level < lv.len() {
        lemma_busy_from_push(lv, x, level + 1);
    } else if level == lv.len() {
        assert(busy_from(lv.push(x), level + 1) == 0);
    }
}

/// The index levels with level `level` begun (an empty level added on top
/// when it is the next one).
pub open spec fn begun(lv: Seq<Level>, level: nat) -> Seq<Level> {
    if level >= lv.len() {
        lv.push((Seq::empty(), Seq::empty()))
    } else {
        lv
    }
}

/// Adds the entry `(key, pos)` to index level `level`, writing the level
/// first when the entry would not fit in its block.
pub open spec fn add_index(b: Build, level: nat, key: Seq<u8>, pos: u64, bs: nat) -> Build
    decreases busy_from(b.2, level as int), 1nat,
{
    let lv0 = begun(b.2, level);
    let b1 = (b.0, b.1, lv0, b.3);
    let full = 12 + index_size(lv0[level as int].0) + key.len() + 17 > bs;
    proof {
        lemma_busy_from_push(b.2, (Seq::<Seq<u8>>::empty(), Seq::<u64>::empty()), level as int);
    }
    let b2 = if full && level < lv0.len() {
        flush_index(b1, level, bs)
    } else {
        b1
    };
    if level < b2.2.len() {
        let x = b2.2[level as int];
        (b2.0, b2.1, b2.2.update(level as int, (x.0.push(key), x.1.push(pos))), b2.3)
    } else {
        b2
    }
}

/// Writes index level `level` as a block, if it holds entries, and adds its
/// last key and offset to the level above.
pub open spec fn flush_index(b: Build, level: nat, bs: nat) -> Build
    decreases busy_from(b.2, level as int), 0nat,
{
    if level >= b.2.len() || b.2[level as int].0.len() == 0 {
        b
    } else {
        let x = b.2[level as int];
        let block = fit_to(encode_block(x.0, index_vals(x.1)), bs);
        let pos = b.3.len() as u64;
        let lv1 = b.2.update(level as int, (Seq::empty(), Seq::empty()));
        proof {
            lemma_busy_from_update(b.2, level as int, (Seq::<Seq<u8>>::empty(), Seq::<u64>::empty()), level + 1int);
        }
        add_index((b.0, b.1, lv1, b.3 + block), level + 1, x.0.last(), pos, bs)
    }
}

/// Writes the pending data block, if it holds entries, and adds its last
/// key and offset to index level 0.
pub open spec fn flush_data(b: Build, bs: nat) -> Build {
    if b.0.len() == 0 {
        b
    } else {
        let block = fit_to(encode_block(b.0, b.1), bs);
        let pos = b.3.len() as u64;
        add_index((Seq::empty(), Seq::empty(), b.2, b.3 + block), 0, b.0.last(), pos, bs)
    }
}

/// Adds one entry: the pending data block is written first when the entry
/// would not fit in it.
pub open spec fn add_entry(b: Build, key: Seq<u8>, val: Seq<u8>, bs: nat) -> Build {
    let b1 = if 12 + data_size(b.0, b.1) + key.len() + val.len() + 8 > bs {
        flush_data(b, bs)
    } else {
        b
    };
    (b1.0.push(key), b1.1.push(val), b1.2, b1.3)
}

/// The build after adding `entries` in order to a writer that held `start`.
pub open spec fn replay(start: Seq<u8>, entries: Seq<(Seq<u8>, Option<Seq<u8>>)>, bs: nat) -> Build
    decreases entries.len(),
{
    if entries.len() == 0 {
        (Seq::empty(), Seq::empty(), Seq::empty(), start)
    } else {
        let e = entries.last();
        add_entry(replay(start, entries.drop_last(), bs), e.0, stored(e.1), bs)
    }
}

/// Writes index levels `0..k`, lowest first.
pub open spec fn flush_upto(b: Build, k: nat, bs: nat) -> Build
    decreases k,
{
    if k == 0 {
        b
    } else {
        flush_index(flush_upto(b, (k - 1) as nat, bs), (k - 1) as nat, bs)
    }
}

/// A finished build: the pending data block is written, then every index
/// level that existed then, lowest first; a top level left with more than
/// one entry is written once more, so that one root entry remains.
pub open spec fn finished(b: Build, bs: nat) -> Build {
    let m1 = flush_data(b, bs);
    let m2 = flush_upto(m1, m1.2.len(), bs);
    let n = m2.2.len();
    if n > 0 && m2.2[n - 1].0.len() > 1 {
        flush_index(m2, (n - 1) as nat, bs)
    } else {
        m2
    }
}

/// The offset of a finished build's root index block (0 when it has none).
pub open spec fn root_of(b: Build) -> u64 {
    let n = b.2.len();
    if n > 0 && b.2[n - 1].1.len() > 0 {
        b.2[n - 1].1.last()
    } else {
        0
    }
}

/// Everything an SST build over `entries` writes before its footer, after
/// the writer's earlier content `start`.
pub open spec fn sst_image(start: Seq<u8>, entries: Seq<(Seq<u8>, Option<Seq<u8>>)>, bs: nat) -> Build {
    finished(replay(start, entries, bs), bs)
}

/// Adding an index entry keeps every level and leaves level `level`
/// begun and holding an entry.
pub proof fn lemma_add_index_len(b: Build, level: nat, key: Seq<u8>, pos: u64, bs: nat)
    requires
        level <= b.2.len(),
    ensures
        add_index(b, level, key, pos, bs).2.len() >= b.2.len(),
        add_index(b, level, key, pos, bs).2.len() > level,
        add_index(b, level, key, pos, bs).2[level as int].0.len() > 0,
    decreases busy_from(b.2, level as int), 1nat,
{
    let lv0 = begun(b.2, level);
    let b1 = (b.0, b.1, lv0, b.3);
    let full = 12 + index_size(lv0[level as int].0) + key.len() + 17 > bs;
    lemma_busy_from_push(b.2, (Seq::<Seq<u8>>::empty(), Seq::<u64>::empty()), level as int);
    if full && level < lv0.len() {
        lemma_flush_index_len(b1, level, bs);
    }
}

/// Writing an index level keeps every level; writing a level that holds
/// entries begins the level above it.
pub proof fn lemma_flush_index_len(b: Build, level: nat, bs: nat)
    ensures
        flush_index(b, level, bs).2.len() >= b.2.len(),
        level < b.2.len() && b.2[level as int].0.len() > 0 ==> flush_index(b, level, bs).2.len()
            >= level + 2,
    decreases busy_from(b.2, level as int), 0nat,
{
    if level < b.2.len() && b.2[level as int].0.len() > 0 {
        let x = b.2[level as int];
        let block = fit_to(encode_block(x.0, index_vals(x.1)), bs);
        let lv1 = b.2.update(level as int, (Seq::empty(), Seq::empty()));
        lemma_busy_from_update(
            b.2,
            level as int,
            (Seq::<Seq<u8>>::empty(), Seq::<u64>::empty()),
            level + 1int,
        );
        lemma_add_index_len((b.0, b.1, lv1, b.3 + block), level + 1, x.0.last(), b.3.len() as u64, bs);
    }
}

/// Writing the lowest `k` index levels keeps every level; when level 0
/// holds entries and is written, level 1 is begun.
proof fn lemma_flush_upto_len(b: Build, k: nat, bs: nat)
    ensures
        flush_upto(b, k, bs).2.len() >= b.2.len(),
        k >= 1 && b.2.len() >= 1 && b.2[0].0.len() > 0 ==> flush_upto(b, k, bs).2.len() >= 2,
    decreases k,
{
    if k > 0 {
        let p = flush_upto(b, (k - 1) as nat, bs);
        lemma_flush_upto_len(b, (k - 1) as nat, bs);
        lemma_flush_index_len(p, (k - 1) as nat, bs);
    }
}

/// An SST built over at least one entry has at least one index level
/// above its data blocks: its tree is at least two high.
pub proof fn lemma_image_height(start: Seq<u8>, entries: Seq<(Seq<u8>, Option<Seq<u8>>)>, bs: nat)
    requires
        entries.len() > 0,
    ensures
        sst_image(start, entries, bs).2.len() >= 2,
{
    let b = replay(start, entries, bs);
    assert(b.0.len() > 0);
    let m1 = flush_data(b, bs);
    let block = fit_to(encode_block(b.0, b.1), bs);
    lemma_add_index_len((Seq::empty(), Seq::empty(), b.2, b.3 + block), 0, b.0.last(), b.3.len() as u64, bs);
    lemma_flush_upto_len(m1, m1.2.len(), bs);
    let m2 = flush_upto(m1, m1.2.len(), bs);
    let n = m2.2.len();
    if n > 0 && m2.2[n - 1].0.len() > 1 {
        lemma_flush_index_len(m2, (n - 1) as nat, bs);
    }
}

/// A block's encoding takes its fixed header and what its entries take.
pub proof fn lemma_encode_len(keys: Seq<Seq<u8>>, vals: Seq<Seq<u8>>)
    requires
        keys.len() == vals.len(),
    ensures
        encode_block(keys, vals).len() == 12 + data_size(keys, vals),
{
    let n = keys.len();
    crate::format::lemma_offset_table_len(block_header_len(n), keys, n + 1int);
    crate::format::lemma_offset_table_len(block_header_len(n) + total_len(keys, n as int), vals, n + 1int);
    crate::format::lemma_concat_len(keys);
    crate::format::lemma_concat_len(vals);
    crate::codec::lemma_be_u32_roundtrip(n as u32);
}

/// What a build over `b` writes later starts with what `b` has written.
pub open spec fn extends(b: Build, c: Build) -> bool {
    &&& b.3.len() <= c.3.len()
    &&& c.3.subrange(0, b.3.len() as int) == b.3
}

/// Index work only appends to what is written.
pub proof fn lemma_add_index_extends(b: Build, level: nat, key: Seq<u8>, pos: u64, bs: nat)
    ensures
        extends(b, add_index(b, level, key, pos, bs)),
        add_index(b, level, key, pos, bs).0 == b.0,
        add_index(b, level, key, pos, bs).1 == b.1,
    decreases busy_from(b.2, level as int), 1nat,
{
    let lv0 = begun(b.2, level);
    let b1 = (b.0, b.1, lv0, b.3);
    let full = 12 + index_size(lv0[level as int].0) + key.len() + 17 > bs;
    lemma_busy_from_push(b.2, (Seq::<Seq<u8>>::empty(), Seq::<u64>::empty()), level as int);
    if full && level < lv0.len() {
        lemma_flush_index_extends(b1, level, bs);
    }
    assert(b.3.subrange(0, b.3.len() as int) =~= b.3);
}

/// Index work only appends to what is written.
pub proof fn lemma_flush_index_extends(b: Build, level: nat, bs: nat)
    ensures
        extends(b, flush_index(b, level, bs)),
        flush_index(b, level, bs).0 == b.0,
        flush_index(b, level, bs).1 == b.1,
    decreases busy_from(b.2, level as int), 0nat,
{
    assert(b.3.subrange(0, b.3.len() as int) =~= b.3);
    if level < b.2.len() && b.2[level as int].0.len() > 0 {
        let x = b.2[level as int];
        let block = fit_to(encode_block(x.0, index_vals(x.1)), bs);
        let lv1 = b.2.update(level as int, (Seq::empty(), Seq::empty()));
        lemma_busy_from_update(
            b.2,
            level as int,
            (Seq::<Seq<u8>>::empty(), Seq::<u64>::empty()),
            level + 1int,
        );
        let b2 = (b.0, b.1, lv1, b.3 + block);
        lemma_add_index_extends(b2, level + 1, x.0.last(), b.3.len() as u64, bs);
        let r = flush_index(b, level, bs);
        assert(r.3.subrange(0, b.3.len() as int) =~= r.3.subrange(0, b2.3.len() as int).subrange(
            0,
            b.3.len() as int,
        ));
        assert(b2.3.subrange(0, b.3.len() as int) =~= b.3);
    }
}

proof fn lemma_extends_trans(a: Build, b: Build, c: Build)
    requires
        extends(a, b),
        extends(b, c),
    ensures
        extends(a, c),
{
    assert(c.3.subrange(0, a.3.len() as int) =~= c.3.subrange(0, b.3.len() as int).subrange(
        0,
        a.3.len() as int,
    ));
}

proof fn lemma_flush_upto_extends(b: Build, k: nat, bs: nat)
    ensures
        extends(b, flush_upto(b, k, bs)),
    decreases k,
{
    if k == 0 {
        assert(b.3.subrange(0, b.3.len() as int) =~= b.3);
    } else {
        let p = flush_upto(b, (k - 1) as nat, bs);
        lemma_flush_upto_extends(b, (k - 1) as nat, bs);
        lemma_flush_index_extends(p, (k - 1) as nat, bs);
        lemma_extends_trans(b, p, flush_upto(b, k, bs));
    }
}

/// What a prefix of the written bytes holds stays as it was.
proof fn lemma_extends_slice(b: Build, c: Build, lo: int, hi: int)
    requires
        extends(b, c),
        0 <= lo <= hi <= b.3.len(),
    ensures
        c.3.subrange(lo, hi) == b.3.subrange(lo, hi),
{
    assert(c.3.subrange(lo, hi) =~= c.3.subrange(0, b.3.len() as int).subrange(lo, hi));
}

/// Adding a key and value to a data block adds their size.
proof fn lemma_data_size_push(keys: Seq<Seq<u8>>, vals: Seq<Seq<u8>>, k: Seq<u8>, v: Seq<u8>)
    ensures
        data_size(keys.push(k), vals.push(v)) == data_size(keys, vals) + k.len() + v.len() + 8,
{
    crate::format::lemma_total_len_push(keys, k, keys.len() as int);
    crate::format::lemma_total_len_push(vals, v, vals.len() as int);
}

/// A data block written: its offset, its keys and its stored values.
pub type DataBlock = (nat, Seq<Seq<u8>>, Seq<Seq<u8>>);

/// Whether adding `(key, val)` to the pending data block of `b` writes
/// that block first.
pub open spec fn data_full(b: Build, key: Seq<u8>, val: Seq<u8>, bs: nat) -> bool {
    12 + data_size(b.0, b.1) + key.len() + val.len() + 8 > bs
}

/// The data blocks a build over `entries` has written, in write order.
pub open spec fn data_log(start: Seq<u8>, entries: Seq<(Seq<u8>, Option<Seq<u8>>)>, bs: nat) -> Seq<DataBlock>
    decreases entries.len(),
{
    if entries.len() == 0 {
        Seq::empty()
    } else {
        let b = replay(start, entries.drop_last(), bs);
        let e = entries.last();
        let log = data_log(start, entries.drop_last(), bs);
        if data_full(b, e.0, stored(e.1), bs) && b.0.len() > 0 {
            log.push((b.3.len(), b.0, b.1))
        } else {
            log
        }
    }
}

/// The items of the data blocks in `log`, block after block.
pub open spec fn log_items(log: Seq<DataBlock>) -> Seq<(Seq<u8>, Seq<u8>)>
    decreases log.len(),
{
    if log.len() == 0 {
        Seq::empty()
    } else {
        log_items(log.drop_last()) + zip_items(log.last().1, log.last().2)
    }
}

/// The entries as a data block stores them: keys with stored values.
pub open spec fn stored_items(entries: Seq<(Seq<u8>, Option<Seq<u8>>)>) -> Seq<(Seq<u8>, Seq<u8>)> {
    Seq::new(entries.len(), |i: int| (entries[i].0, stored(entries[i].1)))
}

/// An entry fits in a data block of `bs` bytes by itself.
pub open spec fn entry_fits(e: (Seq<u8>, Option<Seq<u8>>), bs: nat) -> bool {
    12 + e.0.len() + stored(e.1).len() + 8 <= bs
}

/// The data block `d` is written whole in `out`, at its offset.
pub open spec fn block_at(out: Seq<u8>, d: DataBlock, bs: nat) -> bool {
    &&& d.0 + bs <= out.len()
    &&& out.subrange(d.0 as int, (d.0 + bs) as int) == fit_to(encode_block(d.1, d.2), bs)
    &&& d.1.len() == d.2.len()
    &&& 12 + data_size(d.1, d.2) <= bs
}

/// Writing the pending data block of `b` appends it whole, at the end of
/// what was written, and keeps every earlier data block.
proof fn lemma_flush_data_log(b: Build, log: Seq<DataBlock>, bs: nat)
    requires
        b.0.len() > 0,
        b.0.len() == b.1.len(),
        12 + data_size(b.0, b.1) <= bs,
        forall|i: int| 0 <= i < log.len() ==> block_at(b.3, #[trigger] log[i], bs),
    ensures
        forall|i: int|
            0 <= i < log.push((b.3.len(), b.0, b.1)).len() ==> block_at(
                flush_data(b, bs).3,
                #[trigger] log.push((b.3.len(), b.0, b.1))[i],
                bs,
            ),
        extends(b, flush_data(b, bs)),
        flush_data(b, bs).0.len() == 0,
        flush_data(b, bs).1.len() == 0,
{
    let block = fit_to(encode_block(b.0, b.1), bs);
    lemma_encode_len(b.0, b.1);
    crate::format::lemma_fit_to_prefix(encode_block(b.0, b.1), bs, 0, 0);
    let b2: Build = (Seq::empty(), Seq::empty(), b.2, b.3 + block);
    lemma_add_index_extends(b2, 0, b.0.last(), b.3.len() as u64, bs);
    let r = flush_data(b, bs);
    assert(extends(b, b2)) by {
        assert(b2.3.subrange(0, b.3.len() as int) =~= b.3);
    }
    lemma_extends_trans(b, b2, r);
    let l2 = log.push((b.3.len(), b.0, b.1));
    assert forall|i: int| 0 <= i < l2.len() implies block_at(r.3, #[trigger] l2[i], bs) by {
        if i < log.len() {
            assert(l2[i] == log[i]);
            lemma_extends_slice(b, r, log[i].0 as int, (log[i].0 + bs) as int);
        } else {
            lemma_extends_slice(b2, r, b.3.len() as int, (b.3.len() + bs) as int);
            assert(b2.3.subrange(b.3.len() as int, (b.3.len() + bs) as int) =~= block);
        }
    }
}

/// Replaying entries that each fit in a block: the pending data block
/// fits, every data block written is whole at its offset, and the items of
/// the written blocks followed by the pending ones are the entries, in
/// order.
#[verifier::rlimit(40)]
pub proof fn lemma_replay_log(start: Seq<u8>, entries: Seq<(Seq<u8>, Option<Seq<u8>>)>, bs: nat)
    requires
        forall|i: int| 0 <= i < entries.len() ==> entry_fits(#[trigger] entries[i], bs),
    ensures
        ({
            let b = replay(start, entries, bs);
            let log = data_log(start, entries, bs);
            &&& b.0.len() == b.1.len()
            &&& b.0.len() > 0 ==> 12 + data_size(b.0, b.1) <= bs
            &&& forall|i: int| 0 <= i < log.len() ==> block_at(b.3, #[trigger] log[i], bs)
            &&& log_items(log) + zip_items(b.0, b.1) == stored_items(entries)
            &&& start.len() <= b.3.len()
            &&& forall|i: int| 0 <= i < log.len() ==> start.len() <= (#[trigger] log[i]).0
            &&& forall|i: int, j: int| 0 <= i < j < log.len() ==> (#[trigger] log[i]).0 + bs <= (#[trigger] log[j]).0
        }),
    decreases entries.len(),
{
    if entries.len() == 0 {
        assert(log_items(Seq::<DataBlock>::empty()) + zip_items(Seq::empty(), Seq::empty()) =~= stored_items(entries));
    } else {
        let pre = entries.drop_last();
        assert forall|i: int| 0 <= i < pre.len() implies entry_fits(#[trigger] pre[i], bs) by {
            assert(pre[i] == entries[i]);
        }
        lemma_replay_log(start, pre, bs);
        let b0 = replay(start, pre, bs);
        let log0 = data_log(start, pre, bs);
        let e = entries.last();
        let v = stored(e.1);
        assert(entry_fits(entries[entries.len() - 1], bs));
        let full = data_full(b0, e.0, v, bs);
        let b1 = if full {
            flush_data(b0, bs)
        } else {
            b0
        };
        let b = replay(start, entries, bs);
        let log = data_log(start, entries, bs);
        assert(b == (b1.0.push(e.0), b1.1.push(v), b1.2, b1.3));
        if full && b0.0.len() > 0 {
            lemma_flush_data_log(b0, log0, bs);
            assert(log == log0.push((b0.3.len(), b0.0, b0.1)));
            assert(b1.0.len() == 0 && b1.1.len() == 0);
            lemma_data_size_push(b1.0, b1.1, e.0, v);
            assert(log.drop_last() =~= log0);
            assert(log_items(log) =~= log_items(log0) + zip_items(b0.0, b0.1));
            assert(zip_items(b.0, b.1) =~= seq![(e.0, v)]);
        } else {
            assert(log == log0);
            assert(b1 == b0);
            lemma_data_size_push(b1.0, b1.1, e.0, v);
            assert(zip_items(b.0, b.1) =~= zip_items(b0.0, b0.1).push((e.0, v)));
        }
        assert(stored_items(entries) =~= stored_items(pre).push((e.0, v)));
        assert(log_items(log) + zip_items(b.0, b.1) =~= stored_items(entries));
    }
}

/// The data blocks of an SST over `entries`, in write order: those written
/// while the entries were added, then the pending one written at finish.
pub open spec fn sst_data_blocks(start: Seq<u8>, entries: Seq<(Seq<u8>, Option<Seq<u8>>)>, bs: nat) -> Seq<DataBlock> {
    let b = replay(start, entries, bs);
    let log = data_log(start, entries, bs);
    if b.0.len() > 0 {
        log.push((b.3.len(), b.0, b.1))
    } else {
        log
    }
}

/// An SST's data blocks hold its entries: each is written whole at its
/// offset, after the writer's earlier content and after the blocks before
/// it, and reads back as its keys and stored values; read in write order,
/// they give every entry, in order.
pub proof fn lemma_sst_data_blocks(start: Seq<u8>, entries: Seq<(Seq<u8>, Option<Seq<u8>>)>, bs: nat)
    requires
        forall|i: int| 0 <= i < entries.len() ==> entry_fits(#[trigger] entries[i], bs),
        bs <= u32::MAX,
    ensures
        ({
            let img = sst_image(start, entries, bs);
            let d = sst_data_blocks(start, entries, bs);
            &&& forall|i: int|
                0 <= i < d.len() ==> {
                    &&& start.len() <= (#[trigger] d[i]).0
                    &&& d[i].0 + bs <= img.3.len()
                    &&& block_items(img.3.subrange(d[i].0 as int, (d[i].0 + bs) as int)) == zip_items(d[i].1, d[i].2)
                }
            &&& forall|i: int, j: int| 0 <= i < j < d.len() ==> (#[trigger] d[i]).0 + bs <= (#[trigger] d[j]).0
            &&& log_items(d) == stored_items(entries)
        }),
{
    lemma_replay_log(start, entries, bs);
    let b = replay(start, entries, bs);
    let log = data_log(start, entries, bs);
    let d = sst_data_blocks(start, entries, bs);
    let m1 = flush_data(b, bs);
    if b.0.len() > 0 {
        lemma_flush_data_log(b, log, bs);
        assert(d.drop_last() =~= log);
    } else {
        assert(m1 == b);
        assert(b.3.subrange(0, b.3.len() as int) =~= b.3);
        assert(log_items(log) + zip_items(b.0, b.1) =~= log_items(log));
    }
    assert(forall|i: int| 0 <= i < d.len() ==> block_at(m1.3, #[trigger] d[i], bs));
    let m2 = flush_upto(m1, m1.2.len(), bs);
    lemma_flush_upto_extends(m1, m1.2.len(), bs);
    let img = sst_image(start, entries, bs);
    let n = m2.2.len();
    if n > 0 && m2.2[n - 1].0.len() > 1 {
        lemma_flush_index_extends(m2, (n - 1) as nat, bs);
        lemma_extends_trans(m1, m2, img);
    } else {
        assert(img == m2);
    }
    assert forall|i: int| 0 <= i < d.len() implies {
        &&& start.len() <= (#[trigger] d[i]).0
        &&& d[i].0 + bs <= img.3.len()
        &&& block_items(img.3.subrange(d[i].0 as int, (d[i].0 + bs) as int)) == zip_items(d[i].1, d[i].2)
    } by {
        assert(block_at(m1.3, d[i], bs));
        lemma_extends_slice(m1, img, d[i].0 as int, (d[i].0 + bs) as int);
        lemma_encode_len(d[i].1, d[i].2);
        crate::format::lemma_block_roundtrip(d[i].1, d[i].2, bs);
        if i == log.len() {
            assert(d[i].0 == b.3.len());
        } else {
            assert(d[i] == log[i]);
        }
    }
    assert forall|i: int, j: int| 0 <= i < j < d.len() implies (#[trigger] d[i]).0 + bs <= (#[trigger] d[j]).0 by {
        if j == log.len() {
            assert(d[i] == log[i]);
            assert(block_at(b.3, log[i], bs));
        } else {
            assert(d[i] == log[i] && d[j] == log[j]);
        }
    }
}

/// What a build stores for an entry decodes back to that entry: a put of
/// any value, the empty one included, reads as that put, and a tombstone
/// reads as a tombstone.
pub proof fn lemma_stored_roundtrip(e: Option<Seq<u8>>)
    ensures
        entry_header_ok(stored(e)),
        decoded_entry(stored(e)) == e,
{
    match e {
        Some(v) => {
            assert(stored(e).skip(2) =~= v);
        },
        None => {},
    }
}

/// The items of the blocks `d` as read from `out`, block after block.
pub open spec fn blocks_read(out: Seq<u8>, d: Seq<DataBlock>, bs: nat) -> Seq<(Seq<u8>, Seq<u8>)>
    decreases d.len(),
{
    if d.len() == 0 {
        Seq::empty()
    } else {
        blocks_read(out, d.drop_last(), bs) + block_items(
            out.subrange(d.last().0 as int, (d.last().0 + bs) as int),
        )
    }
}

proof fn lemma_blocks_read_log(out: Seq<u8>, d: Seq<DataBlock>, bs: nat)
    requires
        forall|i: int|
            0 <= i < d.len() ==> block_items(
                out.subrange((#[trigger] d[i]).0 as int, (d[i].0 + bs) as int),
            ) == zip_items(d[i].1, d[i].2),
    ensures
        blocks_read(out, d, bs) == log_items(d),
    decreases d.len(),
{
    if d.len() > 0 {
        let p = d.drop_last();
        assert forall|i: int| 0 <= i < p.len() implies block_items(
            out.subrange((#[trigger] p[i]).0 as int, (p[i].0 + bs) as int),
        ) == zip_items(p[i].1, p[i].2) by {
            assert(p[i] == d[i]);
        }
        lemma_blocks_read_log(out, p, bs);
        assert(d.last() == d[d.len() - 1]);
    }
}

/// An SST reads back as the entries written: decoding, in write order, the
/// items of the data blocks read from the bytes the build writes gives
/// every entry added, in order, puts as puts (with their values, empty ones
/// included) and tombstones as tombstones.
pub proof fn lemma_sst_entries_read_back(start: Seq<u8>, entries: Seq<(Seq<u8>, Option<Seq<u8>>)>, bs: nat)
    requires
        forall|i: int| 0 <= i < entries.len() ==> entry_fits(#[trigger] entries[i], bs),
        bs <= u32::MAX,
    ensures
        decode_items(blocks_read(sst_image(start, entries, bs).3, sst_data_blocks(start, entries, bs), bs))
            == entries,
{
    lemma_sst_data_blocks(start, entries, bs);
    let img = sst_image(start, entries, bs);
    let d = sst_data_blocks(start, entries, bs);
    lemma_blocks_read_log(img.3, d, bs);
    let st = stored_items(entries);
    assert forall|i: int| 0 <= i < entries.len() implies #[trigger] decode_items(st)[i] == entries[i] by {
        lemma_stored_roundtrip(entries[i].1);
    }
    assert(decode_items(st) =~= entries);
}

/// Bytes written after an SST's blocks change nothing of what its data
/// blocks read back: the entries added, in order.
pub proof fn lemma_sst_reads_back_with(
    start: Seq<u8>,
    entries: Seq<(Seq<u8>, Option<Seq<u8>>)>,
    bs: nat,
    extra: Seq<u8>,
)
    requires
        forall|i: int| 0 <= i < entries.len() ==> entry_fits(#[trigger] entries[i], bs),
        bs <= u32::MAX,
    ensures
        decode_items(
            blocks_read(sst_image(start, entries, bs).3 + extra, sst_data_blocks(start, entries, bs), bs),
        ) == entries,
{
    lemma_sst_data_blocks(start, entries, bs);
    lemma_sst_entries_read_back(start, entries, bs);
    let out = sst_image(start, entries, bs).3;
    let d = sst_data_blocks(start, entries, bs);
    assert forall|i: int| 0 <= i < d.len() implies block_items(
        (out + extra).subrange((#[trigger] d[i]).0 as int, (d[i].0 + bs) as int),
    ) == zip_items(d[i].1, d[i].2) by {
        assert((out + extra).subrange(d[i].0 as int, (d[i].0 + bs) as int) =~= out.subrange(
            d[i].0 as int,
            (d[i].0 + bs) as int,
        ));
    }
    lemma_blocks_read_log(out + extra, d, bs);
    lemma_blocks_read_log(out, d, bs);
}

} // verus!
