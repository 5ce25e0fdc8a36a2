//! The block layout shared by data and index blocks.
//!
//! ```text
//! [entry_count: u32 BE]
//! [key_offset_0: u32 BE] ... [key_offset_{n-1}: u32 BE] [key_end_sentinel: u32 BE]
//! [val_offset_0: u32 BE] ... [val_offset_{n-1}: u32 BE] [val_end_sentinel: u32 BE]
//! [key bytes ...] [value bytes ...]
//! ```
//! A block is then padded with zeros (or cut) to the block size.

use vstd::prelude::*;
use crate::codec::{be_u32, be_value, lemma_be_u32_roundtrip};

verus! {

/// Sum of the lengths of the first `i` byte strings of `s`.
pub open spec fn total_len(s: Seq<Seq<u8>>, i: int) -> nat
    decreases i,
{
    if i <= 0 {
        0
    } else {
        total_len(s, i - 1) + s[i - 1].len()
    }
}

/// All byte strings of `s`, one after the other.
pub open spec fn concat(s: Seq<Seq<u8>>) -> Seq<u8>
    decreases s.len(),
{
    if s.len() == 0 {
        Seq::empty()
    } else {
        concat(s.drop_last()) + s.last()
    }
}

/// The first `i` entries of the offset table of `s` placed at `base`:
/// entry `j` is `base + total_len(s, j)`, as a 4-byte big-endian `u32`.
pub open spec fn offset_table(base: nat, s: Seq<Seq<u8>>, i: int) -> Seq<u8>
    decreases i,
{
    if i <= 0 {
        Seq::empty()
    } else {
        offset_table(base, s, i - 1) + be_u32((base + total_len(s, i - 1)) as u32)
    }
}

/// Length of the header of a block with `n` entries.
pub open spec fn block_header_len(n: nat) -> nat {
    4 + (n + 1) * 8
}

/// The unpadded encoding of a block holding `keys[i] -> vals[i]`.
pub open spec fn encode_block(keys: Seq<Seq<u8>>, vals: Seq<Seq<u8>>) -> Seq<u8> {
    let n = keys.len();
    let h = block_header_len(n);
    let vbase = h + total_len(keys, n as int);
    be_u32(n as u32) + offset_table(h, keys, n + 1int) + offset_table(vbase, vals, n + 1int) + concat(
        keys,
    ) + concat(vals)
}

/// `s` cut or zero-padded to exactly `size` bytes.
pub open spec fn fit_to(s: Seq<u8>, size: nat) -> Seq<u8> {
    if size <= s.len() {
        s.subrange(0, size as int)
    } else {
        s + Seq::new((size - s.len()) as nat, |i: int| 0u8)
    }
}

// ── Reading a block ──

/// The 4-byte big-endian field at byte `off`.
pub open spec fn field_u32(b: Seq<u8>, off: int) -> nat {
    be_value(b.subrange(off, off + 4))
}

/// Number of entries recorded in the block.
pub open spec fn block_count(b: Seq<u8>) -> nat {
    field_u32(b, 0)
}

/// Start of key `i` (`i == count` reads the key sentinel).
pub open spec fn block_key_off(b: Seq<u8>, i: int) -> nat {
    field_u32(b, 4 + 4 * i)
}

/// Start of value `i` (`i == count` reads the value sentinel).
pub open spec fn block_val_off(b: Seq<u8>, i: int) -> nat {
    field_u32(b, 4 + 4 * (block_count(b) + 1) + 4 * i)
}

/// The header (count and both offset tables) lies inside the block.
pub open spec fn block_header_fits(b: Seq<u8>) -> bool {
    &&& 4 <= b.len()
    &&& block_header_len(block_count(b)) <= b.len()
}

/// Every key and value range named by the header lies inside the block.
pub open spec fn block_wf(b: Seq<u8>) -> bool {
    &&& block_header_fits(b)
    &&& forall|i: int|
        0 <= i < block_count(b) ==> #[trigger] block_key_off(b, i) <= block_key_off(b, i + 1)
    &&& forall|i: int|
        0 <= i < block_count(b) ==> #[trigger] block_val_off(b, i) <= block_val_off(b, i + 1)
    &&& block_key_off(b, block_count(b) as int) <= b.len()
    &&& block_val_off(b, block_count(b) as int) <= b.len()
}

/// Key `i` of a block.
pub open spec fn block_key(b: Seq<u8>, i: int) -> Seq<u8> {
    b.subrange(block_key_off(b, i) as int, block_key_off(b, i + 1) as int)
}

/// Value `i` of a block.
pub open spec fn block_val(b: Seq<u8>, i: int) -> Seq<u8> {
    b.subrange(block_val_off(b, i) as int, block_val_off(b, i + 1) as int)
}

/// The keys of a block, in block order.
pub open spec fn block_keys(b: Seq<u8>) -> Seq<Seq<u8>> {
    Seq::new(block_count(b), |i: int| block_key(b, i))
}

/// The values of a block, in block order.
pub open spec fn block_vals(b: Seq<u8>) -> Seq<Seq<u8>> {
    Seq::new(block_count(b), |i: int| block_val(b, i))
}

// ── Lemmas ──

pub proof fn lemma_total_len_push(s: Seq<Seq<u8>>, x: Seq<u8>, i: int)
    requires
        0 <= i <= s.len(),
    ensures
        total_len(s.push(x), i) == total_len(s, i),
    decreases i,
{
    if i > 0 {
        lemma_total_len_push(s, x, i - 1);
    }
}

pub proof fn lemma_total_len_mono(s: Seq<Seq<u8>>, i: int, j: int)
    requires
        i <= j,
    ensures
        total_len(s, i) <= total_len(s, j),
    decreases j - i,
{
    if i < j {
        lemma_total_len_mono(s, i, j - 1);
    }
}

pub proof fn lemma_concat_len(s: Seq<Seq<u8>>)
    ensures
        concat(s).len() == total_len(s, s.len() as int),
    decreases s.len(),
{
    if s.len() > 0 {
        lemma_concat_len(s.drop_last());
        lemma_total_len_drop_last(s, s.len() - 1);
    }
}

pub proof fn lemma_total_len_drop_last(s: Seq<Seq<u8>>, i: int)
    requires
        0 <= i < s.len(),
    ensures
        total_len(s.drop_last(), i) == total_len(s, i),
    decreases i,
{
    if i > 0 {
        lemma_total_len_drop_last(s, i - 1);
    }
}

pub proof fn lemma_offset_table_len(base: nat, s: Seq<Seq<u8>>, i: int)
    requires
        i >= 0,
    ensures
        offset_table(base, s, i).len() == 4 * i,
    decreases i,
{
    if i > 0 {
        lemma_offset_table_len(base, s, i - 1);
        lemma_be_u32_roundtrip((base + total_len(s, i - 1)) as u32);
    }
}


/// A slice of `a + b` that lies inside one of the two parts.
pub proof fn lemma_subrange_of_add(a: Seq<u8>, b: Seq<u8>, lo: int, hi: int)
    requires
        0 <= lo <= hi <= a.len() + b.len(),
    ensures
        hi <= a.len() ==> (a + b).subrange(lo, hi) == a.subrange(lo, hi),
        a.len() <= lo ==> (a + b).subrange(lo, hi) == b.subrange(lo - a.len(), hi - a.len()),
{
    if hi <= a.len() {
        assert((a + b).subrange(lo, hi) =~= a.subrange(lo, hi));
    }
    if a.len() <= lo {
        assert((a + b).subrange(lo, hi) =~= b.subrange(lo - a.len(), hi - a.len()));
    }
}

/// Entry `j` of an offset table reads back as the offset it was written from.
pub proof fn lemma_offset_table_entry(base: nat, s: Seq<Seq<u8>>, m: int, j: int)
    requires
        0 <= j < m,
    ensures
        offset_table(base, s, m).subrange(4 * j, 4 * j + 4) == be_u32(
            (base + total_len(s, j)) as u32,
        ),
    decreases m,
{
    let prev = offset_table(base, s, m - 1);
    let last = be_u32((base + total_len(s, m - 1)) as u32);
    lemma_offset_table_len(base, s, m - 1);
    lemma_be_u32_roundtrip((base + total_len(s, m - 1)) as u32);
    lemma_subrange_of_add(prev, last, 4 * j, 4 * j + 4);
    if j < m - 1 {
        lemma_offset_table_entry(base, s, m - 1, j);
    } else {
        assert(last.subrange(0, 4) =~= last);
    }
}

/// Piece `i` of a concatenation starts at `total_len(s, i)`.
pub proof fn lemma_concat_piece(s: Seq<Seq<u8>>, i: int)
    requires
        0 <= i < s.len(),
    ensures
        total_len(s, i) + s[i].len() == total_len(s, i + 1),
        total_len(s, i + 1) <= concat(s).len(),
        concat(s).subrange(total_len(s, i) as int, total_len(s, i + 1) as int) == s[i],
    decreases s.len(),
{
    let n = s.len() as int;
    let d = s.drop_last();
    lemma_concat_len(d);
    lemma_concat_len(s);
    lemma_total_len_drop_last(s, n - 1);
    lemma_total_len_mono(s, i + 1, n);
    lemma_subrange_of_add(
        concat(d),
        s.last(),
        total_len(s, i) as int,
        total_len(s, i + 1) as int,
    );
    if i < n - 1 {
        lemma_concat_piece(d, i);
        lemma_total_len_drop_last(s, i);
        lemma_total_len_drop_last(s, i + 1);
    } else {
        assert(s.last().subrange(0, s.last().len() as int) =~= s.last());
    }
}

/// The items of a block: its keys paired with its values.
pub open spec fn block_items(b: Seq<u8>) -> Seq<(Seq<u8>, Seq<u8>)> {
    Seq::new(block_count(b), |i: int| (block_key(b, i), block_val(b, i)))
}

/// Pairs `keys[i]` with `vals[i]`.
pub open spec fn zip_items(keys: Seq<Seq<u8>>, vals: Seq<Seq<u8>>) -> Seq<(Seq<u8>, Seq<u8>)> {
    Seq::new(keys.len(), |i: int| (keys[i], vals[i]))
}

/// What `fit_to` keeps of `s` when there is room for all of it.
pub proof fn lemma_fit_to_prefix(s: Seq<u8>, size: nat, lo: int, hi: int)
    requires
        s.len() <= size,
        0 <= lo <= hi <= s.len(),
    ensures
        fit_to(s, size).len() == size,
        fit_to(s, size).subrange(lo, hi) == s.subrange(lo, hi),
{
    assert(fit_to(s, size).subrange(lo, hi) =~= s.subrange(lo, hi));
}

/// A block encoded from `keys` and `vals`, padded to any size it fits in,
/// reads back as well-formed with exactly those keys and values.
pub proof fn lemma_block_roundtrip(keys: Seq<Seq<u8>>, vals: Seq<Seq<u8>>, size: nat)
    requires
        keys.len() == vals.len(),
        encode_block(keys, vals).len() <= size,
        encode_block(keys, vals).len() <= u32::MAX,
    ensures
        block_wf(fit_to(encode_block(keys, vals), size)),
        block_keys(fit_to(encode_block(keys, vals), size)) == keys,
        block_vals(fit_to(encode_block(keys, vals), size)) == vals,
        block_items(fit_to(encode_block(keys, vals), size)) == zip_items(keys, vals),
{
    let n = keys.len();
    let ni = n as int;
    let h = block_header_len(n);
    let vbase = h + total_len(keys, ni);
    let p = be_u32(n as u32);
    let kt = offset_table(h, keys, ni + 1);
    let vt = offset_table(vbase, vals, ni + 1);
    let ck = concat(keys);
    let cv = concat(vals);
    let enc = encode_block(keys, vals);
    let b = fit_to(enc, size);
    lemma_be_u32_roundtrip(n as u32);
    lemma_offset_table_len(h, keys, ni + 1);
    lemma_offset_table_len(vbase, vals, ni + 1);
    lemma_concat_len(keys);
    lemma_concat_len(vals);
    assert(enc == p + kt + vt + ck + cv);
    let pk = p + kt;
    let pkv = pk + vt;
    let pkvk = pkv + ck;
    assert(pkv.len() == h);
    assert(enc.len() == h + total_len(keys, ni) + total_len(vals, ni));
    // The count.
    lemma_fit_to_prefix(enc, size, 0, 4);
    lemma_subrange_of_add(pkvk, cv, 0, 4);
    lemma_subrange_of_add(pkv, ck, 0, 4);
    lemma_subrange_of_add(pk, vt, 0, 4);
    lemma_subrange_of_add(p, kt, 0, 4);
    assert(p.subrange(0, 4) =~= p);
    assert(block_count(b) == n);
    assert(block_header_fits(b));
    // Key offsets.
    assert forall|i: int| 0 <= i <= ni implies #[trigger] block_key_off(b, i) == h + total_len(
        keys,
        i,
    ) by {
        lemma_total_len_mono(keys, i, ni);
        lemma_fit_to_prefix(enc, size, 4 + 4 * i, 8 + 4 * i);
        lemma_subrange_of_add(pkvk, cv, 4 + 4 * i, 8 + 4 * i);
        lemma_subrange_of_add(pkv, ck, 4 + 4 * i, 8 + 4 * i);
        lemma_subrange_of_add(pk, vt, 4 + 4 * i, 8 + 4 * i);
        lemma_subrange_of_add(p, kt, 4 + 4 * i, 8 + 4 * i);
        lemma_offset_table_entry(h, keys, ni + 1, i);
        lemma_be_u32_roundtrip((h + total_len(keys, i)) as u32);
    }
    // Value offsets.
    assert forall|i: int| 0 <= i <= ni implies #[trigger] block_val_off(b, i) == vbase
        + total_len(vals, i) by {
        let lo = 4 + 4 * (ni + 1) + 4 * i;
        lemma_total_len_mono(vals, i, ni);
        lemma_fit_to_prefix(enc, size, lo, lo + 4);
        lemma_subrange_of_add(pkvk, cv, lo, lo + 4);
        lemma_subrange_of_add(pkv, ck, lo, lo + 4);
        lemma_subrange_of_add(pk, vt, lo, lo + 4);
        lemma_offset_table_entry(vbase, vals, ni + 1, i);
        lemma_be_u32_roundtrip((vbase + total_len(vals, i)) as u32);
    }
    assert forall|i: int| 0 <= i < ni implies #[trigger] block_key_off(b, i) <= block_key_off(
        b,
        i + 1,
    ) by {
        lemma_total_len_mono(keys, i, i + 1);
    }
    assert forall|i: int| 0 <= i < ni implies #[trigger] block_val_off(b, i) <= block_val_off(
        b,
        i + 1,
    ) by {
        lemma_total_len_mono(vals, i, i + 1);
    }
    assert(block_key_off(b, ni) == h + total_len(keys, ni));
    assert(block_val_off(b, ni) == vbase + total_len(vals, ni));
    assert(block_wf(b));
    // Keys.
    assert forall|i: int| 0 <= i < ni implies #[trigger] block_key(b, i) == keys[i] by {
        lemma_concat_piece(keys, i);
        let lo = h + total_len(keys, i);
        let hi = h + total_len(keys, i + 1);
        assert(block_key_off(b, i) == lo);
        assert(block_key_off(b, i + 1) == hi);
        lemma_fit_to_prefix(enc, size, lo as int, hi as int);
        lemma_subrange_of_add(pkvk, cv, lo as int, hi as int);
        lemma_subrange_of_add(pkv, ck, lo as int, hi as int);
    }
    // Values.
    assert forall|i: int| 0 <= i < ni implies #[trigger] block_val(b, i) == vals[i] by {
        lemma_concat_piece(vals, i);
        let lo = vbase + total_len(vals, i);
        let hi = vbase + total_len(vals, i + 1);
        assert(block_val_off(b, i) == lo);
        assert(block_val_off(b, i + 1) == hi);
        lemma_fit_to_prefix(enc, size, lo as int, hi as int);
        lemma_subrange_of_add(pkvk, cv, lo as int, hi as int);
    }
    assert(block_keys(b) =~= keys);
    assert(block_vals(b) =~= vals);
    assert(block_items(b) =~= zip_items(keys, vals));
}


/// In a well-formed block every key and value range ends inside the block.
pub proof fn lemma_block_ranges(b: Seq<u8>, i: int)
    requires
        block_wf(b),
        0 <= i <= block_count(b),
    ensures
        block_key_off(b, i) <= block_key_off(b, block_count(b) as int) <= b.len(),
        block_val_off(b, i) <= block_val_off(b, block_count(b) as int) <= b.len(),
    decreases block_count(b) - i,
{
    if i < block_count(b) {
        lemma_block_ranges(b, i + 1);
        assert(block_key_off(b, i) <= block_key_off(b, i + 1));
        assert(block_val_off(b, i) <= block_val_off(b, i + 1));
    }
}

} // verus!
