//! Iterator over the entries of an SST: it walks the leaf entries of the
//! index tree and, for the current one, the data block it names.

use vstd::prelude::*;
use std::sync::Arc;
use crate::block::{BlockReader, Position};
use crate::buf::bytes_view;
use crate::builder::footer::SstFooter;
use crate::builder::sst::SstOption;
use crate::errors::{StorageError, StorageResult};
use crate::format::block_items;
use crate::iterators::block_iter::NormalBlockIter;
use crate::iterators::entry_decode_iter::{
    decode_items, entry_header_ok, headers_ok, EntryDecodeIter, EntryValue,
};
use crate::iterators::index_tree::{child_of, data_ok, node, tree_ok};
use crate::iterators::index_tree_iter::{index_sound, leaves_all, IndexTreeIter};
use crate::iterators::storage_iter::{
    leaf_fwd_seek, leaf_rev_seek, lemma_lower_bound_range, lemma_upper_bound_range, keys_of,
    lower_bound, tail, upper_bound, ForwardIter, IterBase, IterRead, ReverseIter,
};
use crate::std_types::share;
use crate::builder::index_block::{INDEX_VALUE_LEN, INDEX_VALUE_VERSION};
use crate::codec::read_u64_be;
use crate::builder::data_block::{DATA_ENTRY_VERSION, KIND_DELETE, KIND_PUT};
use crate::iterators::index_entry_decode_iter::index_header_ok;
use crate::row_key::{
    bytes_le, lemma_lex_irrefl, lemma_lex_total, lemma_lex_trans, lex_le, lex_lt, sorted,
};
use crate::format::block_wf;

verus! {

/// The decoder over one data block.
pub type DataIter = EntryDecodeIter<NormalBlockIter>;

/// The decoded entries of the data block at `pos`.
pub open spec fn block_data(src: Seq<u8>, bs: nat, pos: u64) -> Seq<(Seq<u8>, Option<Seq<u8>>)> {
    decode_items(block_items(node(src, bs, pos)))
}

/// The entries of the data blocks the leaf entries `es` name, one block
/// after the other.
pub open spec fn blocks_data(src: Seq<u8>, bs: nat, es: Seq<(Seq<u8>, u64)>) -> Seq<
    (Seq<u8>, Option<Seq<u8>>),
>
    decreases es.len(),
{
    if es.len() == 0 {
        Seq::empty()
    } else {
        block_data(src, bs, es[0].1) + blocks_data(src, bs, es.drop_first())
    }
}

/// The decoded entries of the data block at `pos`, last first.
pub open spec fn block_data_r(src: Seq<u8>, bs: nat, pos: u64) -> Seq<(Seq<u8>, Option<Seq<u8>>)> {
    decode_items(block_items(node(src, bs, pos)).reverse())
}

/// The entries of the data blocks the leaf entries `es` name, each block
/// last entry first, one block after the other.
pub open spec fn blocks_data_r(src: Seq<u8>, bs: nat, es: Seq<(Seq<u8>, u64)>) -> Seq<
    (Seq<u8>, Option<Seq<u8>>),
>
    decreases es.len(),
{
    if es.len() == 0 {
        Seq::empty()
    } else {
        block_data_r(src, bs, es[0].1) + blocks_data_r(src, bs, es.drop_first())
    }
}

/// Going backward from `t` through the data blocks the leaf entries `es`
/// name: the first block that has a key not above `t` yields its entries
/// up to `t`, last first; the blocks after it yield all of theirs.
pub open spec fn rev_seek_blocks(src: Seq<u8>, bs: nat, es: Seq<(Seq<u8>, u64)>, t: Seq<u8>) -> Seq<
    (Seq<u8>, Option<Seq<u8>>),
>
    decreases es.len(),
{
    if es.len() == 0 {
        Seq::empty()
    } else {
        let first = decode_items(leaf_rev_seek(block_items(node(src, bs, es[0].1)), t));
        if first.len() > 0 {
            first + blocks_data_r(src, bs, es.drop_first())
        } else {
            rev_seek_blocks(src, bs, es.drop_first(), t)
        }
    }
}

/// The data block at `pos` is sure to be read by `reader`, and each entry
/// stored in it carries a valid header.
pub open spec fn data_sound<B: BlockReader>(reader: B, pos: u64) -> bool {
    &&& reader.readable(pos)
    &&& headers_ok(block_items(node(reader.source(), reader.spec_block_size(), pos)))
}

proof fn lemma_entry_headers_skip(items: Seq<(Seq<u8>, Seq<u8>)>, k: int)
    requires
        headers_ok(items),
        0 <= k <= items.len(),
    ensures
        headers_ok(items.skip(k)),
{
    assert forall|i: int| 0 <= i < items.skip(k).len() implies #[trigger] entry_header_ok(
        items.skip(k)[i].1,
    ) by {
        assert(items.skip(k)[i] == items[i + k]);
    }
}

proof fn lemma_entry_headers_take_rev(items: Seq<(Seq<u8>, Seq<u8>)>, k: int)
    requires
        headers_ok(items),
        0 <= k <= items.len(),
    ensures
        headers_ok(items.take(k).reverse()),
{
    assert forall|i: int| 0 <= i < items.take(k).reverse().len() implies #[trigger] entry_header_ok(
        items.take(k).reverse()[i].1,
    ) by {
        assert(items.take(k).reverse()[i] == items[k - 1 - i]);
    }
}

/// A decoder over a data block whose entries all decode never fails a
/// step.
proof fn lemma_data_faultless(d: DataIter)
    requires
        d.wf(),
        headers_ok(d.inner().items()),
        d.inner().items().len() > 0,
    ensures
        ForwardIter::fwd_faultless(&d),
        ReverseIter::rev_faultless(&d),
{
    crate::iterators::block_iter::lemma_readable_items(d.inner().block_bytes());
    d.lemma_model();
    d.inner().lemma_model();
    let items = d.inner().items();
    let n = items.len() as int;
    assert forall|t: Seq<u8>| #[trigger] headers_ok(d.inner().fwd_seek_rest(t)) by {
        lemma_lower_bound_range(keys_of(items), t, 0, n);
        lemma_entry_headers_skip(items, lower_bound(keys_of(items), t, 0, n));
    }
    assert forall|t: Seq<u8>| #[trigger] headers_ok(d.inner().rev_seek_rest(t)) by {
        lemma_upper_bound_range(keys_of(items), t, 0, n);
        lemma_entry_headers_take_rev(items, upper_bound(keys_of(items), t, 0, n));
    }
    lemma_entry_headers_take_rev(items, n);
    assert(items.take(n) =~= items);
    if let Some(c) = d.inner().cursor() {
        lemma_entry_headers_skip(items, c);
        lemma_entry_headers_take_rev(items, c + 1);
    }
}

/// Every block of the SST whose index root is at `root`, `d` levels above
/// the leaf level, is sure to be read by `reader` and decodes: the index
/// blocks (the root one not empty) and the data blocks they name.
pub open spec fn sst_sound<B: BlockReader>(reader: B, root: u64, d: nat) -> bool {
    &&& index_sound(reader, root, d)
    &&& block_items(node(reader.source(), reader.spec_block_size(), root)).len() > 0
    &&& leaves_all(
        reader.source(),
        reader.spec_block_size(),
        root,
        d,
        |p: u64| data_sound(reader, p),
    )
}

/// `<=` on byte strings is transitive.
proof fn lemma_lex_le_trans(a: Seq<u8>, b: Seq<u8>, c: Seq<u8>)
    requires
        lex_le(a, b),
        lex_le(b, c),
    ensures
        lex_le(a, c),
{
    lemma_lex_total(a, b);
    lemma_lex_total(b, c);
    lemma_lex_total(a, c);
    lemma_lex_irrefl(a);
    if a != b && b != c {
        lemma_lex_trans(a, b, c);
        if lex_lt(c, a) {
            lemma_lex_trans(c, a, b);
        }
    }
    if lex_lt(c, a) {
        if a == b {
            assert(lex_lt(c, b));
        }
        if b == c {
            assert(lex_lt(b, a));
        }
        if a != b && b != c {
            lemma_lex_trans(a, b, c);
            lemma_lex_trans(c, a, c);
        }
    }
}

/// Keys whose neighbours are in order are sorted.
proof fn lemma_sorted_by_neighbours(keys: Seq<Seq<u8>>)
    requires
        forall|i: int| 0 < i < keys.len() ==> lex_le(#[trigger] keys[i - 1], keys[i]),
    ensures
        sorted(keys),
{
    assert forall|i: int, j: int| 0 <= i < j < keys.len() implies lex_le(
        #[trigger] keys[i],
        #[trigger] keys[j],
    ) by {
        lemma_sorted_between(keys, i, j);
    }
}

proof fn lemma_sorted_between(keys: Seq<Seq<u8>>, i: int, j: int)
    requires
        forall|k: int| 0 < k < keys.len() ==> lex_le(#[trigger] keys[k - 1], keys[k]),
        0 <= i < j < keys.len(),
    ensures
        lex_le(keys[i], keys[j]),
    decreases j - i,
{
    if j - 1 > i {
        lemma_sorted_between(keys, i, j - 1);
        assert(lex_le(keys[j - 1], keys[j]));
        lemma_lex_le_trans(keys[i], keys[j - 1], keys[j]);
    } else {
        assert(lex_le(keys[j - 1], keys[j]));
    }
}

/// The key a check expects a block to end at, as bytes.
pub open spec fn key_view(k: Option<&[u8]>) -> Option<Seq<u8>> {
    match k {
        Some(k) => Some(k@),
        None => None,
    }
}

/// What checking a block `b` asks of it: well formed, keys sorted; not
/// empty when `nonempty` or when it must end at `end_key`, and then ending
/// there; with `data`, every stored entry carries a valid header.
pub open spec fn block_checks(b: Seq<u8>, end_key: Option<Seq<u8>>, nonempty: bool, data: bool) -> bool {
    &&& block_wf(b)
    &&& sorted(keys_of(block_items(b)))
    &&& (nonempty || end_key is Some) ==> block_items(b).len() > 0
    &&& end_key matches Some(k) ==> block_items(b).last().0 == k
    &&& data ==> headers_ok(block_items(b))
}

/// Reads the block at `pos` and checks it (see [`block_checks`]).
/// `Ok(None)`: the block fails a check.
#[verifier::spinoff_prover]
#[verifier::rlimit(60)]
fn read_checked<B: BlockReader>(
    reader: &B,
    pos: u64,
    end_key: Option<&[u8]>,
    nonempty: bool,
    data: bool,
) -> (r: StorageResult<Option<NormalBlockIter>>)
    ensures
        r is Ok == reader.readable(pos),
        r matches Ok(Some(it)) ==> {
            let b = node(reader.source(), reader.spec_block_size(), pos);
            &&& it.wf()
            &&& it.items() == block_items(b)
            &&& block_checks(b, key_view(end_key), nonempty, data)
        },
        reader.readable(pos) && block_checks(
            node(reader.source(), reader.spec_block_size(), pos),
            key_view(end_key),
            nonempty,
            data,
        ) ==> r matches Ok(Some(_)),
{
    let ghost b = node(reader.source(), reader.spec_block_size(), pos);
    let ghost prem = block_checks(b, key_view(end_key), nonempty, data);
    let block = reader.read_block(&Position { offset: pos })?;
    let it = match NormalBlockIter::new(block) {
        Ok(it) => it,
        Err(_) => {
            assert(!prem);
            return Ok(None);
        },
    };
    if !it.is_well_formed() {
        return Ok(None);
    }
    proof {
        crate::iterators::block_iter::lemma_wf_items(b);
    }
    let ghost items = it.items();
    assert(items == block_items(b));
    let n = it.entry_count();
    let mut i: usize = 1;
    while i < n
        invariant
            it.wf(),
            items == it.items(),
            n == items.len(),
            reader.readable(pos),
            items == block_items(b),
            b == node(reader.source(), reader.spec_block_size(), pos),
            1 <= i,
            forall|k: int| 0 < k < i && k < n ==> lex_le(#[trigger] keys_of(items)[k - 1], keys_of(items)[k]),
        decreases n - i,
    {
        if !bytes_le(it.key_at(i - 1), it.key_at(i)) {
            proof {
                assert(keys_of(items)[i - 1] == items[i - 1].0);
                assert(keys_of(items)[i as int] == items[i as int].0);
                if sorted(keys_of(items)) {
                    assert(lex_le(keys_of(items)[i - 1], keys_of(items)[i as int]));
                }
            }
            return Ok(None);
        }
        proof {
            assert(keys_of(items)[i - 1] == items[i - 1].0);
            assert(keys_of(items)[i as int] == items[i as int].0);
        }
        i = i + 1;
    }
    proof {
        lemma_sorted_by_neighbours(keys_of(items));
    }
    if data && !entry_headers_ok(&it) {
        return Ok(None);
    }
    if nonempty || end_key.is_some() {
        if n == 0 {
            return Ok(None);
        }
    }
    if let Some(k) = end_key {
        if !crate::row_key::bytes_eq(it.key_at(n - 1), k) {
            proof {
                assert(items.last() == items[n - 1]);
            }
            return Ok(None);
        }
    }
    Ok(Some(it))
}

/// Whether every entry stored in the block carries a valid header.
fn entry_headers_ok(it: &NormalBlockIter) -> (ok: bool)
    requires
        it.wf(),
    ensures
        ok == headers_ok(it.items()),
{
    let ghost items = it.items();
    let n = it.entry_count();
    let mut i: usize = 0;
    while i < n
        invariant
            it.wf(),
            items == it.items(),
            n == items.len(),
            i <= n,
            forall|k: int| 0 <= k < i ==> #[trigger] entry_header_ok(items[k].1),
        decreases n - i,
    {
        let v = it.value_at(i);
        assert(v@ == items[i as int].1);
        if v.len() < 2 || v[0] != DATA_ENTRY_VERSION || (v[1] != KIND_PUT && v[1] != KIND_DELETE) {
            assert(!entry_header_ok(items[i as int].1));
            return false;
        }
        assert(entry_header_ok(items[i as int].1));
        i = i + 1;
    }
    true
}

/// Every index block under `pos` (`d` levels above the leaf level) and
/// every data block it names can be read and decodes.
pub open spec fn index_checkable<B: BlockReader>(reader: B, pos: u64, d: nat) -> bool {
    &&& index_sound(reader, pos, d)
    &&& leaves_all(
        reader.source(),
        reader.spec_block_size(),
        pos,
        d,
        |p: u64| data_sound(reader, p),
    )
}

/// What an index entry `item`, `d` levels above the leaf level, needs of
/// the block it names: a data block ending at its key (`d == 0`), or a
/// non-empty well-formed index tree ending at its key.
pub open spec fn entry_ok(src: Seq<u8>, bs: nat, d: nat, item: (Seq<u8>, Seq<u8>)) -> bool {
    if d == 0 {
        data_ok(src, bs, child_of(item.1), item.0)
    } else {
        let c = block_items(node(src, bs, child_of(item.1)));
        &&& c.len() > 0
        &&& c.last().0 == item.0
        &&& tree_ok(src, bs, child_of(item.1), (d - 1) as nat)
    }
}

/// What checking the block an index entry's stored value `raw` names
/// reads can be read.
pub open spec fn entry_checkable<B: BlockReader>(reader: B, d: nat, raw: Seq<u8>) -> bool {
    if d == 0 {
        data_sound(reader, child_of(raw))
    } else {
        index_checkable(reader, child_of(raw), (d - 1) as nat)
    }
}

/// Unfolding a well-formed, checkable index block at entry `i`.
proof fn lemma_index_entry<B: BlockReader>(reader: B, pos: u64, d: nat, i: int)
    requires
        index_checkable(reader, pos, d),
        0 <= i < block_items(node(reader.source(), reader.spec_block_size(), pos)).len(),
    ensures
        ({
            let item = block_items(node(reader.source(), reader.spec_block_size(), pos))[i];
            &&& tree_ok(reader.source(), reader.spec_block_size(), pos, d) ==> entry_ok(
                reader.source(),
                reader.spec_block_size(),
                d,
                item,
            )
            &&& index_header_ok(item.1)
            &&& entry_checkable(reader, d, item.1)
        }),
{
    let items = block_items(node(reader.source(), reader.spec_block_size(), pos));
    assert(child_of(items[i].1) == child_of(items[i].1));
    if d > 0 {
        crate::iterators::index_tree_iter::lemma_child_sound(reader, pos, d, i);
    }
}

/// Checks the block an index entry (`key`, stored `value`), `d` levels
/// above the leaf level, names. `Ok(false)`: the value does not name a
/// child in the stored format, or the child fails a check.
fn check_entry<B: BlockReader>(reader: &B, d: usize, key: &[u8], value: &[u8]) -> (r: StorageResult<
    bool,
>)
    ensures
        r matches Ok(true) ==> {
            &&& entry_ok(reader.source(), reader.spec_block_size(), d as nat, (key@, value@))
            &&& index_header_ok(value@)
            &&& entry_checkable(*reader, d as nat, value@)
        },
        entry_ok(reader.source(), reader.spec_block_size(), d as nat, (key@, value@)) && index_header_ok(
            value@,
        ) && entry_checkable(*reader, d as nat, value@) ==> r == Ok::<bool, crate::errors::StorageError>(true),
        entry_checkable(*reader, d as nat, value@) ==> r is Ok,
    decreases d, 0nat,
{
    if value.len() != INDEX_VALUE_LEN || value[0] != INDEX_VALUE_VERSION {
        return Ok(false);
    }
    let child = read_u64_be(value, 1);
    proof {
        assert(value@.subrange(1, 9) =~= value@.skip(1));
    }
    if d == 0 {
        match read_checked(reader, child, Some(key), true, true)? {
            Some(_) => Ok(true),
            None => Ok(false),
        }
    } else {
        check_index(reader, child, d - 1, Some(key), true)
    }
}

/// Checks that the index tree under the block at `pos` (`d` levels above
/// the leaf level) is well formed and that every block of it, and every
/// data block it names, decodes; reads every such block. `Ok(false)`:
/// some block is malformed, has unsorted keys, does not end at the key its
/// parent gives, or holds an entry that does not decode.
fn check_index<B: BlockReader>(
    reader: &B,
    pos: u64,
    d: usize,
    end_key: Option<&[u8]>,
    nonempty: bool,
) -> (r: StorageResult<bool>)
    ensures
        r matches Ok(true) ==> {
            &&& tree_ok(reader.source(), reader.spec_block_size(), pos, d as nat)
            &&& index_checkable(*reader, pos, d as nat)
            &&& block_checks(
                node(reader.source(), reader.spec_block_size(), pos),
                key_view(end_key),
                nonempty,
                false,
            )
        },
        ({
            &&& tree_ok(reader.source(), reader.spec_block_size(), pos, d as nat)
            &&& index_checkable(*reader, pos, d as nat)
            &&& block_checks(
                node(reader.source(), reader.spec_block_size(), pos),
                key_view(end_key),
                nonempty,
                false,
            )
        }) ==> r == Ok::<bool, crate::errors::StorageError>(true),
        index_checkable(*reader, pos, d as nat) ==> r is Ok,
    decreases d, 1nat,
{
    let ghost src = reader.source();
    let ghost bs = reader.spec_block_size();
    let ghost good = tree_ok(src, bs, pos, d as nat) && index_checkable(*reader, pos, d as nat)
        && block_checks(node(src, bs, pos), key_view(end_key), nonempty, false);
    let ghost old_checkable = index_checkable(*reader, pos, d as nat);
    let it = match read_checked(reader, pos, end_key, nonempty, false)? {
        Some(it) => it,
        None => {
            return Ok(false);
        },
    };
    let ghost items = it.items();
    let n = it.entry_count();
    let mut i: usize = 0;
    while i < n
        invariant
            it.wf(),
            items == it.items(),
            items == block_items(node(src, bs, pos)),
            n == items.len(),
            i <= n,
            src == reader.source(),
            bs == reader.spec_block_size(),
            good ==> tree_ok(src, bs, pos, d as nat) && index_checkable(*reader, pos, d as nat),
            forall|j: int| 0 <= j < i ==> entry_ok(src, bs, d as nat, #[trigger] items[j]),
            forall|j: int| 0 <= j < i ==> #[trigger] index_header_ok(items[j].1),
            forall|j: int| 0 <= j < i ==> entry_checkable(*reader, d as nat, #[trigger] items[j].1),
            index_checkable(*reader, pos, d as nat) == old_checkable,
        decreases n - i,
    {
        proof {
            if index_checkable(*reader, pos, d as nat) {
                lemma_index_entry(*reader, pos, d as nat, i as int);
            }
        }
        let ok = check_entry(reader, d, it.key_at(i), it.value_at(i))?;
        if !ok {
            return Ok(false);
        }
        i = i + 1;
    }
    proof {
        lemma_checked_block(*reader, pos, d as nat, items);
    }
    Ok(true)
}

/// A readable block whose entries all check out: the tree under it is
/// well formed and checkable.
proof fn lemma_checked_block<B: BlockReader>(reader: B, pos: u64, d: nat, items: Seq<(Seq<u8>, Seq<u8>)>)
    requires
        reader.readable(pos),
        items == block_items(node(reader.source(), reader.spec_block_size(), pos)),
        block_wf(node(reader.source(), reader.spec_block_size(), pos)),
        sorted(keys_of(items)),
        forall|j: int| 0 <= j < items.len() ==> entry_ok(reader.source(), reader.spec_block_size(), d, #[trigger] items[j]),
        forall|j: int| 0 <= j < items.len() ==> #[trigger] index_header_ok(items[j].1),
        forall|j: int| 0 <= j < items.len() ==> entry_checkable(reader, d, #[trigger] items[j].1),
    ensures
        tree_ok(reader.source(), reader.spec_block_size(), pos, d),
        index_checkable(reader, pos, d),
{
    let src = reader.source();
    let bs = reader.spec_block_size();
    if d == 0 {
        assert forall|j: int| 0 <= j < items.len() implies data_ok(src, bs, child_of(#[trigger] items[j].1), items[j].0) by {
            assert(entry_ok(src, bs, d, items[j]));
        }
        assert forall|j: int| 0 <= j < items.len() implies data_sound(reader, child_of(#[trigger] items[j].1)) by {
            assert(entry_checkable(reader, d, items[j].1));
        }
    } else {
        assert forall|j: int| 0 <= j < items.len() implies {
            let c = block_items(node(src, bs, child_of(#[trigger] items[j].1)));
            &&& c.len() > 0
            &&& c.last().0 == items[j].0
            &&& tree_ok(src, bs, child_of(items[j].1), (d - 1) as nat)
        } by {
            assert(entry_ok(src, bs, d, items[j]));
        }
        assert forall|j: int| 0 <= j < items.len() implies index_sound(reader, child_of(#[trigger] items[j].1), (d - 1) as nat) by {
            assert(entry_checkable(reader, d, items[j].1));
        }
        assert forall|j: int| 0 <= j < items.len() implies leaves_all(
            src,
            bs,
            child_of(#[trigger] items[j].1),
            (d - 1) as nat,
            |p: u64| data_sound(reader, p),
        ) by {
            assert(entry_checkable(reader, d, items[j].1));
        }
    }
}

/// Checks that the SST whose footer is `footer` has a well-formed index
/// tree with a non-empty root, which `SstIter::new` needs, and that every
/// block of it decodes; reads every index block and every data block it
/// names. `Ok(false)`: some block fails a check. Fails when a read fails.
pub fn check_sst<B: BlockReader>(reader: &B, footer: &SstFooter) -> (r: StorageResult<bool>)
    ensures
        r matches Ok(true) ==> (footer.tree_height >= 2 ==> tree_ok(
            reader.source(),
            reader.spec_block_size(),
            footer.root_index_block_position.offset,
            (footer.tree_height - 2) as nat,
        ) && sst_sound(
            *reader,
            footer.root_index_block_position.offset,
            (footer.tree_height - 2) as nat,
        )),
        (footer.tree_height >= 2 ==> tree_ok(
            reader.source(),
            reader.spec_block_size(),
            footer.root_index_block_position.offset,
            (footer.tree_height - 2) as nat,
        ) && sst_sound(
            *reader,
            footer.root_index_block_position.offset,
            (footer.tree_height - 2) as nat,
        )) ==> r == Ok::<bool, crate::errors::StorageError>(true),
        (footer.tree_height >= 2 ==> index_checkable(
            *reader,
            footer.root_index_block_position.offset,
            (footer.tree_height - 2) as nat,
        )) ==> r is Ok,
{
    if footer.tree_height < 2 {
        return Ok(true);
    }
    check_index(
        reader,
        footer.root_index_block_position.offset,
        (footer.tree_height - 2) as usize,
        None,
        true,
    )
}

/// Iterator over the entries of an SST.
pub struct SstIter<R> {
    reader: Arc<R>,
    option: SstOption,
    index_iter: IndexTreeIter<R>,
    data_iter: Option<DataIter>,
}

impl<R: BlockReader> SstIter<R> {
    pub closed spec fn src(&self) -> Seq<u8> {
        self.index_iter.src()
    }

    /// The reader is sure to read a block at `offset`.
    pub closed spec fn readable_at(&self, offset: u64) -> bool {
        self.reader.readable(offset)
    }

    pub closed spec fn spec_bs(&self) -> nat {
        self.index_iter.spec_bs()
    }

    /// The index is sound, every data block it names is sure to be read
    /// and its entries all decode: then every step succeeds.
    pub closed spec fn sound(&self) -> bool {
        &&& self.index_iter.sound()
        &&& self.index_iter.height() >= 2 ==> leaves_all(
            self.src(),
            self.spec_bs(),
            self.index_iter.root(),
            self.index_iter.depth(),
            |p: u64| data_sound(self.reader, p),
        )
        &&& self.data_iter matches Some(d) ==> headers_ok(d.inner().items()) && d.inner().items().len()
            > 0
    }

    /// The data block the index's current entry names can be loaded, and
    /// its entries all decode.
    proof fn lemma_load_ok(&self)
        requires
            self.wf(),
            self.sound(),
            self.index_iter.fwd_mode() || self.index_iter.rev_mode(),
        ensures
            self.index_iter.current() matches Some(e) ==> self.readable_at(e.1) && headers_ok(
                block_items(node(self.src(), self.spec_bs(), e.1)),
            ),
    {
        let ok = |p: u64| data_sound(self.reader, p);
        self.index_iter.lemma_current_leaf(ok);
    }

    /// An iterator over the SST whose footer is `footer`, read through
    /// `reader`. The SST's index and data blocks must be well formed.
    pub fn new(reader: Arc<R>, footer: SstFooter, option: SstOption) -> (r: StorageResult<Self>)
        requires
            footer.tree_height >= 2 ==> tree_ok(
                reader.source(),
                reader.spec_block_size(),
                footer.root_index_block_position.offset,
                (footer.tree_height - 2) as nat,
            ),
        ensures
            r matches Ok(it) && it.wf() && it.src() == reader.source() && it.spec_bs()
                == reader.spec_block_size() && it.current() is None,
            r matches Ok(it) && it.sound() == (footer.tree_height >= 2 ==> sst_sound(
                reader,
                footer.root_index_block_position.offset,
                (footer.tree_height - 2) as nat,
            )),
    {
        let index_iter = IndexTreeIter::new(share(&reader), &footer, &option)?;
        Ok(SstIter { index_iter, option, reader, data_iter: None })
    }

    /// Opens the SST whose footer is `footer` after checking it with
    /// [`check_sst`]: an SST that fails the check is refused with
    /// `InvalidValue`. An iterator it hands out never fails a step.
    pub fn open(reader: Arc<R>, footer: SstFooter, option: SstOption) -> (r: StorageResult<Self>)
        ensures
            r matches Ok(it) ==> it.wf() && it.src() == reader.source() && it.spec_bs()
                == reader.spec_block_size() && it.current() is None && it.sound(),
            (footer.tree_height >= 2 ==> tree_ok(
                reader.source(),
                reader.spec_block_size(),
                footer.root_index_block_position.offset,
                (footer.tree_height - 2) as nat,
            ) && sst_sound(
                reader,
                footer.root_index_block_position.offset,
                (footer.tree_height - 2) as nat,
            )) ==> r is Ok,
            (footer.tree_height >= 2 ==> index_checkable(
                reader,
                footer.root_index_block_position.offset,
                (footer.tree_height - 2) as nat,
            )) ==> r is Ok || r->Err_0 is InvalidValue,
    {
        if !check_sst(&reader, &footer)? {
            return Err(StorageError::InvalidValue("corrupt sst".to_owned()));
        }
        Self::new(reader, footer, option)
    }

    /// Opens the data block the index's current entry names.
    fn load_data_block_from_index(&self) -> (r: StorageResult<DataIter>)
        requires
            self.wf(),
            self.index_iter.fwd_mode() || self.index_iter.rev_mode(),
            self.index_iter.current() is Some,
            self.index_iter.ready(),
        ensures
            self.readable_at((self.index_iter.current()->0).1) ==> r is Ok,
            r matches Ok(d) ==> {
                &&& d.wf()
                &&& d.inner().items() == block_items(
                    node(self.src(), self.spec_bs(), (self.index_iter.current()->0).1),
                )
                &&& data_ok(
                    self.src(),
                    self.spec_bs(),
                    (self.index_iter.current()->0).1,
                    (self.index_iter.current()->0).0,
                )
            },
    {
        proof {
            self.index_iter.lemma_current_data();
        }
        let pos: Position = match self.index_iter.value() {
            Some(p) => p,
            None => {
                return Err(
                    StorageError::InvalidValue("index iter valid but value is none".to_owned()),
                );
            },
        };
        let block = self.reader.read_block(&pos)?;
        proof {
            crate::iterators::block_iter::lemma_readable_items(bytes_view(block));
        }
        let it = NormalBlockIter::new(block)?;
        let d = EntryDecodeIter::new(it);
        proof {
            d.lemma_fresh();
        }
        Ok(d)
    }
}

impl<R: BlockReader> SstIter<R> {
    /// A data block opened at the index's current entry and positioned at
    /// its first entry yields the whole block, starting on an entry.
    proof fn lemma_fresh_block(&self, d0: DataIter, d: DataIter)
        requires
            self.index_iter.current() is Some,
            d0.wf(),
            d.wf(),
            d0.inner().items() == block_items(
                node(self.src(), self.spec_bs(), (self.index_iter.current()->0).1),
            ),
            data_ok(
                self.src(),
                self.spec_bs(),
                (self.index_iter.current()->0).1,
                (self.index_iter.current()->0).0,
            ),
            d.inner().fwd_all() == d0.inner().fwd_all(),
            d.fwd_rest() == d.fwd_all(),
        ensures
            d.inner().items() == d0.inner().items(),
            d.fwd_rest() == block_data(self.src(), self.spec_bs(), (self.index_iter.current()->0).1),
            d.current() is Some,
    {
        d0.lemma_model();
        d.lemma_model();
        d0.inner().lemma_model();
        d.inner().lemma_model();
        d.lemma_fwd_head();
    }
}

impl<R: BlockReader> SstIter<R> {
    /// A data block opened at the index's current entry, whose end key is
    /// not below `t`, and positioned at `t`, yields its entries from `t` on,
    /// starting on an entry.
    proof fn lemma_seek_block(&self, d0: DataIter, d: DataIter, t: Seq<u8>)
        requires
            self.index_iter.current() is Some,
            !crate::row_key::lex_lt((self.index_iter.current()->0).0, t),
            d0.wf(),
            d.wf(),
            d0.inner().items() == block_items(
                node(self.src(), self.spec_bs(), (self.index_iter.current()->0).1),
            ),
            data_ok(
                self.src(),
                self.spec_bs(),
                (self.index_iter.current()->0).1,
                (self.index_iter.current()->0).0,
            ),
            d.inner().fwd_all() == d0.inner().fwd_all(),
            d.fwd_rest() == d.fwd_seek_rest(t),
        ensures
            d.inner().items() == d0.inner().items(),
            d.fwd_rest() == decode_items(leaf_fwd_seek(d0.inner().items(), t)),
            d.current() is Some,
    {
        d0.lemma_model();
        d.lemma_model();
        d0.inner().lemma_model();
        d.inner().lemma_model();
        d.lemma_fwd_head();
        let items = d.inner().items();
        assert(keys_of(items).last() == items.last().0);
        crate::iterators::index_tree::lemma_lower_bound_found(keys_of(items), t);
        lemma_lower_bound_range(keys_of(items), t, 0, items.len() as int);
        assert(leaf_fwd_seek(items, t).len() > 0);
        assert(d.fwd_rest().len() > 0);
    }

    /// Positioned on an entry of the block the index's current entry names.
    proof fn lemma_mode_on_block(&self)
        requires
            self.index_iter.fwd_mode(),
            self.index_iter.current() is Some,
            self.data_iter is Some,
            ForwardIter::fwd_mode(&self.data_iter->0),
            (self.data_iter->0).inner().items() == block_items(
                node(self.src(), self.spec_bs(), (self.index_iter.current()->0).1),
            ),
            (self.data_iter->0).current() is Some,
        ensures
            self.fwd_mode(),
    {
        let d = self.data_iter->0;
        assert(match self.data_iter {
            Some(dd) => {
                &&& ForwardIter::fwd_mode(&dd)
                &&& self.index_iter.current() matches Some(e) ==> {
                    &&& dd.inner().items() == block_items(node(self.src(), self.spec_bs(), e.1))
                    &&& dd.current() is Some
                }
            },
            None => true,
        });
    }
}

impl<R: BlockReader> IterBase for SstIter<R> {
    type Value = EntryValue;
}

impl<R: BlockReader> IterRead for SstIter<R> {
    closed spec fn wf(&self) -> bool {
        &&& self.index_iter.wf()
        &&& self.reader.source() == self.index_iter.src()
        &&& self.reader.spec_block_size() == self.index_iter.spec_bs()
        &&& self.data_iter matches Some(d) ==> d.wf()
    }

    closed spec fn current(&self) -> Option<(Seq<u8>, Option<Seq<u8>>)> {
        match self.data_iter {
            Some(d) => d.current(),
            None => None,
        }
    }

    closed spec fn ready(&self) -> bool {
        self.data_iter matches Some(d) ==> d.ready()
    }

    fn valid(&self) -> (b: bool) {
        match &self.data_iter {
            Some(d) => d.valid(),
            None => false,
        }
    }

    fn key(&self) -> (k: Option<&[u8]>) {
        match &self.data_iter {
            Some(d) => d.key(),
            None => None,
        }
    }

    fn value(&self) -> (v: Option<EntryValue>) {
        match &self.data_iter {
            Some(d) => d.value(),
            None => None,
        }
    }
}

/// Unfolding the entries of a run of data blocks by its first block.
proof fn lemma_blocks_front(src: Seq<u8>, bs: nat, es: Seq<(Seq<u8>, u64)>)
    requires
        es.len() > 0,
    ensures
        blocks_data(src, bs, es) == block_data(src, bs, es[0].1) + blocks_data(
            src,
            bs,
            tail(es),
        ),
{
}

impl<R: BlockReader> ForwardIter for SstIter<R> {
    /// The entries of every data block, in index order.
    closed spec fn fwd_all(&self) -> Seq<(Seq<u8>, Option<Seq<u8>>)> {
        blocks_data(self.src(), self.spec_bs(), self.index_iter.fwd_all())
    }

    /// The rest of the current data block, then the blocks after it.
    closed spec fn fwd_rest(&self) -> Seq<(Seq<u8>, Option<Seq<u8>>)> {
        match self.data_iter {
            Some(d) => d.fwd_rest() + blocks_data(
                self.src(),
                self.spec_bs(),
                tail(self.index_iter.fwd_rest()),
            ),
            None => Seq::empty(),
        }
    }

    /// In the first block whose end key is not below `target`, the entries
    /// from `target` on; then the blocks after it.
    closed spec fn fwd_seek_rest(&self, target: Seq<u8>) -> Seq<(Seq<u8>, Option<Seq<u8>>)> {
        let l = self.index_iter.fwd_seek_rest(target);
        if l.len() == 0 {
            Seq::empty()
        } else {
            decode_items(leaf_fwd_seek(block_items(node(self.src(), self.spec_bs(), l[0].1)), target))
                + blocks_data(self.src(), self.spec_bs(), l.drop_first())
        }
    }

    /// The data block is the one the index's current entry names, and it is
    /// on an entry; or nothing is left.
    closed spec fn fwd_mode(&self) -> bool {
        &&& self.index_iter.fwd_mode()
        &&& match self.data_iter {
            Some(d) => {
                &&& ForwardIter::fwd_mode(&d)
                &&& self.index_iter.current() matches Some(e) ==> {
                    &&& d.inner().items() == block_items(node(self.src(), self.spec_bs(), e.1))
                    &&& d.current() is Some
                }
                &&& self.index_iter.current() is None ==> d.fwd_rest() == Seq::<
                    (Seq<u8>, Option<Seq<u8>>),
                >::empty()
            },
            None => self.index_iter.fwd_rest() == Seq::<(Seq<u8>, u64)>::empty(),
        }
    }

    /// Every block the steps may read is sure to be read, and everything
    /// in it decodes.
    open spec fn fwd_faultless(&self) -> bool {
        self.sound()
    }

    proof fn lemma_fwd_head(&self) {
        self.index_iter.lemma_fwd_head();
        if let Some(d) = self.data_iter {
            d.lemma_fwd_head();
        }
    }

    fn seek_to_first(&mut self) -> (r: StorageResult<()>) {
        let ghost src = self.src();
        let ghost bs = self.spec_bs();
        let ghost i0 = self.index_iter;
        let res = self.index_iter.inner_seek_to_first();
        proof {
            self.index_iter.lemma_same_tree(&i0);
        }
        res?;
        proof {
            self.index_iter.lemma_fwd_head();
        }
        if self.index_iter.valid() {
            proof {
                if old(self).sound() {
                    self.lemma_load_ok();
                }
            }
            let mut d = self.load_data_block_from_index()?;
            let ghost d0 = d;
            proof {
                if old(self).sound() {
                    lemma_data_faultless(d);
                }
            }
            ForwardIter::seek_to_first(&mut d)?;
            proof {
                self.lemma_fresh_block(d0, d);
                lemma_blocks_front(src, bs, self.index_iter.fwd_rest());
            }
            self.data_iter = Some(d);
            proof {
                self.lemma_mode_on_block();
            }
        } else {
            self.data_iter = None;
            assert(self.index_iter.fwd_rest() =~= Seq::<(Seq<u8>, u64)>::empty());
        }
        Ok(())
    }

    fn seek(&mut self, target: &[u8]) -> (r: StorageResult<()>) {
        let ghost src = self.src();
        let ghost bs = self.spec_bs();
        let ghost i0 = self.index_iter;
        let res = self.index_iter.locate(target);
        proof {
            self.index_iter.lemma_same_tree(&i0);
        }
        res?;
        proof {
            self.index_iter.lemma_fwd_head();
            self.index_iter.lemma_seek_head(target@);
        }
        if self.index_iter.valid() {
            proof {
                if old(self).sound() {
                    self.lemma_load_ok();
                }
            }
            let mut d = self.load_data_block_from_index()?;
            let ghost d0 = d;
            proof {
                if old(self).sound() {
                    lemma_data_faultless(d);
                }
            }
            ForwardIter::seek(&mut d, target)?;
            proof {
                self.lemma_seek_block(d0, d, target@);
            }
            self.data_iter = Some(d);
            proof {
                self.lemma_mode_on_block();
            }
        } else {
            self.data_iter = None;
            assert(self.index_iter.fwd_rest() =~= Seq::<(Seq<u8>, u64)>::empty());
        }
        Ok(())
    }

    fn next(&mut self) -> (r: StorageResult<()>) {
        let ghost src = self.src();
        let ghost bs = self.spec_bs();
        let ghost rest0 = self.fwd_rest();
        let ghost irest0 = self.index_iter.fwd_rest();
        proof {
            self.index_iter.lemma_fwd_head();
            if self.data_iter is None {
                assert(rest0 =~= tail(rest0));
            }
        }
        if let Some(d) = &mut self.data_iter {
            let ghost d0 = *d;
            proof {
                if old(self).sound() {
                    lemma_data_faultless(d0);
                }
                d0.lemma_model();
                d0.inner().lemma_model();
                d0.lemma_fwd_head();
            }
            ForwardIter::next(d)?;
            let ghost d1 = *d;
            proof {
                d1.lemma_model();
                d1.inner().lemma_model();
                d1.lemma_fwd_head();
                lemma_tail_split(d0.fwd_rest(), blocks_data(src, bs, tail(irest0)));
            }
            if !d.valid() {
                let ghost i0 = self.index_iter;
        let res = self.index_iter.inner_next();
        proof {
            self.index_iter.lemma_same_tree(&i0);
        }
        res?;
                proof {
                    self.index_iter.lemma_fwd_head();
                }
                if !self.index_iter.valid() {
                    proof {
                        assert(self.index_iter.fwd_rest() =~= Seq::<(Seq<u8>, u64)>::empty());
                        assert(tail(self.index_iter.fwd_rest()) =~= Seq::<(Seq<u8>, u64)>::empty());
                        assert(self.fwd_rest() =~= tail(rest0));
                    }
                    return Ok(());
                }
                proof {
                    if old(self).sound() {
                        self.lemma_load_ok();
                    }
                }
                let mut nd = self.load_data_block_from_index()?;
                let ghost nd0 = nd;
                proof {
                    if old(self).sound() {
                        lemma_data_faultless(nd);
                    }
                }
                ForwardIter::seek_to_first(&mut nd)?;
                proof {
                    self.lemma_fresh_block(nd0, nd);
                    lemma_blocks_front(src, bs, self.index_iter.fwd_rest());
                }
                self.data_iter = Some(nd);
                proof {
                    self.lemma_mode_on_block();
                }
            }
        }
        Ok(())
    }
}

/// Dropping the first item of a concatenation whose first part is not empty.
proof fn lemma_tail_split<A>(a: Seq<A>, b: Seq<A>)
    ensures
        a.len() > 0 ==> tail(a + b) == tail(a) + b,
        a.len() == 0 ==> a + b == b,
{
    if a.len() > 0 {
        assert(tail(a + b) =~= tail(a) + b);
    } else {
        assert(a + b =~= b);
    }
}

impl<R: BlockReader> SstIter<R> {
    /// A data block opened at the index's current entry and positioned at
    /// its last entry yields the whole block backward, starting on an
    /// entry.
    proof fn lemma_fresh_block_r(&self, d0: DataIter, d: DataIter)
        requires
            self.index_iter.current() is Some,
            d0.wf(),
            d.wf(),
            d0.inner().items() == block_items(
                node(self.src(), self.spec_bs(), (self.index_iter.current()->0).1),
            ),
            data_ok(
                self.src(),
                self.spec_bs(),
                (self.index_iter.current()->0).1,
                (self.index_iter.current()->0).0,
            ),
            d.inner().rev_all() == d0.inner().rev_all(),
            d.rev_rest() == d.rev_all(),
        ensures
            d.inner().items() == d0.inner().items(),
            d.rev_rest() == block_data_r(
                self.src(),
                self.spec_bs(),
                (self.index_iter.current()->0).1,
            ),
            d.current() is Some,
    {
        d0.lemma_model();
        d.lemma_model();
        d0.inner().lemma_model();
        d.inner().lemma_model();
        d.lemma_rev_head();
        assert(d.inner().items().reverse().reverse() =~= d.inner().items());
        assert(d0.inner().items().reverse().reverse() =~= d0.inner().items());
    }

    /// Positioned backward on an entry of the block the index's current
    /// entry names.
    proof fn lemma_mode_on_block_r(&self)
        requires
            self.index_iter.rev_mode(),
            self.index_iter.current() is Some,
            self.data_iter is Some,
            ReverseIter::rev_mode(&self.data_iter->0),
            (self.data_iter->0).inner().items() == block_items(
                node(self.src(), self.spec_bs(), (self.index_iter.current()->0).1),
            ),
            (self.data_iter->0).current() is Some,
        ensures
            self.rev_mode(),
    {
        assert(match self.data_iter {
            Some(dd) => {
                &&& ReverseIter::rev_mode(&dd)
                &&& self.index_iter.current() matches Some(e) ==> {
                    &&& dd.inner().items() == block_items(node(self.src(), self.spec_bs(), e.1))
                    &&& dd.current() is Some
                }
            },
            None => true,
        });
    }
}

/// Unfolding the backward entries of a run of data blocks by its first
/// block.
proof fn lemma_blocks_front_r(src: Seq<u8>, bs: nat, es: Seq<(Seq<u8>, u64)>)
    requires
        es.len() > 0,
    ensures
        blocks_data_r(src, bs, es) == block_data_r(src, bs, es[0].1) + blocks_data_r(
            src,
            bs,
            tail(es),
        ),
{
}

impl<R: BlockReader> ReverseIter for SstIter<R> {
    /// The entries of every data block, last block and last entry first.
    closed spec fn rev_all(&self) -> Seq<(Seq<u8>, Option<Seq<u8>>)> {
        blocks_data_r(self.src(), self.spec_bs(), self.index_iter.rev_all())
    }

    /// The rest of the current data block backward, then the blocks before
    /// it.
    closed spec fn rev_rest(&self) -> Seq<(Seq<u8>, Option<Seq<u8>>)> {
        match self.data_iter {
            Some(d) => d.rev_rest() + blocks_data_r(
                self.src(),
                self.spec_bs(),
                tail(self.index_iter.rev_rest()),
            ),
            None => Seq::empty(),
        }
    }

    closed spec fn rev_seek_rest(&self, target: Seq<u8>) -> Seq<(Seq<u8>, Option<Seq<u8>>)> {
        rev_seek_blocks(self.src(), self.spec_bs(), self.index_iter.rev_seek_rest(target), target)
    }

    /// The data block is the one the index's current entry names, and it is
    /// on an entry; or nothing is left.
    closed spec fn rev_mode(&self) -> bool {
        &&& self.index_iter.rev_mode()
        &&& match self.data_iter {
            Some(d) => {
                &&& ReverseIter::rev_mode(&d)
                &&& self.index_iter.current() matches Some(e) ==> {
                    &&& d.inner().items() == block_items(node(self.src(), self.spec_bs(), e.1))
                    &&& d.current() is Some
                }
                &&& self.index_iter.current() is None ==> d.rev_rest() == Seq::<
                    (Seq<u8>, Option<Seq<u8>>),
                >::empty()
            },
            None => self.index_iter.rev_rest() == Seq::<(Seq<u8>, u64)>::empty(),
        }
    }

    /// Every block the steps may read is sure to be read, and everything
    /// in it decodes.
    open spec fn rev_faultless(&self) -> bool {
        self.sound()
    }

    proof fn lemma_rev_head(&self) {
        self.index_iter.lemma_rev_head();
        if let Some(d) = self.data_iter {
            d.lemma_rev_head();
        }
    }

    /// Positions at the last entry of the last data block.
    fn seek_to_first(&mut self) -> (r: StorageResult<()>) {
        let ghost src = self.src();
        let ghost bs = self.spec_bs();
        let ghost i0 = self.index_iter;
        let res = self.index_iter.inner_seek_to_last();
        proof {
            self.index_iter.lemma_same_tree(&i0);
        }
        res?;
        proof {
            self.index_iter.lemma_rev_head();
        }
        if self.index_iter.valid() {
            proof {
                if old(self).sound() {
                    self.lemma_load_ok();
                }
            }
            let mut d = self.load_data_block_from_index()?;
            let ghost d0 = d;
            proof {
                if old(self).sound() {
                    lemma_data_faultless(d);
                }
            }
            ReverseIter::seek_to_first(&mut d)?;
            proof {
                self.lemma_fresh_block_r(d0, d);
                lemma_blocks_front_r(src, bs, self.index_iter.rev_rest());
            }
            self.data_iter = Some(d);
            proof {
                self.lemma_mode_on_block_r();
            }
        } else {
            self.data_iter = None;
            assert(self.index_iter.rev_rest() =~= Seq::<(Seq<u8>, u64)>::empty());
        }
        Ok(())
    }

    /// Positions at the last key not above `target`: starting at the block
    /// that would hold `target`, steps back over blocks whose keys are all
    /// above it.
    fn seek(&mut self, target: &[u8]) -> (r: StorageResult<()>) {
        let ghost src = self.src();
        let ghost bs = self.spec_bs();
        let ghost t = target@;
        let ghost i0 = self.index_iter;
        let res = self.index_iter.seek_back(target);
        proof {
            self.index_iter.lemma_same_tree(&i0);
        }
        res?;
        let ghost goal = rev_seek_blocks(src, bs, self.index_iter.rev_rest(), t);
        loop
            invariant
                self.wf(),
                self.index_iter.same_tree(&i0),
                i0 == old(self).index_iter,
                self.index_iter.rev_mode(),
                self.index_iter.ready(),
                src == self.src(),
                bs == self.spec_bs(),
                t == target@,
                rev_seek_blocks(src, bs, self.index_iter.rev_rest(), t) == goal,
                goal == old(self).rev_seek_rest(t),
                self.data_iter == old(self).data_iter,
                old(self).sound() ==> self.sound(),
            decreases self.index_iter.rev_rest().len(),
        {
            proof {
                self.index_iter.lemma_rev_head();
                self.index_iter.lemma_same_tree(&i0);
            }
            if !self.index_iter.valid() {
                self.data_iter = None;
                proof {
                    assert(self.index_iter.rev_rest() =~= Seq::<(Seq<u8>, u64)>::empty());
                }
                return Ok(());
            }
            proof {
                if old(self).sound() {
                    self.lemma_load_ok();
                }
            }
            let mut d = self.load_data_block_from_index()?;
            let ghost d0 = d;
            proof {
                if old(self).sound() {
                    lemma_data_faultless(d);
                }
            }
            ReverseIter::seek(&mut d, target)?;
            proof {
                d0.lemma_model();
                d.lemma_model();
                d0.inner().lemma_model();
                d.inner().lemma_model();
                d.lemma_rev_head();
                lemma_reverse_items(d.inner().items(), d0.inner().items());
            }
            if d.valid() {
                self.data_iter = Some(d);
                proof {
                    self.lemma_mode_on_block_r();
                }
                return Ok(());
            }
            let ghost rest = self.index_iter.rev_rest();
            let res = self.index_iter.inner_prev();
            proof {
                self.index_iter.lemma_same_tree(&i0);
            }
            res?;
            proof {
                assert(tail(rest) == rest.drop_first());
            }
        }
    }

    fn next(&mut self) -> (r: StorageResult<()>) {
        let ghost src = self.src();
        let ghost bs = self.spec_bs();
        let ghost rest0 = self.rev_rest();
        let ghost irest0 = self.index_iter.rev_rest();
        proof {
            self.index_iter.lemma_rev_head();
            if self.data_iter is None {
                assert(rest0 =~= tail(rest0));
            }
        }
        if let Some(d) = &mut self.data_iter {
            let ghost d0 = *d;
            proof {
                if old(self).sound() {
                    lemma_data_faultless(d0);
                }
                d0.lemma_model();
                d0.inner().lemma_model();
                d0.lemma_rev_head();
            }
            ReverseIter::next(d)?;
            let ghost d1 = *d;
            proof {
                d1.lemma_model();
                d1.inner().lemma_model();
                d1.lemma_rev_head();
                lemma_reverse_items(d1.inner().items(), d0.inner().items());
                lemma_tail_split(d0.rev_rest(), blocks_data_r(src, bs, tail(irest0)));
            }
            if !d.valid() {
                let ghost i0 = self.index_iter;
                let res = self.index_iter.inner_prev();
                proof {
                    self.index_iter.lemma_same_tree(&i0);
                }
                res?;
                proof {
                    self.index_iter.lemma_rev_head();
                }
                if !self.index_iter.valid() {
                    proof {
                        assert(self.index_iter.rev_rest() =~= Seq::<(Seq<u8>, u64)>::empty());
                        assert(tail(self.index_iter.rev_rest()) =~= Seq::<(Seq<u8>, u64)>::empty());
                        assert(self.rev_rest() =~= tail(rest0));
                    }
                    return Ok(());
                }
                proof {
                    if old(self).sound() {
                        self.lemma_load_ok();
                    }
                }
                let mut nd = self.load_data_block_from_index()?;
                let ghost nd0 = nd;
                proof {
                    if old(self).sound() {
                        lemma_data_faultless(nd);
                    }
                }
                ReverseIter::seek_to_first(&mut nd)?;
                proof {
                    self.lemma_fresh_block_r(nd0, nd);
                    lemma_blocks_front_r(src, bs, self.index_iter.rev_rest());
                }
                self.data_iter = Some(nd);
                proof {
                    self.lemma_mode_on_block_r();
                }
            }
        }
        Ok(())
    }
}

/// Items whose reversals agree are the same.
proof fn lemma_reverse_items(a: Seq<(Seq<u8>, Seq<u8>)>, b: Seq<(Seq<u8>, Seq<u8>)>)
    ensures
        a.reverse() == b.reverse() ==> a == b,
{
    assert(a.reverse().reverse() =~= a);
    assert(b.reverse().reverse() =~= b);
}

/// A block's entries backward are its entries forward, reversed.
proof fn lemma_block_data_r(src: Seq<u8>, bs: nat, pos: u64)
    ensures
        block_data_r(src, bs, pos) == block_data(src, bs, pos).reverse(),
{
    let items = block_items(node(src, bs, pos));
    assert(decode_items(items.reverse()) =~= decode_items(items).reverse());
}

/// Going backward through the blocks in reverse order yields the forward
/// entries reversed.
proof fn lemma_blocks_data_reverse(src: Seq<u8>, bs: nat, es: Seq<(Seq<u8>, u64)>)
    ensures
        blocks_data_r(src, bs, es.reverse()) == blocks_data(src, bs, es).reverse(),
    decreases es.len(),
{
    if es.len() == 0 {
        assert(es.reverse() =~= es);
        assert(blocks_data(src, bs, es).reverse() =~= Seq::<(Seq<u8>, Option<Seq<u8>>)>::empty());
    } else {
        let init = es.drop_last();
        let last = es.last();
        assert(es.reverse() =~= seq![last] + init.reverse());
        assert((seq![last] + init.reverse()).drop_first() =~= init.reverse());
        lemma_blocks_data_reverse(src, bs, init);
        lemma_blocks_data_push(src, bs, init, last);
        assert(init.push(last) =~= es);
        lemma_block_data_r(src, bs, last.1);
        let a = blocks_data(src, bs, init);
        let b = block_data(src, bs, last.1);
        assert((a + b).reverse() =~= b.reverse() + a.reverse());
    }
}

/// Appending a block to a run appends its entries.
proof fn lemma_blocks_data_push(src: Seq<u8>, bs: nat, es: Seq<(Seq<u8>, u64)>, e: (Seq<u8>, u64))
    ensures
        blocks_data(src, bs, es.push(e)) == blocks_data(src, bs, es) + block_data(src, bs, e.1),
    decreases es.len(),
{
    if es.len() == 0 {
        let none = Seq::<(Seq<u8>, u64)>::empty();
        assert(es.push(e).drop_first() =~= none);
        assert(blocks_data(src, bs, none) =~= Seq::<(Seq<u8>, Option<Seq<u8>>)>::empty());
        assert(es.push(e)[0] == e);
        assert(blocks_data(src, bs, es.push(e)) =~= block_data(src, bs, e.1));
        assert(blocks_data(src, bs, es) + block_data(src, bs, e.1) =~= block_data(src, bs, e.1));
    } else {
        assert(es.push(e).drop_first() =~= es.drop_first().push(e));
        lemma_blocks_data_push(src, bs, es.drop_first(), e);
        assert(blocks_data(src, bs, es.push(e)) =~= blocks_data(src, bs, es) + block_data(src, bs, e.1));
    }
}

impl<R: BlockReader> SstIter<R> {
    /// A backward scan from the last entry yields exactly what a forward
    /// scan from the first entry yields, in reverse order.
    pub proof fn lemma_backward_scan_is_forward_reversed(&self)
        requires
            self.wf(),
        ensures
            self.rev_all() == self.fwd_all().reverse(),
    {
        self.index_iter.lemma_reverse_is_forward_reversed();
        lemma_blocks_data_reverse(self.src(), self.spec_bs(), self.index_iter.fwd_all());
    }
}

} // verus!
