//! Iterator over the leaf entries of an SST's index tree: `(end key, data
//! block offset)` pairs. It holds one block iterator per level, from the
//! root down to the current leaf-level block.

use vstd::prelude::*;
use std::sync::Arc;
use crate::block::{BlockReader, Position};
use crate::buf::bytes_view;
use crate::builder::footer::SstFooter;
use crate::builder::sst::SstOption;
use crate::codec::be_value;
use crate::errors::{StorageError, StorageResult};
use crate::iterators::block_iter::NormalBlockIter;
use crate::iterators::index_entry_decode_iter::{
    index_current, index_header_ok, index_headers_ok, index_items, IndexEntryDecodeIter,
};
use crate::iterators::index_tree::{
    child_of, data_ok, lemma_lower_bound_found, lemma_lower_bound_sorted, lemma_subtrees_front, node,
    offsets_of, seek_desc, subtree, subtrees, tree_ok,
};
use crate::iterators::storage_iter::{
    fwd_rest_at, keys_of, leaf_fwd_seek, lemma_lower_bound_range, lemma_upper_bound_range,
    lower_bound, rev_rest_at, tail, upper_bound, ForwardIter, IterBase, IterRead, ReverseIter,
};

verus! {

/// One level of the index tree: an index block iterator.
pub type Level = IndexEntryDecodeIter<NormalBlockIter>;

/// The raw entries of the block level `l` iterates.
pub open spec fn lv_items(s: Seq<Level>, l: int) -> Seq<(Seq<u8>, Seq<u8>)> {
    s[l].inner().items()
}

/// The index of level `l`'s current entry (its entry count when exhausted).
pub open spec fn lv_at(s: Seq<Level>, l: int) -> int {
    match s[l].inner().cursor() {
        Some(c) => c,
        None => lv_items(s, l).len() as int,
    }
}

/// The offset of the block level `l` iterates: the root for level 0, else
/// the child named by the current entry of level `l - 1`.
pub open spec fn lv_pos(s: Seq<Level>, root: u64, l: int) -> u64 {
    if l <= 0 {
        root
    } else {
        child_of(lv_items(s, l - 1)[lv_at(s, l - 1)].1)
    }
}

/// What level `l` still yields, from its current entry on, in a tree of
/// depth `d` (the leaf level is level `d`).
pub open spec fn lv_rest(src: Seq<u8>, bs: nat, s: Seq<Level>, d: nat, l: int) -> Seq<
    (Seq<u8>, u64),
> {
    let items = lv_items(s, l);
    if l >= d {
        offsets_of(items).skip(lv_at(s, l))
    } else {
        subtrees(src, bs, items, lv_at(s, l), items.len() as int, (d - 1 - l) as nat)
    }
}

/// What level `l` yields after its current entry's subtree.
pub open spec fn lv_rem(src: Seq<u8>, bs: nat, s: Seq<Level>, d: nat, l: int) -> Seq<
    (Seq<u8>, u64),
> {
    let items = lv_items(s, l);
    subtrees(src, bs, items, lv_at(s, l) + 1, items.len() as int, (d - 1 - l) as nat)
}

/// What the levels below `k` yield after the path: the deepest first.
pub open spec fn lv_tail(src: Seq<u8>, bs: nat, s: Seq<Level>, d: nat, k: int) -> Seq<
    (Seq<u8>, u64),
>
    decreases k,
{
    if k <= 0 {
        Seq::empty()
    } else {
        lv_rem(src, bs, s, d, k - 1) + lv_tail(src, bs, s, d, k - 1)
    }
}

/// What a stack of levels yields: the top level's rest, then what each
/// level below yields after it.
pub open spec fn stack_rest(src: Seq<u8>, bs: nat, s: Seq<Level>, d: nat) -> Seq<
    (Seq<u8>, u64),
> {
    if s.len() == 0 {
        Seq::empty()
    } else {
        lv_rest(src, bs, s, d, s.len() - 1) + lv_tail(src, bs, s, d, s.len() - 1)
    }
}

/// Level `l` iterates the block on the path, which is a well-formed tree.
pub open spec fn lv_ok(src: Seq<u8>, bs: nat, root: u64, s: Seq<Level>, d: nat, l: int) -> bool {
    &&& s[l].wf()
    &&& lv_items(s, l) == crate::format::block_items(node(src, bs, lv_pos(s, root, l)))
    &&& tree_ok(src, bs, lv_pos(s, root, l), (d - l) as nat)
}

/// A stack of levels along one root-to-leaf path; every level but the top
/// is on an entry.
pub open spec fn stack_ok(src: Seq<u8>, bs: nat, root: u64, s: Seq<Level>, d: nat) -> bool {
    &&& s.len() <= d + 1
    &&& forall|l: int| 0 <= l < s.len() ==> #[trigger] lv_ok(src, bs, root, s, d, l)
    &&& forall|l: int| 0 <= l < s.len() - 1 ==> #[trigger] s[l].inner().cursor() is Some
}

/// The position model of a level iterator, read off its decoder.
proof fn lemma_level(x: Level)
    requires
        x.wf(),
    ensures
        x.inner().wf(),
        x.inner().cursor() matches Some(c) ==> 0 <= c < x.inner().items().len(),
        x.current() == index_current(
            match x.inner().cursor() {
                Some(c) => Some(x.inner().items()[c]),
                None => None,
            },
        ),
        x.fwd_all() == index_items(x.inner().items()),
        x.inner().fwd_all() == x.inner().items(),
        x.inner().rev_all() == x.inner().items().reverse(),
        x.fwd_rest() == index_items(fwd_rest_at(x.inner().items(), x.inner().cursor())),
        forall|t: Seq<u8>| #[trigger]
            x.fwd_seek_rest(t) == index_items(leaf_fwd_seek(x.inner().items(), t)),
        ForwardIter::fwd_mode(&x),
        x.rev_all() == index_items(x.inner().items().reverse()),
        x.rev_rest() == index_items(rev_rest_at(x.inner().items(), x.inner().cursor())),
        ReverseIter::rev_mode(&x),
{
    x.lemma_model();
    x.inner().lemma_model();
}

/// The cursor a forward rest of known length leaves.
proof fn lemma_at_of_len(items: Seq<(Seq<u8>, Seq<u8>)>, cur: Option<int>, k: int)
    requires
        cur matches Some(c) ==> 0 <= c < items.len(),
        0 <= k <= items.len(),
        index_items(fwd_rest_at(items, cur)).len() == items.len() - k,
    ensures
        (match cur {
            Some(c) => c,
            None => items.len() as int,
        }) == k,
{
}

/// Two stacks that agree below `k` yield the same after their paths there.
proof fn lemma_tail_frame(src: Seq<u8>, bs: nat, s1: Seq<Level>, s2: Seq<Level>, d: nat, k: int)
    requires
        k <= s1.len(),
        k <= s2.len(),
        forall|l: int| 0 <= l < k ==> s1[l] == s2[l],
    ensures
        lv_tail(src, bs, s1, d, k) == lv_tail(src, bs, s2, d, k),
    decreases k,
{
    if k > 0 {
        lemma_tail_frame(src, bs, s1, s2, d, k - 1);
        assert(s1[k - 1] == s2[k - 1]);
    }
}

/// Every block of the index tree under `pos` (`d` levels above the leaf
/// level) is sure to be read by `reader`, and each of its entries stores a
/// known version byte and an 8-byte child offset.
pub open spec fn index_sound<B: BlockReader>(reader: B, pos: u64, d: nat) -> bool
    decreases d,
{
    let items = crate::format::block_items(node(reader.source(), reader.spec_block_size(), pos));
    &&& reader.readable(pos)
    &&& index_headers_ok(items)
    &&& d > 0 ==> forall|i: int|
        0 <= i < items.len() ==> index_sound(reader, child_of(#[trigger] items[i].1), (d - 1) as nat)
}

/// The children of a sound block are sound.
pub proof fn lemma_child_sound<B: BlockReader>(r: B, pos: u64, d: nat, i: int)
    requires
        index_sound(r, pos, d),
        d > 0,
        0 <= i < crate::format::block_items(node(r.source(), r.spec_block_size(), pos)).len(),
    ensures
        index_sound(
            r,
            child_of(crate::format::block_items(node(r.source(), r.spec_block_size(), pos))[i].1),
            (d - 1) as nat,
        ),
{
}

proof fn lemma_headers_skip(items: Seq<(Seq<u8>, Seq<u8>)>, k: int)
    requires
        index_headers_ok(items),
        0 <= k <= items.len(),
    ensures
        index_headers_ok(items.skip(k)),
{
    assert forall|i: int| 0 <= i < items.skip(k).len() implies #[trigger] index_header_ok(
        items.skip(k)[i].1,
    ) by {
        assert(items.skip(k)[i] == items[i + k]);
    }
}

proof fn lemma_headers_take_rev(items: Seq<(Seq<u8>, Seq<u8>)>, k: int)
    requires
        index_headers_ok(items),
        0 <= k <= items.len(),
    ensures
        index_headers_ok(items.take(k).reverse()),
{
    assert forall|i: int| 0 <= i < items.take(k).reverse().len() implies #[trigger] index_header_ok(
        items.take(k).reverse()[i].1,
    ) by {
        assert(items.take(k).reverse()[i] == items[k - 1 - i]);
    }
}

/// A level over a block whose entries all decode never fails a step.
proof fn lemma_level_faultless(x: Level)
    requires
        x.wf(),
        index_headers_ok(x.inner().items()),
        x.inner().items().len() > 0,
    ensures
        ForwardIter::fwd_faultless(&x),
        ReverseIter::rev_faultless(&x),
{
    crate::iterators::block_iter::lemma_readable_items(x.inner().block_bytes());
    lemma_level(x);
    x.inner().lemma_model();
    let items = x.inner().items();
    let n = items.len() as int;
    assert forall|t: Seq<u8>| #[trigger] index_headers_ok(x.inner().fwd_seek_rest(t)) by {
        lemma_lower_bound_range(keys_of(items), t, 0, n);
        lemma_headers_skip(items, lower_bound(keys_of(items), t, 0, n));
    }
    assert forall|t: Seq<u8>| #[trigger] index_headers_ok(x.inner().rev_seek_rest(t)) by {
        lemma_upper_bound_range(keys_of(items), t, 0, n);
        lemma_headers_take_rev(items, upper_bound(keys_of(items), t, 0, n));
    }
    lemma_headers_take_rev(items, n);
    assert(items.take(n) =~= items);
    if let Some(c) = x.inner().cursor() {
        lemma_headers_skip(items, c);
        lemma_headers_take_rev(items, c + 1);
    }
}

/// Along a stack of levels over a sound tree, every level reads a sound
/// block.
proof fn lemma_path_sound<B: BlockReader>(r: B, root: u64, s: Seq<Level>, d: nat, l: int)
    requires
        stack_ok(r.source(), r.spec_block_size(), root, s, d),
        index_sound(r, root, d),
        0 <= l < s.len(),
    ensures
        index_sound(r, lv_pos(s, root, l), (d - l) as nat),
    decreases l,
{
    if l > 0 {
        let src = r.source();
        let bs = r.spec_block_size();
        lemma_path_sound(r, root, s, d, l - 1);
        assert(lv_ok(src, bs, root, s, d, l - 1));
        lemma_level(s[l - 1]);
        assert(s[l - 1].inner().cursor() is Some);
        let items = lv_items(s, l - 1);
        let c = lv_at(s, l - 1);
        assert(0 <= c < items.len());
        assert(index_sound(r, child_of(items[c].1), (d - l) as nat));
    }
}

/// Every leaf entry of the tree under the block at `pos` (`d` levels above
/// the leaf level) names a position where `ok` holds.
pub open spec fn leaves_all(src: Seq<u8>, bs: nat, pos: u64, d: nat, ok: spec_fn(u64) -> bool) -> bool
    decreases d,
{
    let items = crate::format::block_items(node(src, bs, pos));
    &&& d == 0 ==> forall|i: int| 0 <= i < items.len() ==> ok(child_of(#[trigger] items[i].1))
    &&& d > 0 ==> forall|i: int|
        0 <= i < items.len() ==> leaves_all(src, bs, child_of(#[trigger] items[i].1), (d - 1) as nat, ok)
}

proof fn lemma_path_leaves(
    src: Seq<u8>,
    bs: nat,
    root: u64,
    s: Seq<Level>,
    d: nat,
    l: int,
    ok: spec_fn(u64) -> bool,
)
    requires
        stack_ok(src, bs, root, s, d),
        leaves_all(src, bs, root, d, ok),
        0 <= l < s.len(),
    ensures
        leaves_all(src, bs, lv_pos(s, root, l), (d - l) as nat, ok),
    decreases l,
{
    if l > 0 {
        lemma_path_leaves(src, bs, root, s, d, l - 1, ok);
        assert(lv_ok(src, bs, root, s, d, l - 1));
        lemma_level(s[l - 1]);
        assert(s[l - 1].inner().cursor() is Some);
        let items = lv_items(s, l - 1);
        let c = lv_at(s, l - 1);
        assert(0 <= c < items.len());
        assert(leaves_all(src, bs, child_of(items[c].1), (d - l) as nat, ok));
    }
}

/// Along a stack of levels over a tree whose root block has entries, every
/// level's block has entries (each child of an inner block has some).
proof fn lemma_path_nonempty(src: Seq<u8>, bs: nat, root: u64, s: Seq<Level>, d: nat, l: int)
    requires
        stack_ok(src, bs, root, s, d),
        crate::format::block_items(node(src, bs, root)).len() > 0,
        0 <= l < s.len(),
    ensures
        lv_items(s, l).len() > 0,
    decreases l,
{
    assert(lv_ok(src, bs, root, s, d, l));
    if l > 0 {
        lemma_path_nonempty(src, bs, root, s, d, l - 1);
        assert(lv_ok(src, bs, root, s, d, l - 1));
        lemma_level(s[l - 1]);
        assert(s[l - 1].inner().cursor() is Some);
        let items = lv_items(s, l - 1);
        let c = lv_at(s, l - 1);
        assert(0 <= c < items.len());
        assert(child_of(items[c].1) == lv_pos(s, root, l));
    }
}

/// Iterator over the leaf entries of an SST index.
pub struct IndexTreeIter<R> {
    reader: Arc<R>,
    option: SstOption,
    tree_height: usize,
    root_position: Position,
    /// `index_iters[0]` is the root level; the last is the current level.
    index_iters: Vec<Level>,
    curr_iter_idx: usize,
}

impl<R: BlockReader> IndexTreeIter<R> {
    pub closed spec fn src(&self) -> Seq<u8> {
        self.reader.source()
    }

    /// The reader is sure to read a block at `offset`.
    pub closed spec fn readable_at(&self, offset: u64) -> bool {
        self.reader.readable(offset)
    }

    pub closed spec fn spec_bs(&self) -> nat {
        self.reader.spec_block_size()
    }

    pub closed spec fn height(&self) -> nat {
        self.tree_height as nat
    }

    pub closed spec fn root(&self) -> u64 {
        self.root_position.offset
    }

    /// Levels below the root (the leaf level's number).
    pub open spec fn depth(&self) -> nat {
        (self.height() - 2) as nat
    }

    closed spec fn levels(&self) -> Seq<Level> {
        self.index_iters@
    }

    /// The reader the iterator reads blocks through.
    pub closed spec fn block_reader(&self) -> Arc<R> {
        self.reader
    }

    /// Every index block is sure to be read, every index entry decodes, and
    /// the root block is not empty (trees of height 2 and more). Then every
    /// step succeeds.
    pub closed spec fn sound(&self) -> bool {
        self.tree_height >= 2 ==> {
            &&& index_sound(self.reader, self.root(), self.depth())
            &&& crate::format::block_items(node(self.src(), self.spec_bs(), self.root())).len() > 0
        }
    }

    /// In a sound tree, every level reads a sound block, and no level fails
    /// a step.
    proof fn lemma_stack_sound(&self)
        requires
            self.wf(),
            self.sound(),
            self.tree_height >= 2,
        ensures
            forall|l: int|
                0 <= l < self.index_iters@.len() ==> index_sound(
                    self.reader,
                    #[trigger] lv_pos(self.index_iters@, self.root(), l),
                    (self.depth() - l) as nat,
                ),
            forall|l: int|
                0 <= l < self.index_iters@.len() ==> ForwardIter::fwd_faultless(
                    #[trigger] &self.index_iters@[l],
                ) && ReverseIter::rev_faultless(&self.index_iters@[l]),
    {
        let s = self.index_iters@;
        assert forall|l: int| 0 <= l < s.len() implies index_sound(
            self.reader,
            #[trigger] lv_pos(s, self.root(), l),
            (self.depth() - l) as nat,
        ) by {
            lemma_path_sound(self.reader, self.root(), s, self.depth(), l);
        }
        assert forall|l: int| 0 <= l < s.len() implies ForwardIter::fwd_faultless(
            #[trigger] &s[l],
        ) && ReverseIter::rev_faultless(&s[l]) by {
            lemma_path_sound(self.reader, self.root(), s, self.depth(), l);
            assert(lv_ok(self.src(), self.spec_bs(), self.root(), s, self.depth(), l));
            lemma_path_nonempty(self.src(), self.spec_bs(), self.root(), s, self.depth(), l);
            lemma_level_faultless(s[l]);
        }
    }

    /// An iterator over the index of the SST whose footer is `footer`, read
    /// through `reader`. The index must be a well-formed tree.
    pub fn new(reader: Arc<R>, footer: &SstFooter, option: &SstOption) -> (r: StorageResult<Self>)
        requires
            footer.tree_height >= 2 ==> tree_ok(
                reader.source(),
                reader.spec_block_size(),
                footer.root_index_block_position.offset,
                (footer.tree_height - 2) as nat,
            ),
        ensures
            r matches Ok(it) && it.wf() && it.src() == reader.source() && it.spec_bs()
                == reader.spec_block_size() && it.height() == footer.tree_height && it.root()
                == footer.root_index_block_position.offset && it.current() is None
                && it.block_reader() == reader,
            r matches Ok(it) && it.sound() == (footer.tree_height >= 2 ==> {
                &&& index_sound(reader, footer.root_index_block_position.offset, (footer.tree_height - 2) as nat)
                &&& crate::format::block_items(
                    node(reader.source(), reader.spec_block_size(), footer.root_index_block_position.offset),
                ).len() > 0
            }),
    {
        let s = IndexTreeIter {
            reader,
            option: option.clone(),
            tree_height: footer.tree_height as usize,
            root_position: footer.root_index_block_position,
            index_iters: Vec::new(),
            curr_iter_idx: 0,
        };
        Ok(s)
    }

    proof fn lemma_levels_wf(&self)
        requires
            self.wf(),
        ensures
            forall|l: int| 0 <= l < self.index_iters@.len() ==> #[trigger] self.index_iters@[l].wf(),
    {
        assert forall|l: int| 0 <= l < self.index_iters@.len() implies #[trigger] self.index_iters@[
            l].wf() by {
            assert(lv_ok(
                self.src(),
                self.spec_bs(),
                self.root(),
                self.index_iters@,
                self.depth(),
                l,
            ));
        }
    }

    /// Drops every level (and rewinds to the root level).
    fn reset(&mut self)
        ensures
            final(self).index_iters@.len() == 0,
            final(self).curr_iter_idx == 0,
            final(self).reader == old(self).reader,
            final(self).tree_height == old(self).tree_height,
            final(self).root_position == old(self).root_position,
    {
        self.index_iters.clear();
        self.curr_iter_idx = 0;
    }

    fn last_index_level(&self) -> (l: usize)
        requires
            self.tree_height >= 2,
        ensures
            l == self.depth(),
    {
        self.tree_height - 2
    }

    /// Opens the index block at `pos` as a level iterator.
    fn read_level(&self, pos: Position, Ghost(d): Ghost<nat>) -> (r: StorageResult<Level>)
        requires
            tree_ok(self.src(), self.spec_bs(), pos.offset, d),
        ensures
            self.readable_at(pos.offset) ==> r is Ok,
            r matches Ok(x) ==> {
                &&& x.wf()
                &&& x.inner().items() == crate::format::block_items(
                    node(self.src(), self.spec_bs(), pos.offset),
                )
            },
    {
        let block = self.reader.read_block(&pos)?;
        proof {
            crate::iterators::block_iter::lemma_readable_items(bytes_view(block));
        }
        let it = NormalBlockIter::new(block)?;
        let x = IndexEntryDecodeIter::new(it);
        proof {
            x.lemma_fresh();
        }
        Ok(x)
    }
}

impl<R: BlockReader> IterBase for IndexTreeIter<R> {
    type Value = Position;
}

impl<R: BlockReader> IterRead for IndexTreeIter<R> {
    closed spec fn wf(&self) -> bool {
        let s = self.index_iters@;
        &&& self.tree_height >= 2 ==> tree_ok(self.src(), self.spec_bs(), self.root(), self.depth())
        &&& self.tree_height < 2 ==> s.len() == 0
        &&& stack_ok(self.src(), self.spec_bs(), self.root(), s, self.depth())
        &&& s.len() > 0 ==> self.curr_iter_idx == s.len() - 1
        &&& s.len() == 0 ==> self.curr_iter_idx == 0
    }

    closed spec fn current(&self) -> Option<(Seq<u8>, u64)> {
        let s = self.index_iters@;
        if self.curr_iter_idx < s.len() {
            match s[self.curr_iter_idx as int].current() {
                Some(kv) => Some((kv.0, be_value(kv.1) as u64)),
                None => None,
            }
        } else {
            None
        }
    }

    closed spec fn ready(&self) -> bool {
        self.curr_iter_idx < self.index_iters@.len() ==> self.index_iters@[
            self.curr_iter_idx as int].ready()
    }

    fn valid(&self) -> (b: bool) {
        proof {
            self.lemma_levels_wf();
        }
        !self.index_iters.is_empty() && self.curr_iter_idx < self.index_iters.len()
            && self.index_iters[self.curr_iter_idx].valid()
    }

    fn key(&self) -> (k: Option<&[u8]>) {
        proof {
            self.lemma_levels_wf();
        }
        if self.valid() {
            self.index_iters[self.curr_iter_idx].key()
        } else {
            None
        }
    }

    fn value(&self) -> (v: Option<Position>) {
        proof {
            self.lemma_levels_wf();
        }
        if self.valid() {
            match self.index_iters[self.curr_iter_idx].value() {
                Some(e) => {
                    let p = Position::from(e);
                    assert(p@ == be_value(e@) as u64);
                    Some(p)
                },
                None => None,
            }
        } else {
            None
        }
    }
}

/// What is left after level `l`'s current entry (nothing more from an
/// exhausted level), followed by what the levels below it yield.
pub open spec fn lv_after(src: Seq<u8>, bs: nat, s: Seq<Level>, d: nat, l: int) -> Seq<
    (Seq<u8>, u64),
> {
    let items = lv_items(s, l);
    let at = lv_at(s, l);
    (if at >= items.len() {
        Seq::empty()
    } else if l >= d {
        offsets_of(items).skip(at + 1)
    } else {
        subtrees(src, bs, items, at + 1, items.len() as int, (d - 1 - l) as nat)
    }) + lv_tail(src, bs, s, d, l)
}

/// The child named by the current entry of a tree level is a non-empty block.
pub open spec fn block_items_len_pos(src: Seq<u8>, bs: nat, pos: u64) -> bool {
    crate::format::block_items(node(src, bs, pos)).len() > 0
}

/// The child position the top level's current entry names.
pub open spec fn top_child(s: Seq<Level>) -> u64 {
    child_of(lv_items(s, s.len() - 1)[lv_at(s, s.len() - 1)].1)
}

/// A one-level stack over the root.
proof fn lemma_single(src: Seq<u8>, bs: nat, root: u64, d: nat, x: Level)
    requires
        x.wf(),
        x.inner().items() == crate::format::block_items(node(src, bs, root)),
        tree_ok(src, bs, root, d),
    ensures
        stack_ok(src, bs, root, seq![x], d),
        stack_rest(src, bs, seq![x], d) == lv_rest(src, bs, seq![x], d, 0),
{
    let s = seq![x];
    assert(lv_ok(src, bs, root, s, d, 0));
    assert(stack_rest(src, bs, s, d) =~= lv_rest(src, bs, s, d, 0));
}

/// The facts about the top level and its current entry's child.
proof fn lemma_top(src: Seq<u8>, bs: nat, root: u64, s: Seq<Level>, d: nat)
    requires
        stack_ok(src, bs, root, s, d),
        s.len() >= 1,
        s.len() - 1 < d,
        s[s.len() - 1].inner().cursor() is Some,
    ensures
        ({
            let top = s.len() - 1;
            let items = lv_items(s, top);
            let c = lv_at(s, top);
            &&& s[top].wf()
            &&& 0 <= c < items.len()
            &&& s[top].current() == Some((items[c].0, items[c].1.skip(1)))
            &&& tree_ok(src, bs, top_child(s), (d - top - 1) as nat)
            &&& block_items_len_pos(src, bs, top_child(s))
            &&& crate::format::block_items(node(src, bs, top_child(s))).last().0 == items[c].0
        }),
{
    let top = s.len() - 1;
    let items = lv_items(s, top);
    let c = lv_at(s, top);
    assert(lv_ok(src, bs, root, s, d, top));
    lemma_level(s[top]);
    let p = lv_pos(s, root, top);
    assert(items[c] == crate::format::block_items(node(src, bs, p))[c]);
}

/// Pushing the child of the top level's current entry.
#[verifier::spinoff_prover]
proof fn lemma_push(src: Seq<u8>, bs: nat, root: u64, s: Seq<Level>, d: nat, x: Level)
    requires
        stack_ok(src, bs, root, s, d),
        s.len() >= 1,
        s.len() - 1 < d,
        s[s.len() - 1].inner().cursor() is Some,
        x.wf(),
        x.inner().items() == crate::format::block_items(node(src, bs, top_child(s))),
    ensures
        ({
            let top = s.len() - 1;
            let t = s.push(x);
            &&& stack_ok(src, bs, root, t, d)
            &&& lv_pos(t, root, top + 1) == top_child(s)
            &&& lv_tail(src, bs, t, d, top + 1) == lv_rem(src, bs, s, d, top) + lv_tail(
                src,
                bs,
                s,
                d,
                top,
            )
            &&& lv_rest(src, bs, s, d, top) == subtree(
                src,
                bs,
                top_child(s),
                (d - 1 - top) as nat,
            ) + lv_rem(src, bs, s, d, top)
        }),
{
    let top = s.len() - 1;
    let t = s.push(x);
    let items = lv_items(s, top);
    let c = lv_at(s, top);
    lemma_top(src, bs, root, s, d);
    assert forall|l: int| 0 <= l < t.len() implies #[trigger] lv_ok(src, bs, root, t, d, l) by {
        if l < s.len() {
            assert(lv_ok(src, bs, root, s, d, l));
            assert(t[l] == s[l]);
            if l > 0 {
                assert(t[l - 1] == s[l - 1]);
            }
        }
    }
    assert forall|l: int| 0 <= l < t.len() - 1 implies #[trigger] t[l].inner().cursor()
        is Some by {
        assert(t[l] == s[l]);
    }
    lemma_tail_frame(src, bs, t, s, d, top);
    assert(lv_rem(src, bs, t, d, top) == lv_rem(src, bs, s, d, top)) by {
        assert(t[top] == s[top]);
    }
    lemma_subtrees_front(src, bs, items, c, items.len() as int, (d - 1 - top) as nat);
}

/// Pushing the child positioned on its first entry keeps what the stack
/// yields.
#[verifier::spinoff_prover]
proof fn lemma_push_first(src: Seq<u8>, bs: nat, root: u64, s: Seq<Level>, d: nat, x: Level)
    requires
        stack_ok(src, bs, root, s, d),
        s.len() >= 1,
        s.len() - 1 < d,
        s[s.len() - 1].inner().cursor() is Some,
        x.wf(),
        x.inner().items() == crate::format::block_items(node(src, bs, top_child(s))),
        lv_at(s.push(x), s.len() as int) == 0,
    ensures
        stack_ok(src, bs, root, s.push(x), d),
        stack_rest(src, bs, s.push(x), d) == stack_rest(src, bs, s, d),
        s.push(x)[s.len() as int].inner().cursor() is Some,
{
    let top = s.len() - 1;
    let t = s.push(x);
    lemma_push(src, bs, root, s, d, x);
    lemma_top(src, bs, root, s, d);
    lemma_level(x);
    let e = (d - 1 - top) as nat;
    let ci = lv_items(t, top + 1);
    assert(lv_rest(src, bs, t, d, top + 1) == subtree(src, bs, top_child(s), e)) by {
        if top + 1 >= d {
            assert(offsets_of(ci).skip(0) =~= offsets_of(ci));
        }
    }
    assert(stack_rest(src, bs, t, d) =~= stack_rest(src, bs, s, d));
}

/// Replacing the top level by one over the same block keeps the stack
/// consistent and leaves the levels below alone.
#[verifier::spinoff_prover]
proof fn lemma_replace_top(src: Seq<u8>, bs: nat, root: u64, s: Seq<Level>, d: nat, x: Level)
    requires
        stack_ok(src, bs, root, s, d),
        s.len() >= 1,
        x.wf(),
        x.inner().items() == lv_items(s, s.len() - 1),
    ensures
        stack_ok(src, bs, root, s.update(s.len() - 1, x), d),
        lv_tail(src, bs, s.update(s.len() - 1, x), d, s.len() - 1) == lv_tail(
            src,
            bs,
            s,
            d,
            s.len() - 1,
        ),
{
    let top = s.len() - 1;
    let t = s.update(top, x);
    assert forall|l: int| 0 <= l < t.len() implies #[trigger] lv_ok(src, bs, root, t, d, l) by {
        assert(lv_ok(src, bs, root, s, d, l));
        if l > 0 {
            assert(t[l - 1] == s[l - 1]);
        }
    }
    assert forall|l: int| 0 <= l < t.len() - 1 implies #[trigger] t[l].inner().cursor()
        is Some by {
        assert(t[l] == s[l]);
    }
    lemma_tail_frame(src, bs, t, s, d, top);
}

/// Stepping the top level one entry on yields what was after its entry.
#[verifier::spinoff_prover]
proof fn lemma_step_top(src: Seq<u8>, bs: nat, s: Seq<Level>, d: nat, x: Level)
    requires
        s.len() >= 1,
        x.inner().items() == lv_items(s, s.len() - 1),
        lv_at(s.update(s.len() - 1, x), s.len() - 1) == (if lv_at(s, s.len() - 1) < lv_items(
            s,
            s.len() - 1,
        ).len() {
            lv_at(s, s.len() - 1) + 1
        } else {
            lv_items(s, s.len() - 1).len() as int
        }),
        lv_at(s, s.len() - 1) <= lv_items(s, s.len() - 1).len(),
    ensures
        stack_rest(src, bs, s.update(s.len() - 1, x), d) == lv_after(src, bs, s, d, s.len() - 1),
{
    let top = s.len() - 1;
    let t = s.update(top, x);
    lemma_tail_frame(src, bs, t, s, d, top);
    let items = lv_items(s, top);
    if lv_at(s, top) >= items.len() {
        if top < d {
            assert(subtrees(src, bs, items, items.len() as int, items.len() as int, (d - 1 - top) as nat)
                =~= Seq::<(Seq<u8>, u64)>::empty());
        } else {
            assert(offsets_of(items).skip(items.len() as int) =~= Seq::<(Seq<u8>, u64)>::empty());
        }
    }
    assert(stack_rest(src, bs, t, d) =~= lv_after(src, bs, s, d, top));
}

/// Popping an exhausted top level: what it yielded is what the level below
/// yields after its entry.
#[verifier::spinoff_prover]
proof fn lemma_pop(src: Seq<u8>, bs: nat, root: u64, s: Seq<Level>, d: nat)
    requires
        stack_ok(src, bs, root, s, d),
        s.len() >= 1,
        lv_at(s, s.len() - 1) == lv_items(s, s.len() - 1).len(),
    ensures
        stack_ok(src, bs, root, s.drop_last(), d),
        s.len() >= 2 ==> lv_after(src, bs, s.drop_last(), d, s.len() - 2) == stack_rest(
            src,
            bs,
            s,
            d,
        ),
        s.len() == 1 ==> stack_rest(src, bs, s, d) == Seq::<(Seq<u8>, u64)>::empty(),
        s.len() >= 2 ==> s.drop_last()[s.len() - 2].inner().cursor() is Some,
{
    let top = s.len() - 1;
    let t = s.drop_last();
    let items = lv_items(s, top);
    assert forall|l: int| 0 <= l < t.len() implies #[trigger] lv_ok(src, bs, root, t, d, l) by {
        assert(lv_ok(src, bs, root, s, d, l));
        if l > 0 {
            assert(t[l - 1] == s[l - 1]);
        }
    }
    assert forall|l: int| 0 <= l < t.len() - 1 implies #[trigger] t[l].inner().cursor()
        is Some by {
        assert(t[l] == s[l]);
    }
    assert(lv_rest(src, bs, s, d, top) =~= Seq::<(Seq<u8>, u64)>::empty()) by {
        if top < d {
            assert(subtrees(src, bs, items, items.len() as int, items.len() as int, (d - 1 - top) as nat)
                =~= Seq::<(Seq<u8>, u64)>::empty());
        } else {
            assert(offsets_of(items).skip(items.len() as int) =~= Seq::<(Seq<u8>, u64)>::empty());
        }
    }
    if s.len() >= 2 {
        assert(t[top - 1] == s[top - 1]);
        lemma_tail_frame(src, bs, t, s, d, top - 1);
        assert(s[top - 1].inner().cursor() is Some);
        assert(lv_ok(src, bs, root, s, d, top - 1));
        lemma_level(s[top - 1]);
        assert(lv_after(src, bs, t, d, top - 1) =~= stack_rest(src, bs, s, d));
    } else {
        assert(stack_rest(src, bs, s, d) =~= Seq::<(Seq<u8>, u64)>::empty());
    }
}

/// The top level sits at the lower bound of `t` in its block, and what the
/// tree yields from `t` on is what the top block yields from `t` on,
/// followed by what the levels below yield after the path.
pub open spec fn located(src: Seq<u8>, bs: nat, root: u64, s: Seq<Level>, d: nat, t: Seq<u8>) -> bool {
    let top = s.len() - 1;
    let items = lv_items(s, top);
    &&& lv_at(s, top) == lower_bound(keys_of(items), t, 0, items.len() as int)
    &&& seek_desc(src, bs, root, d, t) == seek_desc(src, bs, lv_pos(s, root, top), (d - top) as nat, t)
        + lv_tail(src, bs, s, d, top)
}

/// An exhausted root level yields nothing.
proof fn lemma_root_exhausted(src: Seq<u8>, bs: nat, s: Seq<Level>, d: nat)
    requires
        s.len() == 1,
        lv_at(s, 0) == lv_items(s, 0).len(),
    ensures
        stack_rest(src, bs, s, d) == Seq::<(Seq<u8>, u64)>::empty(),
{
    let items = lv_items(s, 0);
    if 0 < d {
        assert(subtrees(src, bs, items, items.len() as int, items.len() as int, (d - 1) as nat)
            =~= Seq::<(Seq<u8>, u64)>::empty());
    } else {
        assert(offsets_of(items).skip(items.len() as int) =~= Seq::<(Seq<u8>, u64)>::empty());
    }
    assert(stack_rest(src, bs, s, d) =~= Seq::<(Seq<u8>, u64)>::empty());
}

/// A root level positioned at the lower bound of `t`.
proof fn lemma_locate_root(src: Seq<u8>, bs: nat, root: u64, d: nat, t: Seq<u8>, x: Level)
    requires
        x.wf(),
        x.inner().items() == crate::format::block_items(node(src, bs, root)),
        tree_ok(src, bs, root, d),
        lv_at(seq![x], 0) == lower_bound(keys_of(x.inner().items()), t, 0, x.inner().items().len() as int),
    ensures
        stack_ok(src, bs, root, seq![x], d),
        located(src, bs, root, seq![x], d, t),
{
    let s = seq![x];
    lemma_single(src, bs, root, d, x);
    assert(lv_tail(src, bs, s, d, 0) =~= Seq::<(Seq<u8>, u64)>::empty());
    assert(seek_desc(src, bs, root, d, t) =~= seek_desc(src, bs, lv_pos(s, root, 0), d, t)
        + lv_tail(src, bs, s, d, 0));
}

/// Descending one level toward `t`: the child, positioned at the lower
/// bound of `t`, is on an entry, since its last key is the parent's entry
/// key, which is not below `t`.
#[verifier::spinoff_prover]
#[verifier::rlimit(40)]
proof fn lemma_locate_push(
    src: Seq<u8>,
    bs: nat,
    root: u64,
    s: Seq<Level>,
    d: nat,
    t: Seq<u8>,
    x: Level,
)
    requires
        stack_ok(src, bs, root, s, d),
        located(src, bs, root, s, d, t),
        s.len() >= 1,
        s.len() - 1 < d,
        s[s.len() - 1].inner().cursor() is Some,
        x.wf(),
        x.inner().items() == crate::format::block_items(node(src, bs, top_child(s))),
        lv_at(s.push(x), s.len() as int) == lower_bound(
            keys_of(x.inner().items()),
            t,
            0,
            x.inner().items().len() as int,
        ),
    ensures
        stack_ok(src, bs, root, s.push(x), d),
        located(src, bs, root, s.push(x), d, t),
        s.push(x)[s.len() as int].inner().cursor() is Some,
{
    let top = s.len() - 1;
    let n = s.push(x);
    let items = lv_items(s, top);
    let c = lv_at(s, top);
    lemma_push(src, bs, root, s, d, x);
    lemma_top(src, bs, root, s, d);
    assert(lv_ok(src, bs, root, s, d, top));
    let p = lv_pos(s, root, top);
    // the parent's entry key is not below `t`
    lemma_lower_bound_sorted(keys_of(items), t, 0, items.len() as int);
    assert(keys_of(items)[c] == items[c].0);
    // so the child has a key not below `t`
    let ci = x.inner().items();
    assert(n[top + 1] == x);
    assert(tree_ok(src, bs, top_child(s), (d - top - 1) as nat));
    assert(keys_of(ci).last() == ci.last().0);
    lemma_lower_bound_found(keys_of(ci), t);
    lemma_level(x);
    // what the tree yields from `t` on, one level down
    let e = (d - 1 - top) as nat;
    assert(seek_desc(src, bs, p, (d - top) as nat, t) == seek_desc(src, bs, top_child(s), e, t)
        + lv_rem(src, bs, s, d, top));
    assert(seek_desc(src, bs, root, d, t) =~= seek_desc(src, bs, lv_pos(n, root, top + 1), e, t)
        + lv_tail(src, bs, n, d, top + 1));
}

/// When the descent ends (at the leaf level, or at an exhausted root), the
/// stack yields what the tree yields from `t` on.
proof fn lemma_locate_done(src: Seq<u8>, bs: nat, root: u64, s: Seq<Level>, d: nat, t: Seq<u8>)
    requires
        stack_ok(src, bs, root, s, d),
        located(src, bs, root, s, d, t),
        s.len() >= 1,
        s.len() - 1 == d || (s.len() == 1 && s[0].inner().cursor() is None),
    ensures
        stack_rest(src, bs, s, d) == seek_desc(src, bs, root, d, t),
{
    let top = s.len() - 1;
    let items = lv_items(s, top);
    assert(lv_ok(src, bs, root, s, d, top));
    lemma_level(s[top]);
    if top == d {
        assert(stack_rest(src, bs, s, d) =~= seek_desc(src, bs, root, d, t));
    } else {
        lemma_root_exhausted(src, bs, s, d);
        assert(lv_tail(src, bs, s, d, 0) =~= Seq::<(Seq<u8>, u64)>::empty());
        assert(seek_desc(src, bs, root, d, t) =~= Seq::<(Seq<u8>, u64)>::empty());
    }
}

/// Stepping a level forward moves its entry index on by one, up to the end.
proof fn lemma_level_step(x0: Level, x: Level)
    requires
        x0.wf(),
        x.wf(),
        x.inner().items() == x0.inner().items(),
        ForwardIter::fwd_rest(&x) == tail(ForwardIter::fwd_rest(&x0)),
    ensures
        ({
            let len = x0.inner().items().len() as int;
            let a0 = match x0.inner().cursor() { Some(c) => c, None => len };
            let a = match x.inner().cursor() { Some(c) => c, None => len };
            a == if a0 < len { a0 + 1 } else { len }
        }),
{
    lemma_level(x0);
    lemma_level(x);
    let items = x0.inner().items();
    let len = items.len() as int;
    let a0 = match x0.inner().cursor() { Some(c) => c, None => len };
    let k = if a0 < len { a0 + 1 } else { len };
    lemma_at_of_len(items, x.inner().cursor(), k);
}

/// Stepping the top level forward: the stack stays consistent and yields
/// what was after the top level's entry.
proof fn lemma_step_level(src: Seq<u8>, bs: nat, root: u64, s: Seq<Level>, d: nat, x: Level)
    requires
        stack_ok(src, bs, root, s, d),
        s.len() >= 1,
        x.wf(),
        x.inner().items() == s[s.len() - 1].inner().items(),
        ForwardIter::fwd_rest(&x) == tail(ForwardIter::fwd_rest(&s[s.len() - 1])),
    ensures
        ({
            let top = s.len() - 1;
            let t = s.update(top, x);
            &&& stack_ok(src, bs, root, t, d)
            &&& stack_rest(src, bs, t, d) == lv_after(src, bs, s, d, top)
            &&& x.inner().cursor() is None ==> lv_at(t, top) == lv_items(t, top).len()
        }),
{
    let top = s.len() - 1;
    assert(lv_ok(src, bs, root, s, d, top));
    lemma_level(s[top]);
    lemma_level(x);
    lemma_level_step(s[top], x);
    lemma_replace_top(src, bs, root, s, d, x);
    lemma_step_top(src, bs, s, d, x);
}

// ── Going backward ──

/// What level `l` still yields going backward: its current entry's
/// subtree and those before it, last first.
pub open spec fn lv_rest_r(src: Seq<u8>, bs: nat, s: Seq<Level>, d: nat, l: int) -> Seq<
    (Seq<u8>, u64),
> {
    let items = lv_items(s, l);
    match s[l].inner().cursor() {
        Some(c) => (if l >= d {
            offsets_of(items).take(c + 1)
        } else {
            subtrees(src, bs, items, 0, c + 1, (d - 1 - l) as nat)
        }).reverse(),
        None => Seq::empty(),
    }
}

/// What level `l` yields going backward after its current entry's subtree.
pub open spec fn lv_rem_r(src: Seq<u8>, bs: nat, s: Seq<Level>, d: nat, l: int) -> Seq<
    (Seq<u8>, u64),
> {
    subtrees(src, bs, lv_items(s, l), 0, lv_at(s, l), (d - 1 - l) as nat).reverse()
}

/// What the levels below `k` yield going backward after the path.
pub open spec fn lv_tail_r(src: Seq<u8>, bs: nat, s: Seq<Level>, d: nat, k: int) -> Seq<
    (Seq<u8>, u64),
>
    decreases k,
{
    if k <= 0 {
        Seq::empty()
    } else {
        lv_rem_r(src, bs, s, d, k - 1) + lv_tail_r(src, bs, s, d, k - 1)
    }
}

/// What a stack of levels yields going backward.
pub open spec fn stack_rest_r(src: Seq<u8>, bs: nat, s: Seq<Level>, d: nat) -> Seq<
    (Seq<u8>, u64),
> {
    if s.len() == 0 {
        Seq::empty()
    } else {
        lv_rest_r(src, bs, s, d, s.len() - 1) + lv_tail_r(src, bs, s, d, s.len() - 1)
    }
}

/// What is left going backward after level `l`'s current entry, then what
/// the levels below it yield.
pub open spec fn lv_after_r(src: Seq<u8>, bs: nat, s: Seq<Level>, d: nat, l: int) -> Seq<
    (Seq<u8>, u64),
> {
    let items = lv_items(s, l);
    (match s[l].inner().cursor() {
        Some(c) => (if l >= d {
            offsets_of(items).take(c)
        } else {
            subtrees(src, bs, items, 0, c, (d - 1 - l) as nat)
        }).reverse(),
        None => Seq::empty(),
    }) + lv_tail_r(src, bs, s, d, l)
}

/// What going backward from the last leaf entry whose block holds `t`
/// yields: descend through the lower bound of `t` at each level.
pub open spec fn rev_seek_desc(src: Seq<u8>, bs: nat, pos: u64, d: nat, t: Seq<u8>) -> Seq<
    (Seq<u8>, u64),
>
    decreases d,
{
    let items = crate::format::block_items(node(src, bs, pos));
    let i = lower_bound(keys_of(items), t, 0, items.len() as int);
    if i >= items.len() || i < 0 {
        Seq::empty()
    } else if d == 0 {
        offsets_of(items).take(i + 1).reverse()
    } else {
        rev_seek_desc(src, bs, child_of(items[i].1), (d - 1) as nat, t) + subtrees(
            src,
            bs,
            items,
            0,
            i,
            (d - 1) as nat,
        ).reverse()
    }
}

/// Reversing a concatenation reverses the order of its parts.
proof fn lemma_reverse_add<A>(a: Seq<A>, b: Seq<A>)
    ensures
        (a + b).reverse() == b.reverse() + a.reverse(),
{
    assert((a + b).reverse() =~= b.reverse() + a.reverse());
}

/// Two stacks that agree below `k` yield the same going backward there.
proof fn lemma_tail_frame_r(src: Seq<u8>, bs: nat, s1: Seq<Level>, s2: Seq<Level>, d: nat, k: int)
    requires
        k <= s1.len(),
        k <= s2.len(),
        forall|l: int| 0 <= l < k ==> s1[l] == s2[l],
    ensures
        lv_tail_r(src, bs, s1, d, k) == lv_tail_r(src, bs, s2, d, k),
    decreases k,
{
    if k > 0 {
        lemma_tail_frame_r(src, bs, s1, s2, d, k - 1);
        assert(s1[k - 1] == s2[k - 1]);
    }
}

/// The cursor a backward rest of known length leaves.
proof fn lemma_at_of_len_r(items: Seq<(Seq<u8>, Seq<u8>)>, cur: Option<int>, k: int)
    requires
        cur matches Some(c) ==> 0 <= c < items.len(),
        0 <= k <= items.len(),
        index_items(rev_rest_at(items, cur)).len() == k,
    ensures
        cur == (if k > 0 {
            Some(k - 1)
        } else {
            None::<int>
        }),
{
}

/// Stepping a level backward moves its entry index back by one, down to
/// none.
proof fn lemma_level_step_r(x0: Level, x: Level)
    requires
        x0.wf(),
        x.wf(),
        x.inner().items() == x0.inner().items(),
        ReverseIter::rev_rest(&x) == tail(ReverseIter::rev_rest(&x0)),
    ensures
        x0.inner().cursor() matches Some(c) ==> x.inner().cursor() == (if c > 0 {
            Some(c - 1)
        } else {
            None::<int>
        }),
        x0.inner().cursor() is None ==> x.inner().cursor() is None,
{
    lemma_level(x0);
    lemma_level(x);
    let items = x0.inner().items();
    let k = match x0.inner().cursor() {
        Some(c) => c,
        None => 0,
    };
    lemma_at_of_len_r(items, x.inner().cursor(), k);
}

/// A one-level stack over the root, going backward.
proof fn lemma_single_r(src: Seq<u8>, bs: nat, d: nat, x: Level)
    ensures
        stack_rest_r(src, bs, seq![x], d) == lv_rest_r(src, bs, seq![x], d, 0),
{
    let s = seq![x];
    assert(stack_rest_r(src, bs, s, d) =~= lv_rest_r(src, bs, s, d, 0));
}

/// A level positioned at its last entry (none for an empty block) yields
/// its whole subtree going backward.
proof fn lemma_last_entry_r(src: Seq<u8>, bs: nat, s: Seq<Level>, d: nat, l: int)
    requires
        0 <= l < s.len(),
        l <= d,
        s[l].inner().cursor() == (if lv_items(s, l).len() > 0 {
            Some(lv_items(s, l).len() - 1)
        } else {
            None::<int>
        }),
    ensures
        lv_rest_r(src, bs, s, d, l) == (if l >= d {
            offsets_of(lv_items(s, l))
        } else {
            subtrees(src, bs, lv_items(s, l), 0, lv_items(s, l).len() as int, (d - 1 - l) as nat)
        }).reverse(),
{
    let items = lv_items(s, l);
    if items.len() > 0 {
        if l >= d {
            assert(offsets_of(items).take(items.len() as int) =~= offsets_of(items));
        }
    } else {
        if l >= d {
            assert(offsets_of(items) =~= Seq::<(Seq<u8>, u64)>::empty());
        }
        assert(lv_rest_r(src, bs, s, d, l) =~= Seq::<(Seq<u8>, u64)>::empty().reverse());
    }
}

/// Pushing the child of the top level's current entry, positioned at its
/// last entry, keeps what the stack yields going backward.
#[verifier::spinoff_prover]
proof fn lemma_push_last(src: Seq<u8>, bs: nat, root: u64, s: Seq<Level>, d: nat, x: Level)
    requires
        stack_ok(src, bs, root, s, d),
        s.len() >= 1,
        s.len() - 1 < d,
        s[s.len() - 1].inner().cursor() is Some,
        x.wf(),
        x.inner().items() == crate::format::block_items(node(src, bs, top_child(s))),
        x.inner().cursor() == (if x.inner().items().len() > 0 {
            Some(x.inner().items().len() - 1)
        } else {
            None::<int>
        }),
    ensures
        stack_ok(src, bs, root, s.push(x), d),
        stack_rest_r(src, bs, s.push(x), d) == stack_rest_r(src, bs, s, d),
{
    let top = s.len() - 1;
    let t = s.push(x);
    let items = lv_items(s, top);
    let c = lv_at(s, top);
    let e = (d - 1 - top) as nat;
    lemma_push(src, bs, root, s, d, x);
    lemma_top(src, bs, root, s, d);
    assert(t[top + 1] == x);
    lemma_last_entry_r(src, bs, t, d, top + 1);
    assert(lv_rest_r(src, bs, t, d, top + 1) == subtree(src, bs, top_child(s), e).reverse());
    lemma_tail_frame_r(src, bs, t, s, d, top);
    assert(t[top] == s[top]);
    assert(lv_rem_r(src, bs, t, d, top) == lv_rem_r(src, bs, s, d, top));
    // the top level's rest splits at its current entry
    assert(subtrees(src, bs, items, 0, c + 1, e) == subtrees(src, bs, items, 0, c, e) + subtree(
        src,
        bs,
        top_child(s),
        e,
    ));
    lemma_reverse_add(subtrees(src, bs, items, 0, c, e), subtree(src, bs, top_child(s), e));
    assert(stack_rest_r(src, bs, t, d) =~= stack_rest_r(src, bs, s, d));
}

/// Stepping the top level one entry back yields what was before its entry.
#[verifier::spinoff_prover]
proof fn lemma_step_top_r(src: Seq<u8>, bs: nat, s: Seq<Level>, d: nat, x: Level)
    requires
        s.len() >= 1,
        x.inner().items() == lv_items(s, s.len() - 1),
        s[s.len() - 1].inner().cursor() matches Some(c) ==> x.inner().cursor() == (if c > 0 {
            Some(c - 1)
        } else {
            None::<int>
        }),
        s[s.len() - 1].inner().cursor() is None ==> x.inner().cursor() is None,
        s[s.len() - 1].inner().cursor() matches Some(c) ==> c >= 0,
    ensures
        stack_rest_r(src, bs, s.update(s.len() - 1, x), d) == lv_after_r(
            src,
            bs,
            s,
            d,
            s.len() - 1,
        ),
{
    let top = s.len() - 1;
    let t = s.update(top, x);
    let items = lv_items(s, top);
    lemma_tail_frame_r(src, bs, t, s, d, top);
    assert(t[top] == x);
    assert(lv_items(t, top) == items);
    assert(s[s.len() - 1] == s[top]);
    let head = match s[top].inner().cursor() {
        Some(c) => (if top >= d {
            offsets_of(items).take(c)
        } else {
            subtrees(src, bs, items, 0, c, (d - 1 - top) as nat)
        }).reverse(),
        None => Seq::<(Seq<u8>, u64)>::empty(),
    };
    assert(lv_rest_r(src, bs, t, d, top) =~= head) by {
        match s[top].inner().cursor() {
            Some(c) => {
                if c == 0 {
                    assert(x.inner().cursor() is None);
                    if top >= d {
                        assert(offsets_of(items).take(0) =~= Seq::<(Seq<u8>, u64)>::empty());
                    } else {
                        assert(subtrees(src, bs, items, 0, 0, (d - 1 - top) as nat) =~= Seq::<
                            (Seq<u8>, u64),
                        >::empty());
                    }
                    assert(lv_rest_r(src, bs, t, d, top) =~= Seq::<(Seq<u8>, u64)>::empty());
                } else {
                    assert(x.inner().cursor() == Some(c - 1));
                    assert(c - 1 + 1 == c);
                }
            },
            None => {},
        }
    }
    assert(stack_rest_r(src, bs, t, d) =~= lv_after_r(src, bs, s, d, top));
}

/// Stepping the top level backward: the stack stays consistent and yields
/// what was before the top level's entry.
proof fn lemma_step_level_r(src: Seq<u8>, bs: nat, root: u64, s: Seq<Level>, d: nat, x: Level)
    requires
        stack_ok(src, bs, root, s, d),
        s.len() >= 1,
        x.wf(),
        x.inner().items() == s[s.len() - 1].inner().items(),
        ReverseIter::rev_rest(&x) == tail(ReverseIter::rev_rest(&s[s.len() - 1])),
    ensures
        ({
            let top = s.len() - 1;
            let t = s.update(top, x);
            &&& stack_ok(src, bs, root, t, d)
            &&& stack_rest_r(src, bs, t, d) == lv_after_r(src, bs, s, d, top)
        }),
{
    let top = s.len() - 1;
    assert(lv_ok(src, bs, root, s, d, top));
    lemma_level(s[top]);
    lemma_level(x);
    lemma_level_step_r(s[top], x);
    lemma_replace_top(src, bs, root, s, d, x);
    lemma_step_top_r(src, bs, s, d, x);
}

/// Popping an exhausted top level: what it yielded going backward is what
/// the level below yields before its entry.
#[verifier::spinoff_prover]
proof fn lemma_pop_r(src: Seq<u8>, bs: nat, root: u64, s: Seq<Level>, d: nat)
    requires
        stack_ok(src, bs, root, s, d),
        s.len() >= 1,
        s[s.len() - 1].inner().cursor() is None,
    ensures
        stack_ok(src, bs, root, s.drop_last(), d),
        s.len() >= 2 ==> lv_after_r(src, bs, s.drop_last(), d, s.len() - 2) == stack_rest_r(
            src,
            bs,
            s,
            d,
        ),
        s.len() == 1 ==> stack_rest_r(src, bs, s, d) == Seq::<(Seq<u8>, u64)>::empty(),
        s.len() >= 2 ==> s.drop_last()[s.len() - 2].inner().cursor() is Some,
{
    let top = s.len() - 1;
    let t = s.drop_last();
    lemma_pop(src, bs, root, s, d);
    if s.len() >= 2 {
        assert(t[top - 1] == s[top - 1]);
        lemma_tail_frame_r(src, bs, t, s, d, top - 1);
        assert(s[top - 1].inner().cursor() is Some);
        assert(lv_ok(src, bs, root, s, d, top - 1));
        lemma_level(s[top - 1]);
        assert(lv_after_r(src, bs, t, d, top - 1) =~= stack_rest_r(src, bs, s, d));
    } else {
        assert(stack_rest_r(src, bs, s, d) =~= Seq::<(Seq<u8>, u64)>::empty());
    }
}

/// The reverse counterpart of `located`: what going backward from the
/// block that would hold `t` yields.
pub open spec fn located_r(src: Seq<u8>, bs: nat, root: u64, s: Seq<Level>, d: nat, t: Seq<u8>) -> bool {
    let top = s.len() - 1;
    rev_seek_desc(src, bs, root, d, t) == rev_seek_desc(src, bs, lv_pos(s, root, top), (d - top) as nat, t)
        + lv_tail_r(src, bs, s, d, top)
}

/// The root level at the lower bound of `t`, going backward.
proof fn lemma_locate_root_r(src: Seq<u8>, bs: nat, root: u64, d: nat, t: Seq<u8>, x: Level)
    ensures
        located_r(src, bs, root, seq![x], d, t),
{
    let s = seq![x];
    assert(lv_tail_r(src, bs, s, d, 0) =~= Seq::<(Seq<u8>, u64)>::empty());
    assert(rev_seek_desc(src, bs, root, d, t) =~= rev_seek_desc(src, bs, lv_pos(s, root, 0), d, t)
        + lv_tail_r(src, bs, s, d, 0));
}

/// Descending one level toward `t`, going backward.
#[verifier::spinoff_prover]
proof fn lemma_locate_push_r(
    src: Seq<u8>,
    bs: nat,
    root: u64,
    s: Seq<Level>,
    d: nat,
    t: Seq<u8>,
    x: Level,
)
    requires
        stack_ok(src, bs, root, s, d),
        located(src, bs, root, s, d, t),
        located_r(src, bs, root, s, d, t),
        s.len() >= 1,
        s.len() - 1 < d,
        s[s.len() - 1].inner().cursor() is Some,
    ensures
        located_r(src, bs, root, s.push(x), d, t),
{
    let top = s.len() - 1;
    let n = s.push(x);
    let items = lv_items(s, top);
    let c = lv_at(s, top);
    let e = (d - 1 - top) as nat;
    assert(lv_ok(src, bs, root, s, d, top));
    lemma_level(s[top]);
    lemma_tail_frame_r(src, bs, n, s, d, top);
    assert(n[top] == s[top]);
    assert(lv_rem_r(src, bs, n, d, top) == lv_rem_r(src, bs, s, d, top));
    assert(lv_pos(n, root, top + 1) == top_child(s));
    let p = lv_pos(s, root, top);
    assert(rev_seek_desc(src, bs, p, (d - top) as nat, t) == rev_seek_desc(
        src,
        bs,
        top_child(s),
        e,
        t,
    ) + lv_rem_r(src, bs, s, d, top));
    assert(rev_seek_desc(src, bs, root, d, t) =~= rev_seek_desc(
        src,
        bs,
        lv_pos(n, root, top + 1),
        e,
        t,
    ) + lv_tail_r(src, bs, n, d, top + 1));
}

/// When the descent ends, the stack yields going backward what going
/// backward from `t` yields.
proof fn lemma_locate_done_r(src: Seq<u8>, bs: nat, root: u64, s: Seq<Level>, d: nat, t: Seq<u8>)
    requires
        stack_ok(src, bs, root, s, d),
        located(src, bs, root, s, d, t),
        located_r(src, bs, root, s, d, t),
        s.len() >= 1,
        s.len() - 1 == d || (s.len() == 1 && s[0].inner().cursor() is None),
        s.len() > 1 ==> s[s.len() - 1].inner().cursor() is Some,
    ensures
        stack_rest_r(src, bs, s, d) == rev_seek_desc(src, bs, root, d, t),
{
    let top = s.len() - 1;
    let items = lv_items(s, top);
    assert(lv_ok(src, bs, root, s, d, top));
    lemma_level(s[top]);
    if s[top].inner().cursor() is Some {
        assert(stack_rest_r(src, bs, s, d) =~= rev_seek_desc(src, bs, root, d, t));
    } else {
        assert(lv_tail_r(src, bs, s, d, top) =~= Seq::<(Seq<u8>, u64)>::empty());
        assert(rev_seek_desc(src, bs, root, d, t) =~= Seq::<(Seq<u8>, u64)>::empty());
        assert(stack_rest_r(src, bs, s, d) =~= Seq::<(Seq<u8>, u64)>::empty());
    }
}

impl<R: BlockReader> IndexTreeIter<R> {
    /// The stack model of this iterator.
    closed spec fn rest_model(&self) -> Seq<(Seq<u8>, u64)> {
        stack_rest(self.src(), self.spec_bs(), self.index_iters@, self.depth())
    }

    /// Both iterate the same tree of the same source.
    pub open spec fn same_tree(&self, other: &Self) -> bool {
        &&& self.block_reader() == other.block_reader()
        &&& self.src() == other.src()
        &&& self.spec_bs() == other.spec_bs()
        &&& self.height() == other.height()
        &&& self.root() == other.root()
    }

    /// Reads the child of the top level's current entry, positions it with
    /// `seek_to_first` and pushes it. With `check`, an empty child is a
    /// corrupt index.
    fn push_first_child(&mut self, check: bool) -> (r: StorageResult<()>)
        requires
            old(self).wf(),
            old(self).tree_height >= 2,
            old(self).index_iters@.len() >= 1,
            old(self).curr_iter_idx < old(self).depth(),
            old(self).index_iters@[old(self).curr_iter_idx as int].inner().cursor() is Some,
            old(self).index_iters@[old(self).curr_iter_idx as int].ready(),
        ensures
            final(self).wf(),
            final(self).same_tree(old(self)),
            old(self).sound() ==> r is Ok,
            r is Ok ==> {
                &&& final(self).index_iters@.len() == old(self).index_iters@.len() + 1
                &&& final(self).rest_model() == old(self).rest_model()
                &&& final(self).index_iters@[final(self).curr_iter_idx as int].inner().cursor()
                    is Some
                &&& final(self).index_iters@[final(self).curr_iter_idx as int].ready()
            },
    {
        let top = self.curr_iter_idx;
        let ghost s = self.index_iters@;
        let ghost src = self.src();
        let ghost bs = self.spec_bs();
        let ghost d = self.depth();
        proof {
            lemma_top(src, bs, self.root(), s, d);
        }
        let next_pos: Position = match self.index_iters[top].value() {
            Some(v) => Position::from(v),
            None => {
                return Err(StorageError::InvalidValue("iter values not exists".to_owned()));
            },
        };
        proof {
            if self.sound() {
                self.lemma_stack_sound();
                assert(index_sound(self.reader, lv_pos(s, self.root(), top as int), (d - top) as nat));
                assert(lv_ok(src, bs, self.root(), s, d, top as int));
                lemma_child_sound(self.reader, lv_pos(s, self.root(), top as int), (d - top) as nat, lv_at(s, top as int));
            }
        }
        let mut x = self.read_level(next_pos, Ghost((d - top - 1) as nat))?;
        let ghost x0 = x;
        proof {
            if self.sound() {
                lemma_level_faultless(x);
            }
        }
        let res = ForwardIter::seek_to_first(&mut x);
        if res.is_err() {
            return res;
        }
        proof {
            lemma_level(x0);
            lemma_level(x);
            lemma_at_of_len(x.inner().items(), x.inner().cursor(), 0);
        }
        if check && !x.valid() {
            return Err(
                StorageError::InvalidValue(
                    "corrupt index: empty block during next descent".to_owned(),
                ),
            );
        }
        self.index_iters.push(x);
        self.curr_iter_idx = top + 1;
        proof {
            assert(self.index_iters@ == s.push(x));
            lemma_push_first(src, bs, self.root(), s, d, x);
        }
        Ok(())
    }

    /// Descends root to leaf through the first entry of each level.
    pub(crate) fn inner_seek_to_first(&mut self) -> (r: StorageResult<()>)
        requires
            old(self).wf(),
        ensures
            final(self).wf(),
            final(self).same_tree(old(self)),
            old(self).sound() ==> r is Ok,
            r is Ok ==> {
                &&& final(self).fwd_mode()
                &&& final(self).ready()
                &&& final(self).fwd_rest() == final(self).fwd_all()
            },
    {
        if self.tree_height <= 1 {
            return Ok(());
        }
        self.reset();
        let ghost src = self.src();
        let ghost bs = self.spec_bs();
        let ghost d = self.depth();
        let ghost root = self.root();
        proof {
            if old(self).sound() {
                assert(index_sound(self.reader, root, d));
            }
        }
        let mut x = self.read_level(self.root_position, Ghost(d))?;
        let ghost x0 = x;
        proof {
            if old(self).sound() {
                lemma_level_faultless(x);
            }
        }
        let res = ForwardIter::seek_to_first(&mut x);
        if res.is_err() {
            return res;
        }
        proof {
            lemma_level(x0);
            lemma_level(x);
            lemma_at_of_len(x.inner().items(), x.inner().cursor(), 0);
            lemma_single(src, bs, root, d, x);
            let items = x.inner().items();
            if d == 0 {
                assert(offsets_of(items).skip(0) =~= offsets_of(items));
            }
        }
        self.index_iters.push(x);
        proof {
            assert(self.index_iters@ == seq![x]);
        }
        let last = self.last_index_level();
        while self.curr_iter_idx < last
            invariant
                self.wf(),
                self.tree_height >= 2,
                last == self.depth(),
                d == self.depth(),
                self.same_tree(old(self)),
                self.index_iters@.len() >= 1,
                self.curr_iter_idx <= d,
                self.rest_model() == subtree(src, bs, root, d),
                src == self.src(),
                bs == self.spec_bs(),
                root == self.root(),
                self.index_iters@[self.curr_iter_idx as int].ready(),
                (self.curr_iter_idx > 0 || old(self).sound()) ==> self.index_iters@[self.curr_iter_idx as int].inner().cursor() is Some,
                old(self).sound() ==> self.sound(),
            decreases d - self.curr_iter_idx,
        {
            proof {
                self.lemma_levels_wf();
                lemma_level(self.index_iters@[self.curr_iter_idx as int]);
            }
            if !self.index_iters[self.curr_iter_idx].valid() {
                return Err(
                    StorageError::InvalidValue(
                        "corrupt index: empty block during seek_to_first/last descent".to_owned(),
                    ),
                );
            }
            self.push_first_child(false)?;
        }
        proof {
            self.lemma_levels_wf();
            lemma_level(self.index_iters@[self.curr_iter_idx as int]);
        }
        Ok(())
    }
}

/// Sequences with the same reversal are the same.
proof fn lemma_reverse_inj<A>(a: Seq<A>, b: Seq<A>)
    requires
        a.reverse() == b.reverse(),
    ensures
        a == b,
{
    assert(a.reverse().reverse() =~= a);
    assert(b.reverse().reverse() =~= b);
}

impl<R: BlockReader> IndexTreeIter<R> {
    /// The backward stack model of this iterator.
    closed spec fn rest_model_r(&self) -> Seq<(Seq<u8>, u64)> {
        stack_rest_r(self.src(), self.spec_bs(), self.index_iters@, self.depth())
    }

    /// Reads the child of the top level's current entry, positions it at
    /// its last entry and pushes it. With `check`, an empty child is a
    /// corrupt index.
    fn push_last_child(&mut self, check: bool) -> (r: StorageResult<()>)
        requires
            old(self).wf(),
            old(self).tree_height >= 2,
            old(self).index_iters@.len() >= 1,
            old(self).curr_iter_idx < old(self).depth(),
            old(self).index_iters@[old(self).curr_iter_idx as int].inner().cursor() is Some,
            old(self).index_iters@[old(self).curr_iter_idx as int].ready(),
        ensures
            final(self).wf(),
            final(self).same_tree(old(self)),
            old(self).sound() ==> r is Ok,
            r is Ok ==> {
                &&& final(self).index_iters@.len() == old(self).index_iters@.len() + 1
                &&& final(self).rest_model_r() == old(self).rest_model_r()
                &&& final(self).index_iters@[final(self).curr_iter_idx as int].inner().cursor()
                    is Some
                &&& final(self).index_iters@[final(self).curr_iter_idx as int].ready()
            },
    {
        let top = self.curr_iter_idx;
        let ghost s = self.index_iters@;
        let ghost src = self.src();
        let ghost bs = self.spec_bs();
        let ghost d = self.depth();
        proof {
            lemma_top(src, bs, self.root(), s, d);
        }
        let next_pos: Position = match self.index_iters[top].value() {
            Some(v) => Position::from(v),
            None => {
                return Err(StorageError::InvalidValue("iter values not exists".to_owned()));
            },
        };
        proof {
            if self.sound() {
                self.lemma_stack_sound();
                assert(index_sound(self.reader, lv_pos(s, self.root(), top as int), (d - top) as nat));
                assert(lv_ok(src, bs, self.root(), s, d, top as int));
                lemma_child_sound(self.reader, lv_pos(s, self.root(), top as int), (d - top) as nat, lv_at(s, top as int));
            }
        }
        let mut x = self.read_level(next_pos, Ghost((d - top - 1) as nat))?;
        let ghost x0 = x;
        proof {
            if self.sound() {
                lemma_level_faultless(x);
            }
        }
        let res = ReverseIter::seek_to_first(&mut x);
        if res.is_err() {
            return res;
        }
        proof {
            lemma_level(x0);
            lemma_level(x);
            lemma_reverse_inj(x.inner().items(), x0.inner().items());
            lemma_at_of_len_r(x.inner().items(), x.inner().cursor(), x.inner().items().len() as int);
        }
        if check && !x.valid() {
            return Err(
                StorageError::InvalidValue(
                    "corrupt index: empty block during prev descent".to_owned(),
                ),
            );
        }
        self.index_iters.push(x);
        self.curr_iter_idx = top + 1;
        proof {
            assert(self.index_iters@ == s.push(x));
            lemma_push_last(src, bs, self.root(), s, d, x);
        }
        Ok(())
    }

    /// Descends root to leaf through the last entry of each level.
    pub(crate) fn inner_seek_to_last(&mut self) -> (r: StorageResult<()>)
        requires
            old(self).wf(),
        ensures
            final(self).wf(),
            final(self).same_tree(old(self)),
            old(self).sound() ==> r is Ok,
            r is Ok ==> {
                &&& final(self).rev_mode()
                &&& final(self).ready()
                &&& final(self).rev_rest() == final(self).rev_all()
            },
    {
        if self.tree_height <= 1 {
            return Ok(());
        }
        self.reset();
        let ghost src = self.src();
        let ghost bs = self.spec_bs();
        let ghost d = self.depth();
        let ghost root = self.root();
        proof {
            if old(self).sound() {
                assert(index_sound(self.reader, root, d));
            }
        }
        let mut x = self.read_level(self.root_position, Ghost(d))?;
        let ghost x0 = x;
        proof {
            if old(self).sound() {
                lemma_level_faultless(x);
            }
        }
        let res = ReverseIter::seek_to_first(&mut x);
        if res.is_err() {
            return res;
        }
        proof {
            lemma_level(x0);
            lemma_level(x);
            lemma_reverse_inj(x.inner().items(), x0.inner().items());
            lemma_at_of_len_r(x.inner().items(), x.inner().cursor(), x.inner().items().len() as int);
            lemma_single(src, bs, root, d, x);
            lemma_single_r(src, bs, d, x);
            lemma_last_entry_r(src, bs, seq![x], d, 0);
        }
        self.index_iters.push(x);
        proof {
            assert(self.index_iters@ == seq![x]);
        }
        let last = self.last_index_level();
        while self.curr_iter_idx < last
            invariant
                self.wf(),
                self.tree_height >= 2,
                last == self.depth(),
                d == self.depth(),
                self.same_tree(old(self)),
                self.index_iters@.len() >= 1,
                self.curr_iter_idx <= d,
                self.rest_model_r() == subtree(src, bs, root, d).reverse(),
                src == self.src(),
                bs == self.spec_bs(),
                root == self.root(),
                self.index_iters@[self.curr_iter_idx as int].ready(),
                (self.curr_iter_idx > 0 || old(self).sound()) ==> self.index_iters@[self.curr_iter_idx as int].inner().cursor() is Some,
                old(self).sound() ==> self.sound(),
            decreases d - self.curr_iter_idx,
        {
            proof {
                self.lemma_levels_wf();
                lemma_level(self.index_iters@[self.curr_iter_idx as int]);
            }
            if !self.index_iters[self.curr_iter_idx].valid() {
                return Err(
                    StorageError::InvalidValue(
                        "corrupt index: empty block during seek_to_first/last descent".to_owned(),
                    ),
                );
            }
            self.push_last_child(false)?;
        }
        proof {
            self.lemma_levels_wf();
            lemma_level(self.index_iters@[self.curr_iter_idx as int]);
            if self.index_iters@[self.curr_iter_idx as int].inner().cursor() is None {
                assert(self.rest_model_r() =~= Seq::<(Seq<u8>, u64)>::empty());
            }
        }
        Ok(())
    }

    /// Steps the current level backward; tells whether it is still on an
    /// entry.
    fn step_current_r(&mut self) -> (r: StorageResult<bool>)
        requires
            old(self).wf(),
            old(self).index_iters@.len() >= 1,
        ensures
            final(self).wf(),
            final(self).same_tree(old(self)),
            old(self).sound() ==> r is Ok,
            final(self).index_iters@.len() == old(self).index_iters@.len(),
            final(self).curr_iter_idx == old(self).curr_iter_idx,
            r matches Ok(v) ==> {
                let s = final(self).index_iters@;
                let top = final(self).curr_iter_idx as int;
                &&& stack_rest_r(final(self).src(), final(self).spec_bs(), s, final(self).depth())
                    == lv_after_r(
                    old(self).src(),
                    old(self).spec_bs(),
                    old(self).index_iters@,
                    old(self).depth(),
                    top,
                )
                &&& v == (s[top].inner().cursor() is Some)
                &&& v ==> s[top].ready()
            },
    {
        let curr = self.curr_iter_idx;
        let ghost src = self.src();
        let ghost bs = self.spec_bs();
        let ghost d = self.depth();
        let ghost root = self.root();
        let ghost s = self.index_iters@;
        proof {
            self.lemma_levels_wf();
            lemma_level(s[curr as int]);
            if self.sound() {
                self.lemma_stack_sound();
                assert(ForwardIter::fwd_faultless(&s[curr as int]));
            }
        }
        let res = ReverseIter::next(&mut self.index_iters[curr]);
        let ghost x = self.index_iters@[curr as int];
        proof {
            assert(self.index_iters@ == s.update(curr as int, x));
            lemma_level(x);
            lemma_level(s[curr as int]);
            lemma_reverse_inj(x.inner().items(), s[curr as int].inner().items());
            lemma_replace_top(src, bs, root, s, d, x);
        }
        match res {
            Ok(()) => {
                proof {
                    lemma_step_level_r(src, bs, root, s, d, x);
                }
                Ok(self.index_iters[curr].valid())
            },
            Err(e) => Err(e),
        }
    }

    /// Steps to the previous leaf entry: steps the current level backward;
    /// while it is exhausted, drops it and steps its parent backward; then
    /// descends again through last entries.
    pub(crate) fn inner_prev(&mut self) -> (r: StorageResult<()>)
        requires
            old(self).wf(),
            old(self).rev_mode(),
        ensures
            final(self).wf(),
            final(self).same_tree(old(self)),
            old(self).sound() ==> r is Ok,
            r is Ok ==> {
                &&& final(self).rev_mode()
                &&& final(self).ready()
                &&& final(self).rev_rest() == tail(old(self).rev_rest())
            },
    {
        if self.index_iters.is_empty() {
            return Ok(());
        }
        let last_index_level = self.last_index_level();
        let ghost src = self.src();
        let ghost bs = self.spec_bs();
        let ghost d = self.depth();
        let ghost root = self.root();
        let ghost target = tail(self.rest_model_r());
        proof {
            let s = self.index_iters@;
            let top = s.len() - 1;
            self.lemma_levels_wf();
            assert(lv_ok(src, bs, root, s, d, top));
            lemma_level(s[top]);
            let items = lv_items(s, top);
            if let Some(c) = s[top].inner().cursor() {
                assert(offsets_of(items).take(c + 1).reverse().drop_first() =~= offsets_of(
                    items,
                ).take(c).reverse());
                assert(lv_after_r(src, bs, s, d, top) =~= target);
            } else {
                assert(lv_after_r(src, bs, s, d, top) =~= target);
            }
        }
        loop
            invariant_except_break
                lv_after_r(src, bs, self.index_iters@, d, self.curr_iter_idx as int) == target,
            invariant
                self.wf(),
                self.tree_height >= 2,
                last_index_level == self.depth(),
                d == self.depth(),
                self.same_tree(old(self)),
                self.index_iters@.len() >= 1,
                src == self.src(),
                bs == self.spec_bs(),
                root == self.root(),
                target == tail(old(self).rest_model_r()),
                old(self).sound() ==> self.sound(),
            ensures
                self.rest_model_r() == target,
                self.index_iters@[self.curr_iter_idx as int].inner().cursor() is Some,
                self.index_iters@[self.curr_iter_idx as int].ready(),
            decreases self.curr_iter_idx,
        {
            let curr = self.curr_iter_idx;
            if self.step_current_r()? {
                break;
            }
            let ghost s1 = self.index_iters@;
            proof {
                lemma_pop_r(src, bs, root, s1, d);
            }
            self.index_iters.remove(curr);
            proof {
                assert(self.index_iters@ =~= s1.drop_last());
            }
            if curr == 0 {
                proof {
                    assert(s1.len() == 1);
                    assert(target =~= Seq::<(Seq<u8>, u64)>::empty());
                    assert(self.rest_model_r() =~= target);
                }
                return Ok(());
            }
            self.curr_iter_idx = curr - 1;
        }
        while self.curr_iter_idx < last_index_level
            invariant
                self.wf(),
                self.tree_height >= 2,
                last_index_level == self.depth(),
                self.same_tree(old(self)),
                self.index_iters@.len() >= 1,
                self.rest_model_r() == target,
                self.index_iters@[self.curr_iter_idx as int].inner().cursor() is Some,
                self.index_iters@[self.curr_iter_idx as int].ready(),
                old(self).sound() ==> self.sound(),
            decreases self.depth() - self.curr_iter_idx,
        {
            self.push_last_child(true)?;
        }
        proof {
            self.lemma_levels_wf();
        }
        Ok(())
    }
}

impl<R: BlockReader> IndexTreeIter<R> {
    /// Descends root to leaf, positioning each level at the first entry
    /// whose end key is not below `target` (the lower bound): this finds
    /// the block that would hold `target`. When every end key is below
    /// `target`, the iterator is left exhausted.
    pub(crate) fn locate(&mut self, target: &[u8]) -> (r: StorageResult<()>)
        requires
            old(self).wf(),
        ensures
            final(self).wf(),
            final(self).same_tree(old(self)),
            old(self).sound() ==> r is Ok,
            r is Ok ==> {
                &&& final(self).fwd_mode()
                &&& final(self).ready()
                &&& final(self).fwd_rest() == final(self).fwd_seek_rest(target@)
                &&& final(self).rev_mode()
                &&& final(self).height() >= 2 ==> final(self).rev_rest() == rev_seek_desc(
                    final(self).src(),
                    final(self).spec_bs(),
                    final(self).root(),
                    final(self).depth(),
                    target@,
                )
            },
    {
        if self.tree_height <= 1 {
            return Ok(());
        }
        self.reset();
        let ghost src = self.src();
        let ghost bs = self.spec_bs();
        let ghost d = self.depth();
        let ghost root = self.root();
        let ghost t = target@;
        proof {
            if old(self).sound() {
                assert(index_sound(self.reader, root, d));
            }
        }
        let mut x = self.read_level(self.root_position, Ghost(d))?;
        let ghost x0 = x;
        proof {
            if old(self).sound() {
                lemma_level_faultless(x);
            }
        }
        x.seek_lower_bound(target)?;
        proof {
            lemma_level(x0);
            lemma_level(x);
            let items = x.inner().items();
            lemma_lower_bound_range(keys_of(items), t, 0, items.len() as int);
            lemma_at_of_len(
                items,
                x.inner().cursor(),
                lower_bound(keys_of(items), t, 0, items.len() as int),
            );
            lemma_locate_root(src, bs, root, d, t, x);
            lemma_locate_root_r(src, bs, root, d, t, x);
        }
        self.index_iters.push(x);
        proof {
            assert(self.index_iters@ == seq![x]);
        }
        let last = self.last_index_level();
        while self.curr_iter_idx < last
            invariant
                self.wf(),
                self.tree_height >= 2,
                last == self.depth(),
                d == self.depth(),
                self.same_tree(old(self)),
                self.index_iters@.len() >= 1,
                src == self.src(),
                bs == self.spec_bs(),
                root == self.root(),
                t == target@,
                located(src, bs, root, self.index_iters@, d, t),
                located_r(src, bs, root, self.index_iters@, d, t),
                self.index_iters@[self.curr_iter_idx as int].ready(),
                old(self).sound() ==> self.sound(),
                self.curr_iter_idx > 0 ==> self.index_iters@[self.curr_iter_idx as int].inner().cursor() is Some,
            ensures
                self.curr_iter_idx == d || (self.curr_iter_idx == 0
                    && self.index_iters@[0].inner().cursor() is None),
            decreases d - self.curr_iter_idx,
        {
            let curr = self.curr_iter_idx;
            let ghost s = self.index_iters@;
            proof {
                self.lemma_levels_wf();
                lemma_level(s[curr as int]);
            }
            if !self.index_iters[curr].valid() {
                if curr == 0 {
                    break;
                }
                return Err(
                    StorageError::InvalidValue(
                        "corrupt index: empty child block under a positioned parent".to_owned(),
                    ),
                );
            }
            proof {
                lemma_top(src, bs, root, s, d);
            }
            let next_pos: Position = match self.index_iters[curr].value() {
                Some(v) => Position::from(v),
                None => {
                    return Err(StorageError::InvalidValue("iter values not exists".to_owned()));
                },
            };
            proof {
                if self.sound() {
                    self.lemma_stack_sound();
                    assert(index_sound(self.reader, lv_pos(s, root, curr as int), (d - curr) as nat));
                    assert(lv_ok(src, bs, root, s, d, curr as int));
                    lemma_child_sound(self.reader, lv_pos(s, root, curr as int), (d - curr) as nat, lv_at(s, curr as int));
                }
            }
            let mut child = self.read_level(next_pos, Ghost((d - curr - 1) as nat))?;
            let ghost c0 = child;
            proof {
                if self.sound() {
                    lemma_level_faultless(child);
                }
            }
            child.seek_lower_bound(target)?;
            proof {
                lemma_level(c0);
                lemma_level(child);
                let ci = child.inner().items();
                lemma_lower_bound_range(keys_of(ci), t, 0, ci.len() as int);
                lemma_at_of_len(
                    ci,
                    child.inner().cursor(),
                    lower_bound(keys_of(ci), t, 0, ci.len() as int),
                );
            }
            self.index_iters.push(child);
            self.curr_iter_idx = curr + 1;
            proof {
                assert(self.index_iters@ == s.push(child));
                lemma_locate_push_r(src, bs, root, s, d, t, child);
                lemma_locate_push(src, bs, root, s, d, t, child);
            }
        }
        proof {
            let s = self.index_iters@;
            lemma_locate_done(src, bs, root, s, d, t);
            lemma_locate_done_r(src, bs, root, s, d, t);
            self.lemma_levels_wf();
            lemma_level(s[self.curr_iter_idx as int]);
            if s[self.curr_iter_idx as int].inner().cursor() is None {
                lemma_root_exhausted(src, bs, s, d);
                assert(self.rest_model_r() =~= Seq::<(Seq<u8>, u64)>::empty());
            }
        }
        Ok(())
    }

    /// Steps the current level forward; tells whether it is still on an
    /// entry.
    fn step_current(&mut self) -> (r: StorageResult<bool>)
        requires
            old(self).wf(),
            old(self).index_iters@.len() >= 1,
        ensures
            final(self).wf(),
            final(self).same_tree(old(self)),
            old(self).sound() ==> r is Ok,
            final(self).index_iters@.len() == old(self).index_iters@.len(),
            final(self).curr_iter_idx == old(self).curr_iter_idx,
            r matches Ok(v) ==> {
                let s = final(self).index_iters@;
                let top = final(self).curr_iter_idx as int;
                &&& stack_rest(final(self).src(), final(self).spec_bs(), s, final(self).depth())
                    == lv_after(
                    old(self).src(),
                    old(self).spec_bs(),
                    old(self).index_iters@,
                    old(self).depth(),
                    top,
                )
                &&& v == (s[top].inner().cursor() is Some)
                &&& v ==> s[top].ready()
                &&& !v ==> lv_at(s, top) == lv_items(s, top).len()
            },
    {
        let curr = self.curr_iter_idx;
        let ghost src = self.src();
        let ghost bs = self.spec_bs();
        let ghost d = self.depth();
        let ghost root = self.root();
        let ghost s = self.index_iters@;
        proof {
            self.lemma_levels_wf();
            lemma_level(s[curr as int]);
            if self.sound() {
                self.lemma_stack_sound();
                assert(ForwardIter::fwd_faultless(&s[curr as int]));
            }
        }
        let res = ForwardIter::next(&mut self.index_iters[curr]);
        let ghost x = self.index_iters@[curr as int];
        proof {
            assert(self.index_iters@ == s.update(curr as int, x));
            lemma_level(x);
            lemma_replace_top(src, bs, root, s, d, x);
        }
        match res {
            Ok(()) => {
                proof {
                    lemma_step_level(src, bs, root, s, d, x);
                }
                Ok(self.index_iters[curr].valid())
            },
            Err(e) => Err(e),
        }
    }

    /// Steps to the next leaf entry: steps the current level; while it is
    /// exhausted, drops it and steps its parent; then descends again
    /// through first entries.
    pub(crate) fn inner_next(&mut self) -> (r: StorageResult<()>)
        requires
            old(self).wf(),
            old(self).fwd_mode(),
        ensures
            final(self).wf(),
            final(self).same_tree(old(self)),
            old(self).sound() ==> r is Ok,
            r is Ok ==> {
                &&& final(self).fwd_mode()
                &&& final(self).ready()
                &&& final(self).fwd_rest() == tail(old(self).fwd_rest())
            },
    {
        if self.index_iters.is_empty() {
            return Ok(());
        }
        let last_index_level = self.last_index_level();
        let ghost src = self.src();
        let ghost bs = self.spec_bs();
        let ghost d = self.depth();
        let ghost root = self.root();
        let ghost target = tail(self.rest_model());
        proof {
            let s = self.index_iters@;
            let top = s.len() - 1;
            self.lemma_levels_wf();
            assert(lv_ok(src, bs, root, s, d, top));
            lemma_level(s[top]);
            let items = lv_items(s, top);
            if s[top].inner().cursor() is Some {
                assert(offsets_of(items).skip(lv_at(s, top) + 1) =~= offsets_of(items).skip(
                    lv_at(s, top),
                ).drop_first());
                assert(lv_after(src, bs, s, d, top) =~= target);
            } else {
                lemma_step_top(src, bs, s, d, s[top]);
                assert(s.update(top, s[top]) =~= s);
            }
        }
        loop
            invariant_except_break
                lv_after(src, bs, self.index_iters@, d, self.curr_iter_idx as int) == target,
            invariant
                self.wf(),
                self.tree_height >= 2,
                last_index_level == self.depth(),
                d == self.depth(),
                self.same_tree(old(self)),
                self.index_iters@.len() >= 1,
                src == self.src(),
                bs == self.spec_bs(),
                root == self.root(),
                target == tail(old(self).rest_model()),
                old(self).sound() ==> self.sound(),
            ensures
                self.rest_model() == target,
                self.index_iters@[self.curr_iter_idx as int].inner().cursor() is Some,
                self.index_iters@[self.curr_iter_idx as int].ready(),
            decreases self.curr_iter_idx,
        {
            let curr = self.curr_iter_idx;
            if self.step_current()? {
                break;
            }
            let ghost s1 = self.index_iters@;
            proof {
                lemma_pop(src, bs, root, s1, d);
            }
            self.index_iters.remove(curr);
            proof {
                assert(self.index_iters@ =~= s1.drop_last());
            }
            if curr == 0 {
                proof {
                    assert(s1.len() == 1);
                    assert(stack_rest(src, bs, s1, d) == target);
                    assert(target =~= Seq::<(Seq<u8>, u64)>::empty());
                    assert(self.index_iters@.len() == 0);
                    assert(self.rest_model() =~= target);
                }
                return Ok(());
            }
            self.curr_iter_idx = curr - 1;
        }
        while self.curr_iter_idx < last_index_level
            invariant
                self.wf(),
                self.tree_height >= 2,
                last_index_level == self.depth(),
                self.same_tree(old(self)),
                self.index_iters@.len() >= 1,
                self.rest_model() == target,
                self.index_iters@[self.curr_iter_idx as int].inner().cursor() is Some,
                self.index_iters@[self.curr_iter_idx as int].ready(),
                old(self).sound() ==> self.sound(),
            decreases self.depth() - self.curr_iter_idx,
        {
            self.push_first_child(true)?;
        }
        proof {
            self.lemma_levels_wf();
        }
        Ok(())
    }
}

impl<R: BlockReader> ForwardIter for IndexTreeIter<R> {
    /// Every leaf entry of the tree, in key order.
    closed spec fn fwd_all(&self) -> Seq<(Seq<u8>, u64)> {
        if self.tree_height >= 2 {
            subtree(self.src(), self.spec_bs(), self.root(), self.depth())
        } else {
            Seq::empty()
        }
    }

    closed spec fn fwd_rest(&self) -> Seq<(Seq<u8>, u64)> {
        self.rest_model()
    }

    /// The leaf entries from the first whose end key is not below `target`.
    closed spec fn fwd_seek_rest(&self, target: Seq<u8>) -> Seq<(Seq<u8>, u64)> {
        if self.tree_height >= 2 {
            seek_desc(self.src(), self.spec_bs(), self.root(), self.depth(), target)
        } else {
            Seq::empty()
        }
    }

    /// The current level is the leaf level, or nothing is left.
    closed spec fn fwd_mode(&self) -> bool {
        let s = self.index_iters@;
        s.len() > 0 ==> {
            &&& s[s.len() - 1].inner().cursor() is Some ==> s.len() - 1 == self.depth()
            &&& s[s.len() - 1].inner().cursor() is None ==> self.rest_model() == Seq::<
                (Seq<u8>, u64),
            >::empty()
        }
    }

    /// Every index block the steps may read is sure to be read, and every
    /// index entry decodes.
    open spec fn fwd_faultless(&self) -> bool {
        self.sound()
    }

    proof fn lemma_fwd_head(&self) {
        let s = self.index_iters@;
        if s.len() > 0 {
            let top = s.len() - 1;
            self.lemma_levels_wf();
            assert(lv_ok(self.src(), self.spec_bs(), self.root(), s, self.depth(), top));
            lemma_level(s[top]);
        }
    }

    fn seek_to_first(&mut self) -> (r: StorageResult<()>) {
        self.inner_seek_to_first()
    }

    fn seek(&mut self, target: &[u8]) -> (r: StorageResult<()>) {
        self.locate(target)
    }

    fn next(&mut self) -> (r: StorageResult<()>) {
        self.inner_next()
    }
}

impl<R: BlockReader> IndexTreeIter<R> {
    /// Positioned (in either direction), the current leaf entry names a
    /// well-formed data block that ends at the entry's end key.
    pub proof fn lemma_current_data(&self)
        requires
            self.wf(),
            self.fwd_mode() || self.rev_mode(),
        ensures
            self.current() matches Some(e) ==> data_ok(self.src(), self.spec_bs(), e.1, e.0),
    {
        let s = self.index_iters@;
        if s.len() > 0 {
            let top = s.len() - 1;
            self.lemma_levels_wf();
            assert(lv_ok(self.src(), self.spec_bs(), self.root(), s, self.depth(), top));
            lemma_level(s[top]);
            if let Some(c) = s[top].inner().cursor() {
                let items = lv_items(s, top);
                assert(items[c] == items[c]);
            }
        }
    }

    /// Positioned (in either direction), the current leaf entry is one of
    /// the tree's leaf entries: when `ok` holds at every position they
    /// name, it holds at the current one.
    pub proof fn lemma_current_leaf(&self, ok: spec_fn(u64) -> bool)
        requires
            self.wf(),
            self.fwd_mode() || self.rev_mode(),
            self.height() >= 2 ==> leaves_all(self.src(), self.spec_bs(), self.root(), self.depth(), ok),
        ensures
            self.current() matches Some(e) ==> ok(e.1),
    {
        let s = self.index_iters@;
        if s.len() > 0 {
            let top = s.len() - 1;
            self.lemma_levels_wf();
            assert(lv_ok(self.src(), self.spec_bs(), self.root(), s, self.depth(), top));
            lemma_level(s[top]);
            if let Some(c) = s[top].inner().cursor() {
                lemma_path_leaves(self.src(), self.spec_bs(), self.root(), s, self.depth(), top, ok);
                let items = lv_items(s, top);
                assert(ok(child_of(items[c].1)));
            }
        }
    }

    /// What a forward seek of `target` yields first has an end key not
    /// below `target`.
    pub proof fn lemma_seek_head(&self, target: Seq<u8>)
        requires
            self.wf(),
        ensures
            self.fwd_seek_rest(target).len() > 0 ==> !crate::row_key::lex_lt(
                self.fwd_seek_rest(target)[0].0,
                target,
            ),
    {
        if self.tree_height >= 2 {
            crate::iterators::index_tree::lemma_seek_desc_head(
                self.src(),
                self.spec_bs(),
                self.root(),
                self.depth(),
                target,
            );
        }
    }
}

impl<R: BlockReader> ReverseIter for IndexTreeIter<R> {
    /// Every leaf entry of the tree, last first.
    closed spec fn rev_all(&self) -> Seq<(Seq<u8>, u64)> {
        if self.tree_height >= 2 {
            subtree(self.src(), self.spec_bs(), self.root(), self.depth()).reverse()
        } else {
            Seq::empty()
        }
    }

    closed spec fn rev_rest(&self) -> Seq<(Seq<u8>, u64)> {
        self.rest_model_r()
    }

    /// Going backward from the first leaf entry whose end key is not below
    /// `target` (the block that would hold it), or from the last leaf entry
    /// when every end key is below `target`.
    closed spec fn rev_seek_rest(&self, target: Seq<u8>) -> Seq<(Seq<u8>, u64)> {
        if self.tree_height >= 2 {
            if seek_desc(self.src(), self.spec_bs(), self.root(), self.depth(), target).len() == 0 {
                subtree(self.src(), self.spec_bs(), self.root(), self.depth()).reverse()
            } else {
                rev_seek_desc(self.src(), self.spec_bs(), self.root(), self.depth(), target)
            }
        } else {
            Seq::empty()
        }
    }

    /// The current level is the leaf level, or nothing is left.
    closed spec fn rev_mode(&self) -> bool {
        let s = self.index_iters@;
        s.len() > 0 ==> {
            &&& s[s.len() - 1].inner().cursor() is Some ==> s.len() - 1 == self.depth()
            &&& s[s.len() - 1].inner().cursor() is None ==> self.rest_model_r() == Seq::<
                (Seq<u8>, u64),
            >::empty()
        }
    }

    /// Every index block the steps may read is sure to be read, and every
    /// index entry decodes.
    open spec fn rev_faultless(&self) -> bool {
        self.sound()
    }

    proof fn lemma_rev_head(&self) {
        let s = self.index_iters@;
        if s.len() > 0 {
            let top = s.len() - 1;
            self.lemma_levels_wf();
            assert(lv_ok(self.src(), self.spec_bs(), self.root(), s, self.depth(), top));
            lemma_level(s[top]);
        }
    }

    fn seek_to_first(&mut self) -> (r: StorageResult<()>) {
        self.inner_seek_to_last()
    }

    fn seek(&mut self, target: &[u8]) -> (r: StorageResult<()>) {
        self.seek_back(target)
    }

    fn next(&mut self) -> (r: StorageResult<()>) {
        self.inner_prev()
    }
}

impl<R: BlockReader> IndexTreeIter<R> {
    /// Backward positioning at `target`: locates the block that would hold
    /// `target`; when every end key is below `target`, starts from the last
    /// entry.
    pub(crate) fn seek_back(&mut self, target: &[u8]) -> (r: StorageResult<()>)
        requires
            old(self).wf(),
        ensures
            final(self).wf(),
            final(self).same_tree(old(self)),
            old(self).sound() ==> r is Ok,
            r is Ok ==> {
                &&& final(self).rev_mode()
                &&& final(self).ready()
                &&& final(self).rev_rest() == final(self).rev_seek_rest(target@)
            },
    {
        self.locate(target)?;
        proof {
            ForwardIter::lemma_fwd_head(self);
        }
        if !self.valid() {
            self.inner_seek_to_last()?;
        }
        Ok(())
    }

    /// Iterators over the same tree have the same models.
    pub proof fn lemma_same_tree(&self, other: &Self)
        requires
            self.same_tree(other),
        ensures
            self.sound() == other.sound(),
            self.fwd_all() == other.fwd_all(),
            self.rev_all() == other.rev_all(),
            forall|t: Seq<u8>| #[trigger] self.fwd_seek_rest(t) == other.fwd_seek_rest(t),
            forall|t: Seq<u8>| #[trigger] self.rev_seek_rest(t) == other.rev_seek_rest(t),
    {
    }
}

impl<R: BlockReader> IndexTreeIter<R> {
    /// A backward scan of the leaf entries yields exactly what a forward
    /// scan yields, in reverse order.
    pub proof fn lemma_reverse_is_forward_reversed(&self)
        ensures
            self.rev_all() == self.fwd_all().reverse(),
    {
        if self.tree_height < 2 {
            assert(Seq::<(Seq<u8>, u64)>::empty().reverse() =~= Seq::<(Seq<u8>, u64)>::empty());
        }
    }
}

} // verus!
