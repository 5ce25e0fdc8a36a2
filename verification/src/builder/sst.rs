//! SST construction: options, footer, and the streaming builder.

use vstd::prelude::*;
use bytes::Bytes;
use crate::block::Position;
use crate::buf::{bytes_as_slice, bytes_view};
use crate::builder::data_block::{data_entry_size, DataBlockBuilder};
use crate::builder::footer::{lemma_footer_len, SstFooter};
use crate::builder::index_block::IndexBlockBuilder;
use crate::builder::sst_writer::SstWriter;
use crate::format::{encode_block, fit_to};
use crate::builder::image::{
    add_entry, add_index, flush_data, flush_index, flush_upto, replay, root_of, sst_image, stored, Build,
    Level,
};
use crate::errors::StorageResult;

verus! {

/// Options for SST construction.
#[derive(Debug, Clone, PartialEq, Eq, Structural)]
pub struct SstOption {
    pub block_size: usize,
}

impl SstOption {
    /// The defaults: 64 KiB blocks.
    pub fn default() -> (o: SstOption)
        ensures
            o.block_size == 64 * 1024,
    {
        SstOption { block_size: 64 * 1024 }
    }

    /// The same options with another block size.
    pub fn block_size(self, size: usize) -> (o: SstOption)
        ensures
            o.block_size == size,
    {
        let mut s = self;
        s.block_size = size;
        s
    }
}

} // verus!

verus! {

/// Number of non-empty builders among `bs[level..]`.
pub open spec fn nonempty_from(bs: Seq<IndexBlockBuilder>, level: int) -> nat
    decreases bs.len() - level,
{
    if level >= bs.len() || level < 0 {
        0
    } else {
        (if bs[level].keys().len() > 0 {
            1nat
        } else {
            0nat
        }) + nonempty_from(bs, level + 1)
    }
}

pub proof fn lemma_nonempty_from_update(bs: Seq<IndexBlockBuilder>, i: int, b: IndexBlockBuilder, level: int)
    requires
        0 <= i < level,
        i < bs.len(),
    ensures
        nonempty_from(bs.update(i, b), level) == nonempty_from(bs, level),
    decreases bs.len() - level,
{
    if 0 <= level < bs.len() {
        lemma_nonempty_from_update(bs, i, b, level + 1);
    }
}

pub proof fn lemma_nonempty_from_push(bs: Seq<IndexBlockBuilder>, b: IndexBlockBuilder, level: int)
    requires
        0 <= level,
        b.keys().len() == 0,
    ensures
        nonempty_from(bs.push(b), level) == nonempty_from(bs, level),
    decreases bs.len() + 1 - level,
{
    if level < bs.len() {
        lemma_nonempty_from_push(bs, b, level + 1);
    } else if level == bs.len() {
        assert(nonempty_from(bs.push(b), level + 1) == 0);
    }
}

/// Streaming SST builder: sorted `(key, value)` pairs in, data blocks and a
/// B+tree of index blocks out, then the footer.
pub struct SstBuilder<S: SstWriter> {
    writer: S,
    data_builder: DataBlockBuilder,
    index_builders: Vec<IndexBlockBuilder>,
    option: SstOption,
    first_key: Option<Bytes>,
    last_key: Option<Bytes>,
    /// Keys added so far, in order.
    added: Ghost<Seq<Seq<u8>>>,
    /// Entries added so far, in order: a put's value, or none for a
    /// tombstone.
    entries: Ghost<Seq<(Seq<u8>, Option<Seq<u8>>)>>,
    /// Writer content when the builder was created.
    start: Ghost<Seq<u8>>,
    /// Number of block slots written so far.
    slots: Ghost<nat>,
}

/// A key short enough to be an entry of a data block and of an index block.
pub open spec fn key_fits(key_len: nat, block_size: nat) -> bool {
    12 + key_len + 17 < block_size
}

/// An index builder held by the SST builder: consistent, sized for the
/// block, below the block size, with keys that fit.
pub open spec fn index_builder_ok(b: IndexBlockBuilder, bs: nat) -> bool {
    &&& b.wf()
    &&& b.spec_block_size() == bs
    &&& 12 + b.spec_estimated_size() <= bs
    &&& forall|i: int| 0 <= i < b.keys().len() ==> key_fits(#[trigger] b.keys()[i].len(), bs)
}

impl<S: SstWriter> SstBuilder<S> {
    pub closed spec fn spec_block_size(&self) -> nat {
        self.option.block_size as nat
    }

    /// The size of the blocks the builder writes.
    pub fn block_size(&self) -> (n: usize)
        ensures
            n == self.spec_block_size(),
    {
        self.option.block_size
    }

    /// Keys added so far.
    pub closed spec fn added(&self) -> Seq<Seq<u8>> {
        self.added@
    }

    /// The number of index levels begun so far.
    pub closed spec fn index_levels(&self) -> nat {
        self.index_builders@.len()
    }

    /// Before any entry no index level has begun, and there is a
    /// non-negative block size.
    pub proof fn lemma_levels(&self)
        requires
            self.wf(),
        ensures
            self.added().len() == 0 ==> self.index_levels() == 0,
    {
    }

    /// Entries added so far, in order.
    pub closed spec fn entries(&self) -> Seq<(Seq<u8>, Option<Seq<u8>>)> {
        self.entries@
    }

    /// The pending entries of each index level.
    pub closed spec fn levels_view(&self) -> Seq<Level> {
        Seq::new(
            self.index_builders@.len(),
            |l: int| (self.index_builders@[l].keys(), self.index_builders@[l].children()),
        )
    }

    /// The build as it stands: the pending data block, the pending index
    /// levels, and the writer's content.
    pub closed spec fn model(&self) -> Build {
        (self.data_builder.keys(), self.data_builder.vals(), self.levels_view(), self.writer.content())
    }

    /// What the builder holds and has written is what adding its entries,
    /// in order, to the writer's earlier content gives.
    pub closed spec fn image_ok(&self) -> bool {
        self.model() == replay(self.start@, self.entries@, self.option.block_size as nat)
    }

    /// A well-formed builder that has taken no entry holds the image of no
    /// entries.
    pub proof fn lemma_fresh_image(&self)
        requires
            self.wf(),
            self.added().len() == 0,
        ensures
            self.image_ok(),
            self.entries() == Seq::<(Seq<u8>, Option<Seq<u8>>)>::empty(),
    {
        self.data_builder.lemma_size();
        let c = self.writer.content();
        assert(self.slots@ * (self.option.block_size as nat) == 0);
        assert(c =~= c.subrange(0, self.start@.len() as int));
        assert(self.levels_view() =~= Seq::<Level>::empty());
        assert(self.data_builder.keys() =~= Seq::<Seq<u8>>::empty());
        assert(self.data_builder.vals() =~= Seq::<Seq<u8>>::empty());
        assert(self.entries@ =~= Seq::<(Seq<u8>, Option<Seq<u8>>)>::empty());
    }

    pub closed spec fn writer_view(&self) -> S {
        self.writer
    }

    pub closed spec fn start_content(&self) -> Seq<u8> {
        self.start@
    }

    pub closed spec fn wf(&self) -> bool {
        let bs = self.option.block_size as nat;
        &&& 2 * bs <= usize::MAX
        &&& self.data_builder.wf()
        &&& self.data_builder.spec_block_size() == bs
        &&& 12 + self.data_builder.spec_estimated_size() <= bs
        &&& forall|i: int|
            0 <= i < self.data_builder.keys().len() ==> key_fits(
                #[trigger] self.data_builder.keys()[i].len(),
                bs,
            )
        &&& forall|l: int|
            0 <= l < self.index_builders@.len() ==> index_builder_ok(
                #[trigger] self.index_builders@[l],
                bs,
            )
        &&& self.writer.slot_size() == bs
        &&& self.writer.content().len() == self.start@.len() + self.slots@ * bs
        &&& self.writer.content().subrange(0, self.start@.len() as int) == self.start@
        &&& self.entries@.len() == self.added@.len()
        &&& (self.added@.len() == 0 <==> self.first_key is None)
        &&& (self.added@.len() == 0 <==> self.last_key is None)
        &&& (self.first_key matches Some(k) ==> bytes_view(k) == self.added@[0])
        &&& (self.last_key matches Some(k) ==> bytes_view(k) == self.added@.last())
        &&& (self.added@.len() == 0 ==> self.data_builder.keys().len() == 0
            && self.index_builders@.len() == 0 && self.slots@ == 0)
    }

    pub fn new(writer: S, option: SstOption) -> (b: Self)
        requires
            writer.slot_size() == option.block_size,
            12 <= option.block_size,
            2 * option.block_size <= usize::MAX,
        ensures
            b.wf(),
            b.added() == Seq::<Seq<u8>>::empty(),
            b.spec_block_size() == option.block_size,
            b.start_content() == writer.content(),
            b.writer_view() == writer,
            b.index_levels() == 0,
            b.entries() == Seq::<(Seq<u8>, Option<Seq<u8>>)>::empty(),
            b.image_ok(),
    {
        let data_builder = DataBlockBuilder::new(&option);
        let ghost c = writer.content();
        let b = Self {
            writer,
            data_builder,
            index_builders: Vec::new(),
            option,
            first_key: None,
            last_key: None,
            added: Ghost(Seq::empty()),
            entries: Ghost(Seq::empty()),
            start: Ghost(c),
            slots: Ghost(0),
        };
        assert(c.subrange(0, c.len() as int) =~= c);
        assert(0 * (option.block_size as nat) == 0);
        assert(b.levels_view() =~= Seq::<Level>::empty());
        b
    }

    /// Adds one sorted entry (the caller keeps keys ascending).
    pub fn add(&mut self, key: Bytes, value: Bytes) -> (r: StorageResult<()>)
        requires
            old(self).wf(),
            key_fits(bytes_view(key).len(), old(self).spec_block_size()),
            12 + data_entry_size(bytes_view(key).len(), bytes_view(value).len())
                < old(self).spec_block_size(),
        ensures
            final(self).wf(),
            final(self).spec_block_size() == old(self).spec_block_size(),
            final(self).start_content() == old(self).start_content(),
            r is Ok ==> final(self).added() == old(self).added().push(bytes_view(key)),
            r is Ok ==> final(self).entries() == old(self).entries().push((bytes_view(key), Some(bytes_view(value)))),
            r is Ok && old(self).image_ok() ==> final(self).image_ok(),
            final(self).index_levels() <= old(self).index_levels() + 1,
            cascade_cost((old(self).index_levels() + 2) as int, old(self).spec_block_size() as int)
                <= old(self).writer_view().capacity() ==> r is Ok,
            final(self).writer_view().capacity() >= old(self).writer_view().capacity() - cascade_cost(
                (old(self).index_levels() + 2) as int,
                old(self).spec_block_size() as int,
            ),
    {
        if self.first_key.is_none() {
            self.first_key = Some(key.clone());
        }
        self.last_key = Some(key.clone());
        let ghost m0 = self.model();
        let ghost e0 = self.entries@;
        proof {
            self.added@ = self.added@.push(bytes_view(key));
            self.entries@ = self.entries@.push((bytes_view(key), Some(bytes_view(value))));
            assert(self.entries@.drop_last() == e0);
        }
        proof {
            self.data_builder.lemma_size();
        }
        let full = self.data_builder.would_exceed(&key, &value);
        if full {
            self.flush_data_block()?;
            proof {
                self.data_builder.lemma_empty();
            }
        }
        let ghost m1 = self.model();
        let ghost ks = self.data_builder.keys();
        let ghost kv = bytes_view(key);
        let ghost vv = bytes_view(value);
        self.data_builder.add(key, value);
        proof {
            let bs = self.option.block_size as nat;
            let ks2 = self.data_builder.keys();
            assert forall|i: int| 0 <= i < ks2.len() implies key_fits(#[trigger] ks2[i].len(), bs) by {
                if i < ks.len() {
                    assert(ks2[i] == ks[i]);
                }
            }
        }
        proof {
            let bs = self.option.block_size as nat;
            let e = (kv, Some(vv));
            assert(stored(e.1).len() == e.1.unwrap_or(Seq::empty()).len() + 2) by {
                crate::builder::data_block::lemma_stored_len(e.1.unwrap_or(Seq::empty()));
            }
            assert(self.levels_view() =~= m1.2);
            assert(full == (12 + crate::builder::image::data_size(m0.0, m0.1) + e.0.len() + stored(e.1).len() + 8 > bs));
            assert(m1 == (if full { flush_data(m0, bs) } else { m0 }));
            assert(self.model() =~= (m1.0.push(e.0), m1.1.push(stored(e.1)), m1.2, m1.3));
            assert(self.entries@.last() == e);
            if old(self).image_ok() {
                assert(replay(self.start@, self.entries@, bs) == add_entry(replay(self.start@, e0, bs), e.0, stored(e.1), bs));
                assert(self.model() =~= add_entry(m0, e.0, stored(e.1), bs));
            }
        }
        Ok(())
    }

    /// Adds a delete tombstone (the caller keeps keys ascending).
    pub fn add_delete(&mut self, key: Bytes) -> (r: StorageResult<()>)
        requires
            old(self).wf(),
            key_fits(bytes_view(key).len(), old(self).spec_block_size()),
        ensures
            final(self).wf(),
            final(self).spec_block_size() == old(self).spec_block_size(),
            final(self).start_content() == old(self).start_content(),
            r is Ok ==> final(self).added() == old(self).added().push(bytes_view(key)),
            r is Ok ==> final(self).entries() == old(self).entries().push((bytes_view(key), None::<Seq<u8>>)),
            r is Ok && old(self).image_ok() ==> final(self).image_ok(),
            final(self).index_levels() <= old(self).index_levels() + 1,
            cascade_cost((old(self).index_levels() + 2) as int, old(self).spec_block_size() as int)
                <= old(self).writer_view().capacity() ==> r is Ok,
            final(self).writer_view().capacity() >= old(self).writer_view().capacity() - cascade_cost(
                (old(self).index_levels() + 2) as int,
                old(self).spec_block_size() as int,
            ),
    {
        if self.first_key.is_none() {
            self.first_key = Some(key.clone());
        }
        self.last_key = Some(key.clone());
        let ghost m0 = self.model();
        let ghost e0 = self.entries@;
        proof {
            self.added@ = self.added@.push(bytes_view(key));
            self.entries@ = self.entries@.push((bytes_view(key), None::<Seq<u8>>));
            assert(self.entries@.drop_last() == e0);
        }
        let empty = crate::buf::bytes_from_vec(Vec::new());
        proof {
            self.data_builder.lemma_size();
        }
        let full = self.data_builder.would_exceed(&key, &empty);
        if full {
            self.flush_data_block()?;
            proof {
                self.data_builder.lemma_empty();
            }
        }
        let ghost m1 = self.model();
        let ghost ks = self.data_builder.keys();
        let ghost kv = bytes_view(key);
        self.data_builder.add_delete(key);
        proof {
            let bs = self.option.block_size as nat;
            let ks2 = self.data_builder.keys();
            assert forall|i: int| 0 <= i < ks2.len() implies key_fits(#[trigger] ks2[i].len(), bs) by {
                if i < ks.len() {
                    assert(ks2[i] == ks[i]);
                }
            }
        }
        proof {
            let bs = self.option.block_size as nat;
            let e = (kv, None::<Seq<u8>>);
            assert(stored(e.1).len() == e.1.unwrap_or(Seq::empty()).len() + 2) by {
                crate::builder::data_block::lemma_stored_len(e.1.unwrap_or(Seq::empty()));
            }
            assert(self.levels_view() =~= m1.2);
            assert(full == (12 + crate::builder::image::data_size(m0.0, m0.1) + e.0.len() + stored(e.1).len() + 8 > bs));
            assert(m1 == (if full { flush_data(m0, bs) } else { m0 }));
            assert(self.model() =~= (m1.0.push(e.0), m1.1.push(stored(e.1)), m1.2, m1.3));
            assert(self.entries@.last() == e);
            if old(self).image_ok() {
                assert(replay(self.start@, self.entries@, bs) == add_entry(replay(self.start@, e0, bs), e.0, stored(e.1), bs));
                assert(self.model() =~= add_entry(m0, e.0, stored(e.1), bs));
            }
        }
        Ok(())
    }

    fn flush_data_block(&mut self) -> (r: StorageResult<()>)
        requires
            old(self).wf(),
        ensures
            final(self).wf(),
            same_log(*old(self), *final(self)),
            r is Ok ==> final(self).data_builder.keys().len() == 0,
            r is Ok ==> final(self).model() == flush_data(old(self).model(), old(self).option.block_size as nat),
            final(self).index_builders@.len() <= old(self).index_builders@.len() + 1,
            cascade_cost((old(self).index_builders@.len() + 2) as int, old(self).option.block_size as int)
                <= old(self).writer.capacity() ==> r is Ok,
            final(self).writer.capacity() >= old(self).writer.capacity() - cascade_cost(
                (old(self).index_builders@.len() + 2) as int,
                old(self).option.block_size as int,
            ),
    {
        proof {
            lemma_cascade_step((self.index_builders@.len() + 1) as int, self.option.block_size as int);
            lemma_cascade_mono(0, (self.index_builders@.len() + 1) as int, self.option.block_size as int);
            assert(cascade_cost(0, self.option.block_size as int) == 0);
        }
        if self.data_builder.is_empty() {
            return Ok(());
        }
        let end_key = match self.data_builder.last_key() {
            Some(k) => k.clone(),
            None => crate::buf::bytes_from_vec(Vec::new()),
        };
        proof {
            let ks = self.data_builder.keys();
            assert(key_fits(ks[ks.len() - 1].len(), self.option.block_size as nat));
        }
        let ghost m0 = self.model();
        proof {
            self.data_builder.lemma_size();
        }
        let block = self.data_builder.finish();
        proof {
            self.data_builder.lemma_size();
        }
        let handle = self.write_slot(&block)?;
        proof {
            let bs = self.option.block_size as nat;
            assert(self.levels_view() =~= m0.2);
            assert(self.model() =~= (Seq::<Seq<u8>>::empty(), Seq::<Seq<u8>>::empty(), m0.2, m0.3 + fit_to(encode_block(m0.0, m0.1), bs)));
            assert(handle.offset == m0.3.len() as u64);
            assert(bytes_view(end_key) == m0.0.last());
        }
        self.add_index_entry(0, end_key, handle)
    }

    /// Writes one block slot and counts it.
    fn write_slot(&mut self, block: &Bytes) -> (r: StorageResult<Position>)
        requires
            wf_except_data(*old(self)),
            bytes_view(*block).len() == old(self).option.block_size,
        ensures
            wf_except_data(*final(self)),
            final(self).data_builder == old(self).data_builder,
            final(self).index_builders == old(self).index_builders,
            same_log(*old(self), *final(self)),
            old(self).option.block_size <= old(self).writer.capacity() ==> r is Ok,
            r is Ok ==> {
                &&& r->Ok_0.offset == old(self).writer.content().len()
                &&& final(self).writer.content() == old(self).writer.content() + bytes_view(*block)
                &&& final(self).writer.capacity() == old(self).writer.capacity() - old(self).option.block_size
            },
            r is Err ==> final(self).writer.capacity() == old(self).writer.capacity(),
    {
        let r = self.writer.write_block(bytes_as_slice(block));
        proof {
            if r is Ok {
                let bs = self.option.block_size as nat;
                let n = old(self).slots@;
                assert((n + 1) * bs == n * bs + bs) by (nonlinear_arith);
                self.slots@ = n + 1;
                let c0 = old(self).writer.content();
                let c1 = self.writer.content();
                assert(c1.subrange(0, self.start@.len() as int) =~= c0.subrange(
                    0,
                    self.start@.len() as int,
                ));
            }
        }
        r
    }

    fn add_index_entry(&mut self, level: usize, end_key: Bytes, position: Position) -> (r:
        StorageResult<()>)
        requires
            old(self).wf(),
            old(self).added().len() > 0,
            level <= old(self).index_builders@.len(),
            key_fits(bytes_view(end_key).len(), old(self).option.block_size as nat),
        ensures
            final(self).wf(),
            same_log(*old(self), *final(self)),
            final(self).data_builder == old(self).data_builder,
            final(self).index_builders@.len() >= old(self).index_builders@.len(),
            final(self).index_builders@.len() >= level,
            forall|l: int|
                0 <= l < level ==> #[trigger] final(self).index_builders@[l]
                    == old(self).index_builders@[l],
            final(self).index_builders@.len() <= old(self).index_builders@.len() + 1,
            cascade_cost(old(self).index_builders@.len() - level + 1, old(self).option.block_size as int)
                <= old(self).writer.capacity() ==> r is Ok,
            final(self).writer.capacity() >= old(self).writer.capacity() - cascade_cost(
                old(self).index_builders@.len() - level + 1,
                old(self).option.block_size as int,
            ),
            r is Ok ==> {
                &&& final(self).index_builders@[level as int].keys().len() > 0
                &&& final(self).index_builders@[level as int].keys().last() == bytes_view(end_key)
                &&& final(self).index_builders@[level as int].children().last() == position.offset
            },
            r is Ok ==> final(self).model() == add_index(
                old(self).model(),
                level as nat,
                bytes_view(end_key),
                position.offset,
                old(self).option.block_size as nat,
            ),
        decreases nonempty_from(old(self).index_builders@, level as int) * 2 + 1,
    {
        let ghost m0 = self.model();
        let ghost bsz = self.option.block_size as nat;
        if level >= self.index_builders.len() {
            let b = IndexBlockBuilder::new(&self.option);
            let ghost before = self.index_builders@;
            proof {
                lemma_nonempty_from_push(self.index_builders@, b, level as int);
            }
            self.index_builders.push(b);
            proof {
                let bs = self.option.block_size as nat;
                assert(index_builder_ok(b, bs));
                assert forall|l: int| 0 <= l < self.index_builders@.len() implies index_builder_ok(
                    #[trigger] self.index_builders@[l],
                    bs,
                ) by {
                    if l < before.len() {
                        assert(self.index_builders@[l] == before[l]);
                    }
                }
            }
        }
        let ghost m1 = self.model();
        proof {
            assert(self.levels_view() =~= crate::builder::image::begun(m0.2, level as nat));
            assert(m1 == (m0.0, m0.1, crate::builder::image::begun(m0.2, level as nat), m0.3));
            assert(index_builder_ok(self.index_builders@[level as int], bsz));
            self.index_builders@[level as int].lemma_size();
        }
        let full = self.index_builders[level].would_exceed(&end_key, &position);
        if full {
            self.flush_index_block(level)?;
            proof {
                assert(index_builder_ok(self.index_builders@[level as int], self.option.block_size as nat));
                self.index_builders@[level as int].lemma_empty();
            }
        }
        let ghost m2 = self.model();
        proof {
            assert(full == (12 + crate::builder::image::index_size(m1.2[level as int].0) + bytes_view(end_key).len() + 17 > bsz));
            assert(m2 == (if full && level < m1.2.len() { flush_index(m1, level as nat, bsz) } else { m1 }));
        }
        let ghost before = self.index_builders@;
        let mut b = self.index_builders.remove(level);
        proof {
            assert(index_builder_ok(b, self.option.block_size as nat));
        }
        let ghost ks = b.keys();
        b.add(end_key, position);
        self.index_builders.insert(level, b);
        proof {
            let bs = self.option.block_size as nat;
            assert(self.index_builders@ =~= before.update(level as int, b));
            let ks2 = b.keys();
            assert forall|i: int| 0 <= i < ks2.len() implies key_fits(#[trigger] ks2[i].len(), bs) by {
                if i < ks.len() {
                    assert(ks2[i] == ks[i]);
                }
            }
            assert(index_builder_ok(b, bs));
            assert forall|l: int| 0 <= l < self.index_builders@.len() implies index_builder_ok(
                #[trigger] self.index_builders@[l],
                bs,
            ) by {
                if l != level {
                    assert(self.index_builders@[l] == before[l]);
                }
            }
            let x = m2.2[level as int];
            assert(self.levels_view() =~= m2.2.update(
                level as int,
                (x.0.push(bytes_view(end_key)), x.1.push(position.offset)),
            ));
        }
        Ok(())
    }

    fn flush_index_block(&mut self, level: usize) -> (r: StorageResult<()>)
        requires
            old(self).wf(),
            level < old(self).index_builders@.len(),
        ensures
            final(self).wf(),
            same_log(*old(self), *final(self)),
            final(self).data_builder == old(self).data_builder,
            final(self).index_builders@.len() >= old(self).index_builders@.len(),
            forall|l: int|
                0 <= l < level ==> #[trigger] final(self).index_builders@[l]
                    == old(self).index_builders@[l],
            r is Ok ==> final(self).index_builders@[level as int].keys().len() == 0,
            r is Ok ==> final(self).model() == flush_index(
                old(self).model(),
                level as nat,
                old(self).option.block_size as nat,
            ),
            final(self).index_builders@.len() <= old(self).index_builders@.len() + 1,
            cascade_cost(old(self).index_builders@.len() - level + 1, old(self).option.block_size as int)
                <= old(self).writer.capacity() ==> r is Ok,
            final(self).writer.capacity() >= old(self).writer.capacity() - cascade_cost(
                old(self).index_builders@.len() - level + 1,
                old(self).option.block_size as int,
            ),
        decreases nonempty_from(old(self).index_builders@, level as int) * 2,
    {
        let ghost m0 = self.model();
        if self.index_builders[level].is_empty() {
            return Ok(());
        }
        proof {
            self.index_builders@[level as int].lemma_vals();
        }
        let end_key = match self.index_builders[level].last_entry() {
            Some(e) => e.end_key.clone(),
            None => crate::buf::bytes_from_vec(Vec::new()),
        };
        proof {
            let ks = self.index_builders@[level as int].keys();
            assert(key_fits(ks[ks.len() - 1].len(), self.option.block_size as nat));
        }
        let ghost before = self.index_builders@;
        let nb = self.index_builders.len();
        let mut b = self.index_builders.remove(level);
        let block = b.finish();
        self.index_builders.insert(level, b);
        proof {
            let bs = self.option.block_size as nat;
            assert(self.index_builders@ =~= before.update(level as int, b));
            lemma_nonempty_from_update(before, level as int, b, level + 1);
            assert forall|l: int| 0 <= l < self.index_builders@.len() implies index_builder_ok(
                #[trigger] self.index_builders@[l],
                bs,
            ) by {
                if l != level {
                    assert(self.index_builders@[l] == before[l]);
                }
            }
        }
        proof {
            lemma_cascade_step(nb - level, self.option.block_size as int);
            lemma_cascade_mono(0, nb - level, self.option.block_size as int);
            assert(cascade_cost(0, self.option.block_size as int) == 0);
        }
        let handle = self.write_slot(&block)?;
        proof {
            let bsz = self.option.block_size as nat;
            let x = m0.2[level as int];
            assert(self.levels_view() =~= m0.2.update(level as int, (Seq::<Seq<u8>>::empty(), Seq::<u64>::empty())));
            assert(handle.offset == m0.3.len() as u64);
            assert(bytes_view(end_key) == x.0.last());
            assert(self.model() =~= (
                m0.0,
                m0.1,
                m0.2.update(level as int, (Seq::<Seq<u8>>::empty(), Seq::<u64>::empty())),
                m0.3 + fit_to(encode_block(x.0, crate::builder::image::index_vals(x.1)), bsz),
            ));
        }
        self.add_index_entry(level + 1, end_key, handle)
    }

    /// Finishes the SST: flushes the pending data block and every index
    /// level bottom-up, writes the footer, and hands back the writer.
    #[verifier::rlimit(40)]
    pub fn finish(self) -> (r: StorageResult<(SstFooter, S)>)
        requires
            self.wf(),
        ensures
            finish_cost(self.index_levels() as int, self.spec_block_size() as int) + 24 + (if self.added().len()
                == 0 {
                0
            } else {
                self.added()[0].len() + self.added().last().len()
            }) <= self.writer_view().capacity() ==> r is Ok,
            r is Ok ==> ({
                let (footer, w) = r->Ok_0;
                let c = w.content();
                let e = footer.encoded();
                let start = self.start_content();
                &&& bytes_view(footer.first_key) == (if self.added().len() == 0 {
                    Seq::<u8>::empty()
                } else {
                    self.added()[0]
                })
                &&& bytes_view(footer.last_key) == (if self.added().len() == 0 {
                    Seq::<u8>::empty()
                } else {
                    self.added().last()
                })
                &&& c.len() >= start.len() + e.len()
                &&& c.subrange(0, start.len() as int) == start
                &&& c.subrange(c.len() - e.len(), c.len() as int) == e
                &&& (c.len() - e.len() - start.len()) % (self.spec_block_size() as int) == 0
                &&& (self.added().len() == 0 ==> {
                    &&& c == start + e
                    &&& footer.tree_height == 0
                    &&& footer.root_index_block_position.offset == 0
                })
            }),
            r is Ok && self.image_ok() ==> ({
                let (footer, w) = r->Ok_0;
                let img = sst_image(self.start_content(), self.entries(), self.spec_block_size());
                &&& w.content() == img.3 + footer.encoded()
                &&& footer.root_index_block_position.offset == root_of(img)
                &&& footer.tree_height == img.2.len() as u32
            }),
    {
        let ghost img_ok = self.image_ok();
        let ghost m0 = self.model();
        let ghost bsn = self.option.block_size as nat;
        let ghost levels0 = self.index_builders@.len() as int;
        let ghost bs = self.option.block_size as int;
        let ghost k0 = cascade_cost(levels0 + 2, bs);
        let ghost foot: int = if self.added().len() == 0 {
            0int
        } else {
            (self.added()[0].len() + self.added().last().len()) as int
        };
        let ghost ok = finish_cost(levels0, bs) + 24 + foot <= self.writer.capacity();
        let mut this = self;
        this.flush_data_block()?;
        let ghost m1 = this.model();
        let ghost cap1 = this.writer.capacity();
        let pre = this.index_builders.len();
        let mut level: usize = 0;
        proof {
            lemma_cascade_mono(0, levels0 + 2, bs);
            lemma_cascade_add(0, 0, bs);
        }
        while level < pre
            invariant
                this.wf(),
                same_log(self, this),
                pre <= this.index_builders@.len(),
                level <= pre,
                self.added().len() == 0 ==> this.index_builders@.len() == 0 && this.slots@ == 0,
                bs == this.option.block_size,
                bs >= 0,
                k0 == cascade_cost(levels0 + 2, bs),
                k0 >= 0,
                foot >= 0,
                foot == (if self.added().len() == 0 {
                    0int
                } else {
                    (self.added()[0].len() + self.added().last().len()) as int
                }),
                ok == (finish_cost(self.index_levels() as int, self.spec_block_size() as int) + 24 + foot
                    <= self.writer_view().capacity()),
                pre <= levels0 + 1,
                this.index_builders@.len() <= pre + level,
                ok ==> cap1 >= cascade_cost(levels0 + 1, k0) + cascade_cost(2, bs) + 24 + foot,
                ok ==> this.writer.capacity() >= cap1 - cascade_cost(level as int, k0),
                img_ok ==> m1 == flush_data(m0, bsn),
                m1.2.len() == pre,
                bsn == this.option.block_size as nat,
                img_ok ==> this.model() == flush_upto(m1, level as nat, bsn),
            decreases pre - level,
        {
            let ghost mb = this.model();
            proof {
                assert(this.levels_view()[level as int].0 == this.index_builders@[level as int].keys());
            }
            if !this.index_builders[level].is_empty() {
                proof {
                    let len = this.index_builders@.len() as int;
                    lemma_cascade_mono(len - level + 1, levels0 + 2, bs);
                    lemma_cascade_split(levels0 + 1, level as int, k0);
                    lemma_cascade_split(levels0 + 1 - level, 1, k0);
                    lemma_cascade_add(0, 0, k0);
                    lemma_cascade_mono(0, levels0 + 1 - level - 1, k0);
                    lemma_cascade_mono(0, 2, bs);
                    lemma_cascade_add(0, 0, bs);
                    assert(cascade_cost(len - level + 1, bs) <= k0);
                    if ok {
                        assert(this.writer.capacity() >= k0);
                    }
                }
                this.flush_index_block(level)?;
            }
            proof {
                assert(flush_upto(m1, (level + 1) as nat, bsn) == flush_index(flush_upto(m1, level as nat, bsn), level as nat, bsn));
                lemma_cascade_split(level + 1, level as int, k0);
                lemma_cascade_add(0, 0, k0);
            }
            level = level + 1;
        }
        proof {
            lemma_cascade_split(levels0 + 1, pre as int, k0);
            lemma_cascade_mono(0, levels0 + 1 - pre, k0);
            lemma_cascade_add(0, 0, k0);
            lemma_cascade_mono(0, 2, bs);
        }
        let ghost m2 = this.model();
        let n = this.index_builders.len();
        proof {
            if n > 0 {
                assert(this.levels_view()[n - 1].0 == this.index_builders@[n - 1].keys());
            }
        }
        if n > 0 && this.index_builders[n - 1].entry_count() > 1 {
            this.flush_index_block(n - 1)?;
        }
        let ghost m3 = this.model();
        proof {
            if img_ok {
                assert(m3 == crate::builder::image::finished(m0, bsn));
            }
        }
        let n = this.index_builders.len();
        proof {
            if n > 0 {
                this.index_builders@[n - 1].lemma_vals();
                assert(this.levels_view()[n - 1] == (this.index_builders@[n - 1].keys(), this.index_builders@[n - 1].children()));
            }
        }
        let height = n as u32;
        let root_position = if n > 0 {
            match this.index_builders[n - 1].last_entry() {
                Some(e) => e.child,
                None => Position { offset: 0 },
            }
        } else {
            Position { offset: 0 }
        };
        let first_key = match &this.first_key {
            Some(k) => k.clone(),
            None => crate::buf::bytes_from_vec(Vec::new()),
        };
        let last_key = match &this.last_key {
            Some(k) => k.clone(),
            None => crate::buf::bytes_from_vec(Vec::new()),
        };
        let footer = SstFooter {
            root_index_block_position: root_position,
            tree_height: height,
            first_key,
            last_key,
        };
        let ghost c0 = this.writer.content();
        proof {
            lemma_footer_len(
                footer.root_index_block_position.offset,
                footer.tree_height,
                bytes_view(footer.first_key),
                bytes_view(footer.last_key),
            );
        }
        let _ = this.writer.write_footer(&footer)?;
        proof {
            let bs = this.option.block_size as int;
            let c = this.writer.content();
            let e = footer.encoded();
            let start = this.start@;
            assert(c.subrange(0, start.len() as int) =~= c0.subrange(0, start.len() as int));
            assert(c.subrange(c.len() - e.len(), c.len() as int) =~= e);
            vstd::arithmetic::div_mod::lemma_mod_multiples_basic(this.slots@ as int, bs);
            if self.added().len() == 0 {
                assert(c0 =~= start);
                assert(c =~= start + e);
            }
            if img_ok {
                assert(c0 == m3.3);
                assert(footer.root_index_block_position.offset == root_of(m3));
            }
        }
        Ok((footer, this.writer))
    }
}

/// The bytes written by `k` block slots of `bs` bytes each.
pub open spec fn cascade_cost(k: int, bs: int) -> int {
    k * bs
}

/// The most `finish` writes before the footer, for a builder with `levels`
/// index levels and blocks of `bs` bytes: the pending data block and its
/// cascade, one cascade per level afterwards, and a final root block.
pub open spec fn finish_cost(levels: int, bs: int) -> int {
    cascade_cost(levels + 2, bs) + cascade_cost(levels + 1, cascade_cost(levels + 2, bs))
        + cascade_cost(2, bs)
}

/// Costs add up.
pub proof fn lemma_cascade_add(a: int, b: int, k: int)
    ensures
        cascade_cost(a + b, k) == cascade_cost(a, k) + cascade_cost(b, k),
        cascade_cost(1, k) == k,
        cascade_cost(0, k) == 0,
{
    assert((a + b) * k == a * k + b * k) by (nonlinear_arith);
}

/// What writing `n` entries and finishing may cost at most, for blocks of
/// `bs` bytes (the footer aside): each entry's cascade, over at most `n`
/// index levels, then `finish`.
pub open spec fn build_cost(n: int, bs: int) -> int {
    cascade_cost(n, cascade_cost(n + 2, bs)) + finish_cost(n, bs)
}

/// Finishing costs no more with fewer index levels.
pub proof fn lemma_finish_mono(l: int, n: int, bs: int)
    requires
        0 <= l <= n,
        bs >= 0,
    ensures
        finish_cost(l, bs) <= finish_cost(n, bs),
{
    lemma_cascade_mono(l + 2, n + 2, bs);
    let a = cascade_cost(l + 2, bs);
    let b = cascade_cost(n + 2, bs);
    lemma_cascade_mono(0, l + 2, bs);
    assert(0 * bs == 0);
    assert((l + 1) * a <= (n + 1) * b) by (nonlinear_arith)
        requires
            0 <= l <= n,
            0 <= a <= b,
    ;
}

/// A cost splits at any point.
pub proof fn lemma_cascade_split(n: int, a: int, k: int)
    ensures
        cascade_cost(n, k) == cascade_cost(a, k) + cascade_cost(n - a, k),
{
    assert(n * k == a * k + (n - a) * k) by (nonlinear_arith);
}

/// One more slot costs one more block.
proof fn lemma_cascade_step(k: int, bs: int)
    ensures
        cascade_cost(k + 1, bs) == bs + cascade_cost(k, bs),
{
    assert((k + 1) * bs == bs + k * bs) by (nonlinear_arith);
}

/// Costs grow with the number of slots.
pub proof fn lemma_cascade_mono(a: int, b: int, bs: int)
    requires
        a <= b,
        bs >= 0,
    ensures
        cascade_cost(a, bs) <= cascade_cost(b, bs),
{
    assert(a * bs <= b * bs) by (nonlinear_arith)
        requires
            a <= b,
            bs >= 0,
    ;
}

/// Everything of `wf` but the data builder's part, which `write_slot`
/// leaves alone.
spec fn wf_except_data<S: SstWriter>(b: SstBuilder<S>) -> bool {
    let bs = b.option.block_size as nat;
    &&& forall|l: int|
        0 <= l < b.index_builders@.len() ==> index_builder_ok(#[trigger] b.index_builders@[l], bs)
    &&& b.writer.slot_size() == bs
    &&& b.writer.content().len() == b.start@.len() + b.slots@ * bs
    &&& b.writer.content().subrange(0, b.start@.len() as int) == b.start@
}

/// The parts of the builder that only `add` changes.
spec fn same_log<S: SstWriter>(a: SstBuilder<S>, b: SstBuilder<S>) -> bool {
    &&& a.added@ == b.added@
    &&& a.entries@ == b.entries@
    &&& a.first_key == b.first_key
    &&& a.last_key == b.last_key
    &&& a.option == b.option
    &&& a.start@ == b.start@
}

} // verus!
