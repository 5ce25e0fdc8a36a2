//! Index blocks: `end_key -> child block position` entries.

use vstd::prelude::*;
use bytes::Bytes;
use crate::block::Position;
use crate::buf::{bytes_as_slice, bytes_from_vec, bytes_view};
use crate::builder::sst::SstOption;
use crate::codec::{append_bytes, be_u32, be_u64, fit_vec, push_u32_be, push_u64_be};
use crate::format::{
    block_header_len, concat, encode_block, fit_to, lemma_total_len_mono, lemma_total_len_push,
    offset_table, total_len,
};

verus! {

/// Version byte in front of every index value.
pub const INDEX_VALUE_VERSION: u8 = 1;

/// Stored index value: version byte plus the child offset.
pub const INDEX_VALUE_LEN: usize = 9;

/// Block prefix of an empty block: count and the two sentinels.
pub const BLOCK_FIXED_HEADER_SIZE: usize = 12;

/// Bytes an index entry adds besides its key: two offsets and the value.
pub const INDEX_ENTRY_OVERHEAD: usize = 17;

/// One entry in an index block: end key -> child block location.
#[derive(Debug)]
pub struct IndexEntry {
    pub end_key: Bytes,
    pub child: Position,
}

/// The value bytes stored for a child at `offset`.
pub open spec fn stored_index_value(offset: u64) -> Seq<u8> {
    seq![INDEX_VALUE_VERSION] + be_u64(offset)
}

spec fn keys_of(es: Seq<IndexEntry>) -> Seq<Seq<u8>> {
    Seq::new(es.len(), |i: int| bytes_view(es[i].end_key))
}

spec fn vals_of(es: Seq<IndexEntry>) -> Seq<Seq<u8>> {
    Seq::new(es.len(), |i: int| stored_index_value(es[i].child.offset))
}

proof fn lemma_entries_push(es: Seq<IndexEntry>, e: IndexEntry)
    ensures
        keys_of(es.push(e)) == keys_of(es).push(bytes_view(e.end_key)),
        vals_of(es.push(e)) == vals_of(es).push(stored_index_value(e.child.offset)),
        total_len(keys_of(es.push(e)), es.len() + 1int) == total_len(keys_of(es), es.len() as int)
            + bytes_view(e.end_key).len(),
        total_len(vals_of(es.push(e)), es.len() + 1int) == total_len(vals_of(es), es.len() as int)
            + 9,
{
    assert(keys_of(es.push(e)) =~= keys_of(es).push(bytes_view(e.end_key)));
    assert(vals_of(es.push(e)) =~= vals_of(es).push(stored_index_value(e.child.offset)));
    lemma_total_len_push(keys_of(es), bytes_view(e.end_key), es.len() as int);
    lemma_total_len_push(vals_of(es), stored_index_value(e.child.offset), es.len() as int);
    crate::codec::lemma_be_u64_roundtrip(e.child.offset);
}

/// Builds an index block from sorted index entries.
pub struct IndexBlockBuilder {
    option: SstOption,
    entries: Vec<IndexEntry>,
    estimated_size: usize,
}

impl IndexBlockBuilder {
    /// End keys of the entries added so far.
    pub closed spec fn keys(&self) -> Seq<Seq<u8>> {
        keys_of(self.entries@)
    }

    /// Stored value bytes (`[version][child offset]`) of the entries so far.
    pub closed spec fn vals(&self) -> Seq<Seq<u8>> {
        vals_of(self.entries@)
    }

    /// Child offsets of the entries so far.
    pub closed spec fn children(&self) -> Seq<u64> {
        Seq::new(self.entries@.len(), |i: int| self.entries@[i].child.offset)
    }

    pub closed spec fn spec_block_size(&self) -> nat {
        self.option.block_size as nat
    }

    pub closed spec fn spec_estimated_size(&self) -> nat {
        self.estimated_size as nat
    }

    pub closed spec fn wf(&self) -> bool {
        self.estimated_size == total_len(self.keys(), self.keys().len() as int) + 17
            * self.entries@.len()
    }

    pub fn new(option: &SstOption) -> (b: Self)
        ensures
            b.wf(),
            b.keys() == Seq::<Seq<u8>>::empty(),
            b.vals() == Seq::<Seq<u8>>::empty(),
            b.children() == Seq::<u64>::empty(),
            b.spec_estimated_size() == 0,
            b.spec_block_size() == option.block_size,
    {
        let b = Self {
            option: SstOption { block_size: option.block_size },
            entries: Vec::new(),
            estimated_size: 0,
        };
        assert(b.keys() =~= Seq::<Seq<u8>>::empty());
        assert(b.vals() =~= Seq::<Seq<u8>>::empty());
        assert(b.children() =~= Seq::<u64>::empty());
        b
    }

    /// Adds an entry. The entry alone must fit in a block (an oversized
    /// entry is a caller error).
    pub fn add(&mut self, end_key: Bytes, child: Position)
        requires
            old(self).wf(),
            BLOCK_FIXED_HEADER_SIZE + bytes_view(end_key).len() + 17 < old(self).spec_block_size(),
            old(self).spec_estimated_size() + bytes_view(end_key).len() + 17 <= usize::MAX,
        ensures
            final(self).wf(),
            final(self).keys() == old(self).keys().push(bytes_view(end_key)),
            final(self).vals() == old(self).vals().push(stored_index_value(child.offset)),
            final(self).children() == old(self).children().push(child.offset),
            final(self).spec_estimated_size() == old(self).spec_estimated_size() + bytes_view(
                end_key,
            ).len() + 17,
            final(self).spec_block_size() == old(self).spec_block_size(),
    {
        let klen = bytes_as_slice(&end_key).len();
        let e = IndexEntry { end_key, child };
        proof {
            lemma_entries_push(self.entries@, e);
        }
        let ghost e2 = e;
        self.estimated_size = self.estimated_size + klen + INDEX_ENTRY_OVERHEAD;
        self.entries.push(e);
        proof {
            assert(self.entries@ == old(self).entries@.push(e2));
            assert(self.children() =~= old(self).children().push(child.offset));
        }
    }

    /// The stored values name the children, in order.
    pub proof fn lemma_vals(&self)
        ensures
            self.vals() == crate::builder::image::index_vals(self.children()),
            self.vals().len() == self.keys().len(),
            self.children().len() == self.keys().len(),
    {
        assert(self.vals() =~= crate::builder::image::index_vals(self.children()));
    }

    /// The estimate is the size of the entries so far.
    pub proof fn lemma_size(&self)
        requires
            self.wf(),
        ensures
            self.spec_estimated_size() == crate::builder::image::index_size(self.keys()),
    {
    }

    /// An empty builder estimates nothing.
    pub proof fn lemma_empty(&self)
        requires
            self.wf(),
            self.keys().len() == 0,
        ensures
            self.spec_estimated_size() == 0,
    {
    }

    pub fn estimated_size(&self) -> (n: usize)
        ensures
            n == self.spec_estimated_size(),
    {
        self.estimated_size
    }

    /// Whether adding an entry with `end_key` would make the block exceed
    /// its size.
    pub fn would_exceed(&self, end_key: &Bytes, _child: &Position) -> (b: bool)
        requires
            BLOCK_FIXED_HEADER_SIZE + self.spec_estimated_size() + bytes_view(*end_key).len() + 17
                <= usize::MAX,
        ensures
            b == (BLOCK_FIXED_HEADER_SIZE + self.spec_estimated_size() + bytes_view(
                *end_key,
            ).len() + 17 > self.spec_block_size()),
    {
        BLOCK_FIXED_HEADER_SIZE + self.estimated_size + bytes_as_slice(end_key).len()
            + INDEX_ENTRY_OVERHEAD > self.option.block_size
    }

    pub fn is_empty(&self) -> (b: bool)
        ensures
            b == (self.keys().len() == 0),
    {
        self.entries.len() == 0
    }

    pub fn entry_count(&self) -> (n: usize)
        ensures
            n == self.keys().len(),
    {
        self.entries.len()
    }

    pub fn last_entry(&self) -> (e: Option<&IndexEntry>)
        ensures
            self.keys().len() == 0 ==> e is None,
            self.keys().len() > 0 ==> e is Some && bytes_view(e->0.end_key) == self.keys().last()
                && e->0.child.offset == self.children().last(),
    {
        let n = self.entries.len();
        if n == 0 {
            None
        } else {
            Some(&self.entries[n - 1])
        }
    }

    /// Encodes the entries into one block of exactly `block_size` bytes (cut
    /// if they do not fit) and empties the builder.
    pub fn finish(&mut self) -> (r: Bytes)
        requires
            old(self).wf(),
            BLOCK_FIXED_HEADER_SIZE + old(self).spec_estimated_size() <= usize::MAX,
        ensures
            bytes_view(r) == fit_to(
                encode_block(old(self).keys(), old(self).vals()),
                old(self).spec_block_size(),
            ),
            final(self).wf(),
            final(self).keys() == Seq::<Seq<u8>>::empty(),
            final(self).children() == Seq::<u64>::empty(),
            final(self).spec_estimated_size() == 0,
            final(self).spec_block_size() == old(self).spec_block_size(),
    {
        let ghost keys = self.keys();
        let ghost vals = self.vals();
        let n = self.entries.len();
        let ghost nn = n as int;
        let ghost h = block_header_len(n as nat);
        let ghost vbase = h + total_len(keys, nn);
        proof {
            lemma_total_len_mono(keys, 0, nn);
            assert forall|j: int| 0 <= j < vals.len() implies (#[trigger] vals[j]).len() == 9 by {
                crate::codec::lemma_be_u64_roundtrip(self.entries@[j].child.offset);
            }
            lemma_vals_total(vals, nn);
        }
        let mut out: Vec<u8> = Vec::new();
        push_u32_be(&mut out, n as u32);
        let header_size = 4 + (n + 1) * 8;
        let mut data_offset = header_size;
        let mut i: usize = 0;
        assert(out@ =~= be_u32(n as u32) + offset_table(h, keys, 0));
        while i < n
            invariant
                n == self.entries@.len(),
                nn == n,
                keys == self.keys(),
                i <= n,
                h == header_size,
                data_offset == h + total_len(keys, i as int),
                h + total_len(keys, nn) + 9 * nn <= usize::MAX,
                out@ == be_u32(n as u32) + offset_table(h, keys, i as int),
            decreases n - i,
        {
            proof {
                lemma_total_len_mono(keys, i + 1, nn);
            }
            push_u32_be(&mut out, data_offset as u32);
            let klen = bytes_as_slice(&self.entries[i].end_key).len();
            data_offset = data_offset + klen;
            i = i + 1;
        }
        push_u32_be(&mut out, data_offset as u32);
        let ghost part1 = out@;
        assert(part1 == be_u32(n as u32) + offset_table(h, keys, nn + 1));
        let mut i: usize = 0;
        assert(out@ =~= part1 + offset_table(vbase, vals, 0));
        while i < n
            invariant
                n == self.entries@.len(),
                nn == n,
                vals == self.vals(),
                i <= n,
                data_offset == vbase + 9 * i,
                forall|j: int| 0 <= j < vals.len() ==> (#[trigger] vals[j]).len() == 9,
                total_len(vals, i as int) == 9 * i,
                vbase + 9 * nn <= usize::MAX,
                out@ == part1 + offset_table(vbase, vals, i as int),
            decreases n - i,
        {
            proof {
                lemma_vals_total(vals, i + 1);
            }
            push_u32_be(&mut out, data_offset as u32);
            data_offset = data_offset + INDEX_VALUE_LEN;
            i = i + 1;
        }
        push_u32_be(&mut out, data_offset as u32);
        let ghost part2 = out@;
        assert(part2 == part1 + offset_table(vbase, vals, nn + 1));
        let mut i: usize = 0;
        assert(keys.subrange(0, 0) =~= Seq::<Seq<u8>>::empty());
        assert(out@ =~= part2 + concat(keys.subrange(0, 0)));
        while i < n
            invariant
                n == self.entries@.len(),
                keys == self.keys(),
                i <= n,
                out@ == part2 + concat(keys.subrange(0, i as int)),
            decreases n - i,
        {
            append_bytes(&mut out, bytes_as_slice(&self.entries[i].end_key));
            proof {
                let s = keys.subrange(0, i + 1);
                assert(s.drop_last() =~= keys.subrange(0, i as int));
            }
            i = i + 1;
        }
        assert(keys.subrange(0, nn) =~= keys);
        let ghost part3 = out@;
        let mut i: usize = 0;
        assert(vals.subrange(0, 0) =~= Seq::<Seq<u8>>::empty());
        assert(out@ =~= part3 + concat(vals.subrange(0, 0)));
        while i < n
            invariant
                n == self.entries@.len(),
                vals == self.vals(),
                i <= n,
                out@ == part3 + concat(vals.subrange(0, i as int)),
            decreases n - i,
        {
            let ghost before = out@;
            out.push(INDEX_VALUE_VERSION);
            push_u64_be(&mut out, self.entries[i].child.offset);
            proof {
                let s = vals.subrange(0, i + 1);
                assert(s.drop_last() =~= vals.subrange(0, i as int));
                assert(out@ =~= before + vals[i as int]);
            }
            i = i + 1;
        }
        assert(vals.subrange(0, nn) =~= vals);
        assert(out@ =~= encode_block(keys, vals));
        fit_vec(&mut out, self.option.block_size);
        self.reset();
        bytes_from_vec(out)
    }

    /// Drops all entries.
    pub fn reset(&mut self)
        ensures
            final(self).wf(),
            final(self).keys() == Seq::<Seq<u8>>::empty(),
            final(self).vals() == Seq::<Seq<u8>>::empty(),
            final(self).children() == Seq::<u64>::empty(),
            final(self).spec_estimated_size() == 0,
            final(self).spec_block_size() == old(self).spec_block_size(),
    {
        self.entries.clear();
        self.estimated_size = 0;
        assert(self.keys() =~= Seq::<Seq<u8>>::empty());
        assert(self.vals() =~= Seq::<Seq<u8>>::empty());
        assert(self.children() =~= Seq::<u64>::empty());
    }
}

/// Every stored index value is 9 bytes long.
proof fn lemma_vals_total(vals: Seq<Seq<u8>>, i: int)
    requires
        0 <= i <= vals.len(),
        forall|j: int| 0 <= j < vals.len() ==> (#[trigger] vals[j]).len() == 9,
    ensures
        total_len(vals, i) == 9 * i,
    decreases i,
{
    if i > 0 {
        lemma_vals_total(vals, i - 1);
    }
}

} // verus!
