//! Data blocks: sorted key/value entries and delete tombstones.

use vstd::prelude::*;
use bytes::Bytes;
use crate::buf::{bytes_as_slice, bytes_from_vec, bytes_view};
use crate::builder::sst::SstOption;
use crate::codec::{append_bytes, be_u32, fit_vec, push_u32_be};
use crate::format::{
    block_header_len, concat, encode_block, fit_to, lemma_total_len_mono, lemma_total_len_push,
    offset_table, total_len,
};

verus! {

/// Block prefix of an empty block: count and the two sentinels.
pub const BLOCK_FIXED_HEADER_SIZE: usize = 12;

/// Version byte in front of every data entry.
pub const DATA_ENTRY_VERSION: u8 = 1;

/// Data entries are stored as `[format_version][entry_kind][payload]`.
pub const DATA_ENTRY_HEADER_LEN: usize = 2;

/// Each entry takes one key offset and one value offset.
pub const PER_ENTRY_OFFSET_TABLE_BYTES: usize = 8;

/// Entry kind of a live value.
pub const KIND_PUT: u8 = 0;

/// Entry kind of a delete tombstone.
pub const KIND_DELETE: u8 = 1;

/// A data block entry: a live value or a delete tombstone.
pub enum BlockEntry {
    Put(Bytes, Bytes),
    Delete(Bytes),
}

/// A stored entry is two header bytes longer than its payload.
pub proof fn lemma_stored_len(payload: Seq<u8>)
    ensures
        stored_entry(KIND_PUT, payload).len() == payload.len() + 2,
        stored_entry(KIND_DELETE, payload).len() == payload.len() + 2,
{
}

/// The value bytes stored for an entry of `kind` with `payload`.
pub open spec fn stored_entry(kind: u8, payload: Seq<u8>) -> Seq<u8> {
    seq![DATA_ENTRY_VERSION, kind] + payload
}

impl BlockEntry {
    pub open spec fn key_view(&self) -> Seq<u8> {
        match self {
            BlockEntry::Put(k, _) => bytes_view(*k),
            BlockEntry::Delete(k) => bytes_view(*k),
        }
    }

    pub open spec fn kind_view(&self) -> u8 {
        match self {
            BlockEntry::Put(_, _) => KIND_PUT,
            BlockEntry::Delete(_) => KIND_DELETE,
        }
    }

    pub open spec fn payload_view(&self) -> Seq<u8> {
        match self {
            BlockEntry::Put(_, v) => bytes_view(*v),
            BlockEntry::Delete(_) => Seq::empty(),
        }
    }

    /// The bytes stored in the value area for this entry.
    pub open spec fn stored_view(&self) -> Seq<u8> {
        stored_entry(self.kind_view(), self.payload_view())
    }

    fn key(&self) -> (k: &Bytes)
        ensures
            bytes_view(*k) == self.key_view(),
    {
        match self {
            BlockEntry::Put(k, _) => k,
            BlockEntry::Delete(k) => k,
        }
    }

    fn value_len(&self) -> (n: usize)
        ensures
            n == self.payload_view().len(),
    {
        match self {
            BlockEntry::Put(_, v) => bytes_as_slice(v).len(),
            BlockEntry::Delete(_) => 0,
        }
    }

    fn kind_byte(&self) -> (b: u8)
        ensures
            b == self.kind_view(),
    {
        match self {
            BlockEntry::Put(_, _) => KIND_PUT,
            BlockEntry::Delete(_) => KIND_DELETE,
        }
    }

    fn value(&self) -> (s: &[u8])
        ensures
            s@ == self.payload_view(),
    {
        match self {
            BlockEntry::Put(_, v) => bytes_as_slice(v),
            BlockEntry::Delete(_) => {
                let e: &[u8] = &[];
                assert(e@ =~= Seq::<u8>::empty());
                e
            },
        }
    }
}

spec fn keys_of(es: Seq<BlockEntry>) -> Seq<Seq<u8>> {
    Seq::new(es.len(), |i: int| es[i].key_view())
}

spec fn vals_of(es: Seq<BlockEntry>) -> Seq<Seq<u8>> {
    Seq::new(es.len(), |i: int| es[i].stored_view())
}

proof fn lemma_entries_push(es: Seq<BlockEntry>, e: BlockEntry)
    ensures
        keys_of(es.push(e)) == keys_of(es).push(e.key_view()),
        vals_of(es.push(e)) == vals_of(es).push(e.stored_view()),
        total_len(keys_of(es.push(e)), es.len() + 1int) == total_len(keys_of(es), es.len() as int)
            + e.key_view().len(),
        total_len(vals_of(es.push(e)), es.len() + 1int) == total_len(vals_of(es), es.len() as int)
            + e.stored_view().len(),
{
    assert(keys_of(es.push(e)) =~= keys_of(es).push(e.key_view()));
    assert(vals_of(es.push(e)) =~= vals_of(es).push(e.stored_view()));
    lemma_total_len_push(keys_of(es), e.key_view(), es.len() as int);
    lemma_total_len_push(vals_of(es), e.stored_view(), es.len() as int);
}

/// Builds a data block from sorted entries.
pub struct DataBlockBuilder {
    option: SstOption,
    entries: Vec<BlockEntry>,
    estimated_size: usize,
}

/// Bytes an entry adds to a block: key, payload, two offsets, entry header.
pub open spec fn data_entry_size(key_len: nat, payload_len: nat) -> nat {
    key_len + payload_len + 8 + 2
}

impl DataBlockBuilder {
    /// Keys of the entries added so far, in order.
    pub closed spec fn keys(&self) -> Seq<Seq<u8>> {
        keys_of(self.entries@)
    }

    /// Stored value bytes (`[version][kind][payload]`) of the entries so far.
    pub closed spec fn vals(&self) -> Seq<Seq<u8>> {
        vals_of(self.entries@)
    }

    /// Kinds and payloads of the entries so far.
    pub closed spec fn kinds(&self) -> Seq<u8> {
        Seq::new(self.entries@.len(), |i: int| self.entries@[i].kind_view())
    }

    pub closed spec fn spec_block_size(&self) -> nat {
        self.option.block_size as nat
    }

    pub closed spec fn spec_estimated_size(&self) -> nat {
        self.estimated_size as nat
    }

    /// The running size estimate is the size of the entries so far.
    pub closed spec fn wf(&self) -> bool {
        self.estimated_size == total_len(self.keys(), self.keys().len() as int) + total_len(
            self.vals(),
            self.vals().len() as int,
        ) + 8 * self.entries@.len()
    }

    pub fn new(option: &SstOption) -> (b: Self)
        ensures
            b.wf(),
            b.keys() == Seq::<Seq<u8>>::empty(),
            b.vals() == Seq::<Seq<u8>>::empty(),
            b.spec_estimated_size() == 0,
            b.spec_block_size() == option.block_size,
    {
        let b = Self { option: SstOption { block_size: option.block_size }, entries: Vec::new(), estimated_size: 0 };
        assert(b.keys() =~= Seq::<Seq<u8>>::empty());
        assert(b.vals() =~= Seq::<Seq<u8>>::empty());
        b
    }

    fn push_entry(&mut self, e: BlockEntry, entry_size: usize)
        requires
            old(self).wf(),
            entry_size == e.key_view().len() + e.payload_view().len() + 10,
            old(self).estimated_size + entry_size <= usize::MAX,
        ensures
            final(self).wf(),
            final(self).keys() == old(self).keys().push(e.key_view()),
            final(self).vals() == old(self).vals().push(e.stored_view()),
            final(self).kinds() == old(self).kinds().push(e.kind_view()),
            final(self).spec_estimated_size() == old(self).spec_estimated_size() + entry_size,
            final(self).spec_block_size() == old(self).spec_block_size(),
    {
        proof {
            lemma_entries_push(self.entries@, e);
        }
        let ghost e2 = e;
        self.estimated_size = self.estimated_size + entry_size;
        self.entries.push(e);
        proof {
            assert(self.entries@ == old(self).entries@.push(e2));
            assert(self.kinds() =~= old(self).kinds().push(e2.kind_view()));
            assert(e2.stored_view().len() == 2 + e2.payload_view().len());
        }
    }

    /// Adds a live entry. The entry alone must fit in a block (an oversized
    /// entry is a caller error).
    pub fn add(&mut self, key: Bytes, value: Bytes)
        requires
            old(self).wf(),
            BLOCK_FIXED_HEADER_SIZE + data_entry_size(bytes_view(key).len(), bytes_view(value).len())
                < old(self).spec_block_size(),
            old(self).spec_estimated_size() + data_entry_size(
                bytes_view(key).len(),
                bytes_view(value).len(),
            ) <= usize::MAX,
        ensures
            final(self).wf(),
            final(self).keys() == old(self).keys().push(bytes_view(key)),
            final(self).vals() == old(self).vals().push(stored_entry(KIND_PUT, bytes_view(value))),
            final(self).kinds() == old(self).kinds().push(KIND_PUT),
            final(self).spec_estimated_size() == old(self).spec_estimated_size() + data_entry_size(
                bytes_view(key).len(),
                bytes_view(value).len(),
            ),
            final(self).spec_block_size() == old(self).spec_block_size(),
    {
        let entry_size = bytes_as_slice(&key).len() + bytes_as_slice(&value).len()
            + PER_ENTRY_OFFSET_TABLE_BYTES + DATA_ENTRY_HEADER_LEN;
        self.push_entry(BlockEntry::Put(key, value), entry_size);
    }

    /// Adds a delete tombstone: only the key is stored.
    pub fn add_delete(&mut self, key: Bytes)
        requires
            old(self).wf(),
            BLOCK_FIXED_HEADER_SIZE + data_entry_size(bytes_view(key).len(), 0)
                < old(self).spec_block_size(),
            old(self).spec_estimated_size() + data_entry_size(bytes_view(key).len(), 0)
                <= usize::MAX,
        ensures
            final(self).wf(),
            final(self).keys() == old(self).keys().push(bytes_view(key)),
            final(self).vals() == old(self).vals().push(
                stored_entry(KIND_DELETE, Seq::<u8>::empty()),
            ),
            final(self).kinds() == old(self).kinds().push(KIND_DELETE),
            final(self).spec_estimated_size() == old(self).spec_estimated_size() + data_entry_size(
                bytes_view(key).len(),
                0,
            ),
            final(self).spec_block_size() == old(self).spec_block_size(),
    {
        let entry_size = bytes_as_slice(&key).len() + PER_ENTRY_OFFSET_TABLE_BYTES
            + DATA_ENTRY_HEADER_LEN;
        self.push_entry(BlockEntry::Delete(key), entry_size);
    }

    /// The estimate is the size of the entries so far; keys and values
    /// pair up.
    pub proof fn lemma_size(&self)
        requires
            self.wf(),
        ensures
            self.spec_estimated_size() == crate::builder::image::data_size(self.keys(), self.vals()),
            self.vals().len() == self.keys().len(),
    {
    }

    /// An empty builder estimates nothing.
    pub proof fn lemma_empty(&self)
        requires
            self.wf(),
            self.keys().len() == 0,
        ensures
            self.spec_estimated_size() == 0,
    {
    }

    pub fn estimated_size(&self) -> (n: usize)
        ensures
            n == self.spec_estimated_size(),
    {
        self.estimated_size
    }

    /// Whether adding `key -> value` would make the block exceed its size.
    pub fn would_exceed(&self, key: &Bytes, value: &Bytes) -> (b: bool)
        requires
            BLOCK_FIXED_HEADER_SIZE + self.spec_estimated_size() + data_entry_size(
                bytes_view(*key).len(),
                bytes_view(*value).len(),
            ) <= usize::MAX,
        ensures
            b == (BLOCK_FIXED_HEADER_SIZE + self.spec_estimated_size() + data_entry_size(
                bytes_view(*key).len(),
                bytes_view(*value).len(),
            ) > self.spec_block_size()),
    {
        let next_entry_size = bytes_as_slice(key).len() + bytes_as_slice(value).len()
            + PER_ENTRY_OFFSET_TABLE_BYTES + DATA_ENTRY_HEADER_LEN;
        BLOCK_FIXED_HEADER_SIZE + self.estimated_size + next_entry_size > self.option.block_size
    }

    pub fn is_empty(&self) -> (b: bool)
        ensures
            b == (self.keys().len() == 0),
    {
        self.entries.len() == 0
    }

    pub fn entry_count(&self) -> (n: usize)
        ensures
            n == self.keys().len(),
    {
        self.entries.len()
    }

    pub fn last_key(&self) -> (k: Option<&Bytes>)
        ensures
            self.keys().len() == 0 ==> k is None,
            self.keys().len() > 0 ==> k is Some && bytes_view(*k->0) == self.keys().last(),
    {
        let n = self.entries.len();
        if n == 0 {
            None
        } else {
            Some(self.entries[n - 1].key())
        }
    }

    /// Encodes the entries into one block of exactly `block_size` bytes (cut
    /// if they do not fit) and empties the builder.
    pub fn finish(&mut self) -> (r: Bytes)
        requires
            old(self).wf(),
            BLOCK_FIXED_HEADER_SIZE + old(self).spec_estimated_size() <= usize::MAX,
        ensures
            bytes_view(r) == fit_to(
                encode_block(old(self).keys(), old(self).vals()),
                old(self).spec_block_size(),
            ),
            final(self).wf(),
            final(self).keys() == Seq::<Seq<u8>>::empty(),
            final(self).spec_estimated_size() == 0,
            final(self).spec_block_size() == old(self).spec_block_size(),
    {
        let ghost keys = self.keys();
        let ghost vals = self.vals();
        let n = self.entries.len();
        let ghost nn = n as int;
        let ghost h = block_header_len(n as nat);
        let ghost vbase = h + total_len(keys, nn);
        proof {
            lemma_total_len_mono(keys, 0, nn);
            lemma_total_len_mono(vals, 0, nn);
        }
        let mut out: Vec<u8> = Vec::new();
        push_u32_be(&mut out, n as u32);
        let header_size = 4 + (n + 1) * 8;
        let mut data_offset = header_size;
        let mut i: usize = 0;
        assert(out@ =~= be_u32(n as u32) + offset_table(h, keys, 0));
        while i < n
            invariant
                n == self.entries@.len(),
                nn == n,
                keys == self.keys(),
                i <= n,
                h == header_size,
                data_offset == h + total_len(keys, i as int),
                h + total_len(keys, nn) + total_len(vals, nn) <= usize::MAX,
                out@ == be_u32(n as u32) + offset_table(h, keys, i as int),
            decreases n - i,
        {
            proof {
                lemma_total_len_mono(keys, i + 1, nn);
            }
            push_u32_be(&mut out, data_offset as u32);
            let klen = bytes_as_slice(self.entries[i].key()).len();
            data_offset = data_offset + klen;
            i = i + 1;
        }
        push_u32_be(&mut out, data_offset as u32);
        let ghost part1 = out@;
        assert(part1 == be_u32(n as u32) + offset_table(h, keys, nn + 1));
        let mut i: usize = 0;
        assert(out@ =~= part1 + offset_table(vbase, vals, 0));
        while i < n
            invariant
                n == self.entries@.len(),
                nn == n,
                vals == self.vals(),
                i <= n,
                data_offset == vbase + total_len(vals, i as int),
                vbase + total_len(vals, nn) <= usize::MAX,
                out@ == part1 + offset_table(vbase, vals, i as int),
            decreases n - i,
        {
            proof {
                lemma_total_len_mono(vals, i + 1, nn);
            }
            push_u32_be(&mut out, data_offset as u32);
            let vlen = DATA_ENTRY_HEADER_LEN + self.entries[i].value_len();
            data_offset = data_offset + vlen;
            i = i + 1;
        }
        push_u32_be(&mut out, data_offset as u32);
        let ghost part2 = out@;
        assert(part2 == part1 + offset_table(vbase, vals, nn + 1));
        let mut i: usize = 0;
        assert(keys.subrange(0, 0) =~= Seq::<Seq<u8>>::empty());
        assert(out@ =~= part2 + concat(keys.subrange(0, 0)));
        while i < n
            invariant
                n == self.entries@.len(),
                keys == self.keys(),
                i <= n,
                out@ == part2 + concat(keys.subrange(0, i as int)),
            decreases n - i,
        {
            append_bytes(&mut out, bytes_as_slice(self.entries[i].key()));
            proof {
                let s = keys.subrange(0, i + 1);
                assert(s.drop_last() =~= keys.subrange(0, i as int));
            }
            i = i + 1;
        }
        assert(keys.subrange(0, nn) =~= keys);
        let ghost part3 = out@;
        let mut i: usize = 0;
        assert(vals.subrange(0, 0) =~= Seq::<Seq<u8>>::empty());
        assert(out@ =~= part3 + concat(vals.subrange(0, 0)));
        while i < n
            invariant
                n == self.entries@.len(),
                vals == self.vals(),
                i <= n,
                out@ == part3 + concat(vals.subrange(0, i as int)),
            decreases n - i,
        {
            let ghost before = out@;
            out.push(DATA_ENTRY_VERSION);
            out.push(self.entries[i].kind_byte());
            append_bytes(&mut out, self.entries[i].value());
            proof {
                let s = vals.subrange(0, i + 1);
                assert(s.drop_last() =~= vals.subrange(0, i as int));
                assert(out@ =~= before + vals[i as int]);
            }
            i = i + 1;
        }
        assert(vals.subrange(0, nn) =~= vals);
        assert(out@ =~= encode_block(keys, vals));
        fit_vec(&mut out, self.option.block_size);
        self.reset();
        bytes_from_vec(out)
    }

    /// Drops all entries.
    pub fn reset(&mut self)
        ensures
            final(self).wf(),
            final(self).keys() == Seq::<Seq<u8>>::empty(),
            final(self).vals() == Seq::<Seq<u8>>::empty(),
            final(self).spec_estimated_size() == 0,
            final(self).spec_block_size() == old(self).spec_block_size(),
    {
        self.entries.clear();
        self.estimated_size = 0;
        assert(self.keys() =~= Seq::<Seq<u8>>::empty());
        assert(self.vals() =~= Seq::<Seq<u8>>::empty());
    }
}

} // verus!
