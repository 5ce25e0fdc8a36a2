//! MVCC internal keys: a user key followed by a fixed trailer
//! `| start_ts: u64 | commit_ts: u64 | seq: u32 | op: u8 |` (big-endian).

use vstd::prelude::*;
use core::cmp::Ordering;
use bytes::Bytes;
use crate::buf::{bytes_as_slice, bytes_from_vec, bytes_slice, bytes_view};
use crate::codec::{
    be_u32, be_u64, be_value, lemma_be_u32_roundtrip, lemma_be_u64_roundtrip, push_u32_be,
    push_u64_be, read_u32_be, read_u64_be,
};
use crate::row_key::{bytes_eq, bytes_lt, lemma_lex_asym, lemma_lex_total, lex_lt};

verus! {

/// Length of the trailer: start_ts(8) + commit_ts(8) + seq(4) + op(1).
pub const INTERNAL_KEY_TRAILER_LEN: usize = 21;

/// MVCC operation type.
#[derive(Debug, Clone, Copy, PartialEq, Eq, Structural)]
pub enum OpType {
    Put,
    Delete,
}

/// The trailer byte of an operation: `Put` is 0, `Delete` is 1.
pub open spec fn op_byte(op: OpType) -> u8 {
    match op {
        OpType::Put => 0,
        OpType::Delete => 1,
    }
}

/// Transaction metadata carried in the trailer.
#[derive(Debug, Clone, Copy, PartialEq, Eq, Structural)]
pub struct TxInfo {
    pub(crate) start_ts: u64,
    pub(crate) commit_ts: u64,
    pub(crate) seq: u32,
    pub(crate) op: OpType,
}

impl TxInfo {
    pub closed spec fn spec_start_ts(self) -> u64 {
        self.start_ts
    }

    pub closed spec fn spec_commit_ts(self) -> u64 {
        self.commit_ts
    }

    pub closed spec fn spec_seq(self) -> u32 {
        self.seq
    }

    pub closed spec fn spec_op(self) -> OpType {
        self.op
    }
}

/// The metadata that the trailer of `d` (its last 21 bytes) spells; a
/// trailer op byte other than 0 reads as `Delete`.
pub closed spec fn trailer_info(d: Seq<u8>) -> TxInfo {
    let t = d.len() - 21;
    TxInfo {
        start_ts: be_value(d.subrange(t, t + 8)) as u64,
        commit_ts: be_value(d.subrange(t + 8, t + 16)) as u64,
        seq: be_value(d.subrange(t + 16, t + 20)) as u32,
        op: if d[t + 20] == 0 {
            OpType::Put
        } else {
            OpType::Delete
        },
    }
}

/// The encoding of `user_key` with zero timestamps, `seq` cut to 32 bits,
/// and `op`.
pub open spec fn encode_internal_key(user_key: Seq<u8>, seq: u64, op: OpType) -> Seq<u8> {
    user_key + be_u64(0) + be_u64(0) + be_u32(seq as u32) + seq![op_byte(op)]
}

/// A user key with its MVCC trailer; the trailer is parsed once.
#[derive(Debug)]
pub struct InternalKey {
    data: Bytes,
    tx_info: TxInfo,
}

impl InternalKey {
    #[verifier::type_invariant]
    spec fn parsed(&self) -> bool {
        &&& bytes_view(self.data).len() >= 21
        &&& self.tx_info == trailer_info(bytes_view(self.data))
    }

    /// The full encoded bytes.
    pub closed spec fn spec_data(&self) -> Seq<u8> {
        bytes_view(self.data)
    }

    /// The user key: everything before the trailer.
    pub closed spec fn user_key(&self) -> Seq<u8> {
        bytes_view(self.data).subrange(0, bytes_view(self.data).len() - 21)
    }

    pub closed spec fn info(&self) -> TxInfo {
        trailer_info(bytes_view(self.data))
    }

    /// Wraps encoded bytes (they must hold a whole trailer) and parses the
    /// trailer.
    pub fn new(data: Bytes) -> (k: Self)
        requires
            bytes_view(data).len() >= 21,
        ensures
            k.spec_data() == bytes_view(data),
            k.info() == trailer_info(bytes_view(data)),
    {
        let tx_info = Self::parse_tx_info(&data);
        InternalKey { data, tx_info }
    }

    fn parse_tx_info(data: &Bytes) -> (t: TxInfo)
        requires
            bytes_view(*data).len() >= 21,
        ensures
            t == trailer_info(bytes_view(*data)),
    {
        let d = bytes_as_slice(data);
        let trailer_start = d.len() - INTERNAL_KEY_TRAILER_LEN;
        let start_ts = read_u64_be(d, trailer_start);
        let commit_ts = read_u64_be(d, trailer_start + 8);
        let seq = read_u32_be(d, trailer_start + 16);
        let op = if d[trailer_start + 20] == 0 {
            OpType::Put
        } else {
            OpType::Delete
        };
        TxInfo { start_ts, commit_ts, seq, op }
    }

    /// Builds the key of `user_key` written at sequence `seq` by `op`; the
    /// timestamps are zero and `seq` is cut to its low 32 bits.
    pub fn from_user_key(user_key: Bytes, seq: u64, op: OpType) -> (k: Self)
        requires
            bytes_view(user_key).len() + 21 <= usize::MAX,
        ensures
            k.spec_data() == encode_internal_key(bytes_view(user_key), seq, op),
            k.user_key() == bytes_view(user_key),
            k.info().spec_start_ts() == 0,
            k.info().spec_commit_ts() == 0,
            k.info().spec_seq() == seq as u32,
            k.info().spec_op() == op,
    {
        let mut data: Vec<u8> = Vec::new();
        crate::codec::append_bytes(&mut data, bytes_as_slice(&user_key));
        push_u64_be(&mut data, 0);
        push_u64_be(&mut data, 0);
        push_u32_be(&mut data, seq as u32);
        let op_b: u8 = match op {
            OpType::Put => 0,
            OpType::Delete => 1,
        };
        data.push(op_b);
        let ghost d = data@;
        let ghost uk = bytes_view(user_key);
        proof {
            let n = uk.len() as int;
            lemma_be_u64_roundtrip(0);
            lemma_be_u32_roundtrip(seq as u32);
            assert(d =~= encode_internal_key(uk, seq, op));
            assert(d.subrange(n, n + 8) =~= be_u64(0));
            assert(d.subrange(n + 8, n + 16) =~= be_u64(0));
            assert(d.subrange(n + 16, n + 20) =~= be_u32(seq as u32));
            assert(d.subrange(0, n) =~= uk);
        }
        let data = bytes_from_vec(data);
        let tx_info = Self::parse_tx_info(&data);
        InternalKey { data, tx_info }
    }

    /// The user key portion (everything before the trailer).
    pub fn raw_key(&self) -> (k: Bytes)
        ensures
            bytes_view(k) == self.user_key(),
    {
        proof {
            use_type_invariant(self);
        }
        let len = bytes_as_slice(&self.data).len();
        bytes_slice(&self.data, 0, len - INTERNAL_KEY_TRAILER_LEN)
    }

    /// The per-write sequence number.
    pub fn sequence(&self) -> (s: u64)
        ensures
            s == self.info().spec_seq(),
    {
        proof {
            use_type_invariant(self);
        }
        self.tx_info.seq as u64
    }

    /// The operation type.
    pub fn op_type(&self) -> (o: OpType)
        ensures
            o == self.info().spec_op(),
    {
        proof {
            use_type_invariant(self);
        }
        self.tx_info.op
    }

    /// The full encoded bytes, trailer included.
    pub fn as_bytes(&self) -> (b: &Bytes)
        ensures
            bytes_view(*b) == self.spec_data(),
    {
        &self.data
    }

    fn user_key_slice(&self) -> (s: &[u8])
        ensures
            s@ == self.user_key(),
    {
        proof {
            use_type_invariant(self);
        }
        let d = bytes_as_slice(&self.data);
        vstd::slice::slice_subrange(d, 0, d.len() - INTERNAL_KEY_TRAILER_LEN)
    }
}

/// The order of internal keys: user key ascending, then sequence
/// descending (the newer write first). The op and timestamps play no part.
pub open spec fn key_before(a: InternalKey, b: InternalKey) -> bool {
    lex_lt(a.user_key(), b.user_key()) || (a.user_key() == b.user_key() && a.info().spec_seq()
        > b.info().spec_seq())
}

impl InternalKey {
    /// Whether `self` sorts strictly before `other`.
    pub fn precedes(&self, other: &InternalKey) -> (r: bool)
        ensures
            r == key_before(*self, *other),
    {
        let a = self.user_key_slice();
        let b = other.user_key_slice();
        if bytes_lt(a, b) {
            return true;
        }
        if !bytes_eq(a, b) {
            return false;
        }
        self.sequence() > other.sequence()
    }

    /// Whether `self` and `other` sort as equal: same user key and sequence.
    pub fn ties(&self, other: &InternalKey) -> (r: bool)
        ensures
            r == (self.user_key() == other.user_key() && self.info().spec_seq()
                == other.info().spec_seq()),
    {
        bytes_eq(self.user_key_slice(), other.user_key_slice()) && self.sequence()
            == other.sequence()
    }
}

impl Clone for InternalKey {
    fn clone(&self) -> (c: Self)
        ensures
            c.spec_data() == self.spec_data(),
    {
        proof {
            use_type_invariant(self);
        }
        InternalKey { data: self.data.clone(), tx_info: self.tx_info }
    }
}

impl PartialEq for InternalKey {
    /// Equal encoded bytes.
    fn eq(&self, other: &Self) -> (r: bool) {
        bytes_eq(bytes_as_slice(&self.data), bytes_as_slice(&other.data))
    }
}

impl vstd::std_specs::cmp::PartialEqSpecImpl for InternalKey {
    open spec fn obeys_eq_spec() -> bool {
        true
    }

    open spec fn eq_spec(&self, other: &InternalKey) -> bool {
        self.spec_data() == other.spec_data()
    }
}

impl Eq for InternalKey {
}

/// The ordering `partial_cmp` reports for `a` against `b`.
pub open spec fn internal_order(a: InternalKey, b: InternalKey) -> Ordering {
    if key_before(a, b) {
        Ordering::Less
    } else if key_before(b, a) {
        Ordering::Greater
    } else {
        Ordering::Equal
    }
}

impl PartialOrd for InternalKey {
    fn partial_cmp(&self, other: &Self) -> (r: Option<Ordering>) {
        if self.precedes(other) {
            Some(Ordering::Less)
        } else if other.precedes(self) {
            Some(Ordering::Greater)
        } else {
            Some(Ordering::Equal)
        }
    }
}

impl vstd::std_specs::cmp::PartialOrdSpecImpl for InternalKey {
    open spec fn obeys_partial_cmp_spec() -> bool {
        true
    }

    open spec fn partial_cmp_spec(&self, other: &InternalKey) -> Option<Ordering> {
        Some(internal_order(*self, *other))
    }
}

/// The key order is a strict order: never both ways.
pub proof fn lemma_key_before_asym(a: InternalKey, b: InternalKey)
    ensures
        !(key_before(a, b) && key_before(b, a)),
{
    lemma_lex_asym(a.user_key(), b.user_key());
    crate::row_key::lemma_lex_irrefl(a.user_key());
}

/// Two keys tie exactly when they have the same user key and sequence.
pub proof fn lemma_key_before_total(a: InternalKey, b: InternalKey)
    ensures
        key_before(a, b) || key_before(b, a) || (a.user_key() == b.user_key()
            && a.info().spec_seq() == b.info().spec_seq()),
{
    lemma_lex_total(a.user_key(), b.user_key());
}

} // verus!
