//! Column values of a row and their byte encodings.

use vstd::prelude::*;
use vstd::string::StringSliceAdditionalSpecFns;
use vstd::utf8::{decode_utf8, encode_utf8, encode_utf8_decode_utf8, encode_utf8_valid_utf8, valid_utf8};
use crate::codec::{be_u64, be_value, lemma_be_u64_roundtrip, push_u64_be, read_u64_be, append_bytes};
use crate::errors::StorageResult;

verus! {

/// One column value. A `Float64` holds the value's IEEE-754 bit pattern
/// (what `f64::to_bits` gives).
pub enum RowValue {
    Null,
    Bool(bool),
    Int64(i64),
    Float64(u64),
    String(String),
    Bytes(Vec<u8>),
}

/// A row: its column values, in column order.
pub struct RowData {
    pub values: Vec<RowValue>,
}

/// What `String::from_utf8_lossy` makes of `bytes`: the characters they
/// encode, each ill-formed sequence replaced by U+FFFD.
pub uninterp spec fn utf8_lossy(bytes: Seq<u8>) -> Seq<char>;

/// `String::from_utf8_lossy(..).into_owned()`: the characters of `data`,
/// with ill-formed sequences replaced; valid UTF-8 decodes unchanged, as
/// the standard library documents.
#[verifier::external_body]
fn string_from_utf8_lossy(data: &[u8]) -> (s: String)
    ensures
        s@ == utf8_lossy(data@),
        valid_utf8(data@) ==> s@ == decode_utf8(data@),
{
    String::from_utf8_lossy(data).into_owned()
}

/// The bytes a value encodes to: nothing for null, one byte for a bool,
/// eight big-endian bytes for an integer or a float's bits, the UTF-8
/// bytes of a string, the bytes themselves.
pub open spec fn encoding(v: RowValue) -> Seq<u8> {
    match v {
        RowValue::Null => Seq::empty(),
        RowValue::Bool(b) => seq![if b { 1u8 } else { 0u8 }],
        RowValue::Int64(i) => be_u64(i as u64),
        RowValue::Float64(bits) => be_u64(bits),
        RowValue::String(s) => encode_utf8(s@),
        RowValue::Bytes(b) => b@,
    }
}

/// The bytes a value of `tp`'s kind needs to decode from.
pub open spec fn min_len(tp: RowValue) -> nat {
    match tp {
        RowValue::Bool(_) => 1,
        RowValue::Int64(_) | RowValue::Float64(_) => 8,
        _ => 0,
    }
}

/// `r` is the value of `tp`'s kind that `data` decodes to.
pub open spec fn decodes_to(data: Seq<u8>, tp: RowValue, r: RowValue) -> bool {
    match tp {
        RowValue::Null => r is Null,
        RowValue::Bool(_) => r == RowValue::Bool(data[0] == 1),
        RowValue::Int64(_) => r == RowValue::Int64((be_value(data.take(8)) as u64) as i64),
        RowValue::Float64(_) => r == RowValue::Float64(be_value(data.take(8)) as u64),
        RowValue::String(_) => r matches RowValue::String(s) && s@ == utf8_lossy(data)
            && (valid_utf8(data) ==> s@ == decode_utf8(data)),
        RowValue::Bytes(_) => r matches RowValue::Bytes(b) && b@ == data,
    }
}

impl RowValue {
    pub fn encode(&self) -> (r: Vec<u8>)
        ensures
            r@ == encoding(*self),
    {
        match self {
            RowValue::Null => Vec::new(),
            RowValue::Bool(b) => {
                let mut out: Vec<u8> = Vec::new();
                out.push(if *b { 1u8 } else { 0u8 });
                assert(out@ =~= encoding(*self));
                out
            },
            RowValue::Int64(i) => {
                let mut out: Vec<u8> = Vec::new();
                push_u64_be(&mut out, *i as u64);
                assert(out@ =~= encoding(*self));
                out
            },
            RowValue::Float64(bits) => {
                let mut out: Vec<u8> = Vec::new();
                push_u64_be(&mut out, *bits);
                assert(out@ =~= encoding(*self));
                out
            },
            RowValue::String(s) => {
                let mut out: Vec<u8> = Vec::new();
                append_bytes(&mut out, s.as_str().as_bytes());
                assert(out@ =~= encoding(*self));
                out
            },
            RowValue::Bytes(b) => {
                let mut out: Vec<u8> = Vec::new();
                append_bytes(&mut out, b.as_slice());
                assert(out@ =~= encoding(*self));
                out
            },
        }
    }

    /// Decodes `data` as a value of the same kind as `tp` (whose own
    /// payload is ignored). A bool needs one byte, an integer or a float
    /// eight; a string's bytes are read as UTF-8, ill-formed sequences
    /// replaced.
    pub fn decode(data: &[u8], tp: RowValue) -> (r: StorageResult<RowValue>)
        requires
            data@.len() >= min_len(tp),
        ensures
            r matches Ok(v) && decodes_to(data@, tp, v),
    {
        let v = match tp {
            RowValue::Null => RowValue::Null,
            RowValue::Bool(_) => RowValue::Bool(data[0] == 1),
            RowValue::Int64(_) => {
                let x = read_u64_be(data, 0);
                assert(data@.subrange(0, 8) =~= data@.take(8));
                RowValue::Int64(x as i64)
            },
            RowValue::Float64(_) => {
                let x = read_u64_be(data, 0);
                assert(data@.subrange(0, 8) =~= data@.take(8));
                RowValue::Float64(x)
            },
            RowValue::String(_) => RowValue::String(string_from_utf8_lossy(data)),
            RowValue::Bytes(_) => {
                let mut out: Vec<u8> = Vec::new();
                append_bytes(&mut out, data);
                assert(out@ =~= data@);
                RowValue::Bytes(out)
            },
        };
        Ok(v)
    }
}

/// Decoding a value's encoding as a value of its own kind gives the value
/// back: the encoding is long enough, and each kind's decoded payload is the
/// one encoded.
pub proof fn lemma_encode_decode_roundtrip(v: RowValue)
    ensures
        encoding(v).len() >= min_len(v),
        match v {
            RowValue::Null => true,
            RowValue::Bool(b) => (encoding(v)[0] == 1) == b,
            RowValue::Int64(i) => (be_value(encoding(v).take(8)) as u64) as i64 == i,
            RowValue::Float64(bits) => be_value(encoding(v).take(8)) as u64 == bits,
            RowValue::String(s) => valid_utf8(encoding(v)) && decode_utf8(encoding(v)) == s@,
            RowValue::Bytes(b) => encoding(v) == b@,
        },
{
    match v {
        RowValue::Int64(i) => {
            let x = i as u64;
            lemma_be_u64_roundtrip(x);
            assert(be_u64(x).take(8) =~= be_u64(x));
            assert((x as i64) == i) by (bit_vector)
                requires
                    x == i as u64,
            ;
        },
        RowValue::Float64(bits) => {
            lemma_be_u64_roundtrip(bits);
            assert(be_u64(bits).take(8) =~= be_u64(bits));
        },
        RowValue::String(s) => {
            encode_utf8_valid_utf8(s@);
            encode_utf8_decode_utf8(s@);
        },
        _ => {},
    }
}

} // verus!
