//! The SST footer: where the index root is, how tall the index is, and the
//! key range of the file.

use vstd::prelude::*;
use bytes::Bytes;
use crate::block::Position;
use crate::buf::{bytes_as_slice, bytes_copy_from_slice, bytes_view};
use crate::codec::{
    append_bytes, be_u32, lemma_be_u32_roundtrip, lemma_be_u64_roundtrip, be_u64, be_value, push_u32_be, push_u64_be, read_u32_be, read_u64_be,
};
use crate::errors::{StorageError, StorageResult};
use crate::format::field_u32;

verus! {

/// Trailing metadata of an SST file. The body is followed by a
/// `body_len: u32` trailer so a reader can find it from the file's end.
#[derive(Debug, Clone, PartialEq, Eq)]
pub struct SstFooter {
    pub root_index_block_position: Position,
    pub tree_height: u32,
    /// Smallest key in the SST (empty for an empty SST).
    pub first_key: Bytes,
    /// Largest key in the SST (empty for an empty SST).
    pub last_key: Bytes,
}

/// Footer body: root offset, height, both key lengths, both keys.
pub open spec fn footer_body(root: u64, height: u32, fk: Seq<u8>, lk: Seq<u8>) -> Seq<u8> {
    be_u64(root) + be_u32(height) + be_u32(fk.len() as u32) + be_u32(lk.len() as u32) + fk + lk
}

/// The encoded footer: body followed by its length.
pub open spec fn encode_footer(root: u64, height: u32, fk: Seq<u8>, lk: Seq<u8>) -> Seq<u8> {
    let body = footer_body(root, height, fk, lk);
    body + be_u32(body.len() as u32)
}

/// Body length announced by the trailer of `b`.
pub open spec fn footer_body_len(b: Seq<u8>) -> nat {
    field_u32(b, b.len() - 4)
}

/// Length of the first key recorded in the footer.
pub open spec fn footer_first_len(b: Seq<u8>) -> nat {
    field_u32(b, 12)
}

/// Length of the last key recorded in the footer.
pub open spec fn footer_last_len(b: Seq<u8>) -> nat {
    field_u32(b, 16)
}

/// `b` holds a decodable footer.
pub open spec fn footer_decodes(b: Seq<u8>) -> bool {
    &&& 4 <= b.len()
    &&& footer_body_len(b) + 4 <= b.len()
    &&& 20 <= footer_body_len(b)
    &&& 20 + footer_first_len(b) + footer_last_len(b) == footer_body_len(b)
}

/// An encoded footer is 24 bytes plus its two keys.
pub proof fn lemma_footer_len(root: u64, height: u32, fk: Seq<u8>, lk: Seq<u8>)
    ensures
        encode_footer(root, height, fk, lk).len() == 24 + fk.len() + lk.len(),
{
    lemma_be_u64_roundtrip(root);
    lemma_be_u32_roundtrip(height);
    lemma_be_u32_roundtrip(fk.len() as u32);
    lemma_be_u32_roundtrip(lk.len() as u32);
    let body = footer_body(root, height, fk, lk);
    lemma_be_u32_roundtrip(body.len() as u32);
}

/// Law: a decoded encoding gives back every footer field, whenever the
/// key lengths fit the 32-bit length fields.
pub proof fn lemma_footer_roundtrip(root: u64, height: u32, fk: Seq<u8>, lk: Seq<u8>)
    requires
        20 + fk.len() + lk.len() <= u32::MAX,
    ensures
        ({
            let e = encode_footer(root, height, fk, lk);
            &&& footer_decodes(e)
            &&& footer_first_len(e) == fk.len()
            &&& footer_last_len(e) == lk.len()
            &&& be_value(e.subrange(0, 8)) == root
            &&& field_u32(e, 8) == height
            &&& e.subrange(20, 20 + fk.len() as int) == fk
            &&& e.subrange(20 + fk.len() as int, 20 + fk.len() + lk.len() as int) == lk
        }),
{
    let body = footer_body(root, height, fk, lk);
    let e = encode_footer(root, height, fk, lk);
    crate::codec::lemma_be_u64_roundtrip(root);
    crate::codec::lemma_be_u32_roundtrip(height);
    crate::codec::lemma_be_u32_roundtrip(fk.len() as u32);
    crate::codec::lemma_be_u32_roundtrip(lk.len() as u32);
    assert(body.len() == 20 + fk.len() + lk.len());
    crate::codec::lemma_be_u32_roundtrip(body.len() as u32);
    assert(e.subrange(0, 8) =~= be_u64(root));
    assert(e.subrange(8, 12) =~= be_u32(height));
    assert(e.subrange(12, 16) =~= be_u32(fk.len() as u32));
    assert(e.subrange(16, 20) =~= be_u32(lk.len() as u32));
    assert(e.subrange(e.len() - 4, e.len() - 4 + 4) =~= be_u32(body.len() as u32));
    assert(e.subrange(20, 20 + fk.len() as int) =~= fk);
    assert(e.subrange(20 + fk.len() as int, 20 + fk.len() + lk.len() as int) =~= lk);
}

impl SstFooter {
    /// Minimum footer size: a body with empty keys (20 bytes) plus trailer.
    pub const MIN_LEN: usize = 24;

    pub open spec fn encoded(&self) -> Seq<u8> {
        encode_footer(
            self.root_index_block_position.offset,
            self.tree_height,
            bytes_view(self.first_key),
            bytes_view(self.last_key),
        )
    }

    /// Encodes the footer as `body ++ [body_len: u32]`.
    pub fn encode(&self) -> (out: Vec<u8>)
        ensures
            out@ == self.encoded(),
    {
        let fk = bytes_as_slice(&self.first_key);
        let lk = bytes_as_slice(&self.last_key);
        let mut body: Vec<u8> = Vec::new();
        push_u64_be(&mut body, self.root_index_block_position.offset);
        push_u32_be(&mut body, self.tree_height);
        push_u32_be(&mut body, fk.len() as u32);
        push_u32_be(&mut body, lk.len() as u32);
        append_bytes(&mut body, fk);
        append_bytes(&mut body, lk);
        let ghost b = body@;
        let body_len = body.len() as u32;
        push_u32_be(&mut body, body_len);
        body
    }

    /// Decodes a footer from `body ++ [body_len: u32]`. Every malformed
    /// input gives `InvalidValue`.
    pub fn decode(buf: &[u8]) -> (r: StorageResult<SstFooter>)
        ensures
            r is Ok <==> footer_decodes(buf@),
            r is Err ==> r->Err_0 is InvalidValue,
            r is Ok ==> {
                let f = r->Ok_0;
                let fl = footer_first_len(buf@) as int;
                let ll = footer_last_len(buf@) as int;
                &&& f.root_index_block_position.offset == be_value(buf@.subrange(0, 8))
                &&& f.tree_height == field_u32(buf@, 8)
                &&& bytes_view(f.first_key) == buf@.subrange(20, 20 + fl)
                &&& bytes_view(f.last_key) == buf@.subrange(20 + fl, 20 + fl + ll)
            },
    {
        let len = buf.len();
        if len < 4 {
            return Err(StorageError::InvalidValue("footer too short for trailer".to_owned()));
        }
        let body_len = read_u32_be(buf, len - 4) as usize;
        if len - 4 < body_len {
            return Err(StorageError::InvalidValue("footer truncated".to_owned()));
        }
        if body_len < 20 {
            return Err(StorageError::InvalidValue("footer body too short".to_owned()));
        }
        let root_offset = read_u64_be(buf, 0);
        let tree_height = read_u32_be(buf, 8);
        let first_key_len = read_u32_be(buf, 12) as usize;
        let last_key_len = read_u32_be(buf, 16) as usize;
        if first_key_len > body_len - 20 || last_key_len != body_len - 20 - first_key_len {
            return Err(StorageError::InvalidValue("footer key length mismatch".to_owned()));
        }
        let first_key = bytes_copy_from_slice(
            vstd::slice::slice_subrange(buf, 20, 20 + first_key_len),
        );
        let last_key = bytes_copy_from_slice(
            vstd::slice::slice_subrange(buf, 20 + first_key_len, body_len),
        );
        Ok(SstFooter {
            root_index_block_position: Position { offset: root_offset },
            tree_height,
            first_key,
            last_key,
        })
    }
}

} // verus!
