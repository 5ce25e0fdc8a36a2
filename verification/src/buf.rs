//! Shared byte buffers (`bytes::Bytes`) as seen by the verified code.
//!
//! A `Bytes` value is an immutable, reference-counted byte string. Its
//! contents are named by [`bytes_view`]; every operation the library uses
//! goes through one of the small trusted wrappers below.

use vstd::prelude::*;
use bytes::Bytes;

verus! {

#[verifier::external_type_specification]
#[verifier::external_body]
pub struct ExBytes(bytes::Bytes);

/// The byte string held by a `Bytes` value.
pub uninterp spec fn bytes_view(b: Bytes) -> Seq<u8>;

/// `Bytes::from(Vec<u8>)`: the new buffer holds exactly the vector's bytes.
#[verifier::external_body]
pub(crate) fn bytes_from_vec(v: Vec<u8>) -> (b: Bytes)
    ensures
        bytes_view(b) == v@,
{
    Bytes::from(v)
}

/// `Bytes::copy_from_slice`: the new buffer holds a copy of the slice.
#[verifier::external_body]
pub(crate) fn bytes_copy_from_slice(s: &[u8]) -> (b: Bytes)
    ensures
        bytes_view(b) == s@,
{
    Bytes::copy_from_slice(s)
}

/// `<Bytes as Deref>::deref`: the slice holds the buffer's bytes.
#[verifier::external_body]
pub(crate) fn bytes_as_slice(b: &Bytes) -> (s: &[u8])
    ensures
        s@ == bytes_view(*b),
{
    b.as_ref()
}

/// `<Bytes as Clone>::clone`: a second handle on the same bytes.
pub assume_specification[ <bytes::Bytes as core::clone::Clone>::clone ](b: &Bytes) -> (c: Bytes)
    ensures
        bytes_view(c) == bytes_view(*b),
;

/// `Bytes::slice(start..end)`: the bytes in `[start, end)`. The crate panics
/// unless `start <= end <= len`, which the precondition rules out.
#[verifier::external_body]
pub(crate) fn bytes_slice(b: &Bytes, start: usize, end: usize) -> (s: Bytes)
    requires
        start <= end <= bytes_view(*b).len(),
    ensures
        bytes_view(s) == bytes_view(*b).subrange(start as int, end as int),
{
    b.slice(start..end)
}

} // verus!
