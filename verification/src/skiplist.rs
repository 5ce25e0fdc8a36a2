//! The ordered map a memtable keeps its entries in: `crossbeam_skiplist`'s
//! `SkipMap`, keyed by byte strings, as seen by the verified code.
//!
//! What a map holds is named by [`table_contents`]; every operation the
//! memtable uses goes through one of the small trusted wrappers below.
//! The crate orders `Bytes` keys as their byte slices, which compare
//! lexicographically: the order `lex_lt` states. The wrappers state what
//! the crate documents for a map that no one else modifies meanwhile; the
//! library modifies its maps only through `&mut`.

use vstd::prelude::*;
use bytes::Bytes;
use crossbeam_skiplist::SkipMap;
use std::ops::Bound;
use crate::buf::bytes_view;
use crate::memtable::{entry_view, Entry};
use crate::row_key::{lex_le, lex_lt};

verus! {

#[verifier::external_type_specification]
#[verifier::external_body]
#[verifier::reject_recursive_types(K)]
#[verifier::reject_recursive_types(V)]
pub struct ExSkipMap<K, V>(crossbeam_skiplist::SkipMap<K, V>);

/// A memtable's map: keys to entries.
pub type Table = SkipMap<Bytes, Entry<Bytes>>;

/// A copy of one key and its entry.
pub type Found = (Bytes, Entry<Bytes>);

/// What a memtable's map holds: each key's bytes to its entry's value
/// (none for a tombstone).
pub uninterp spec fn table_contents(m: SkipMap<Bytes, Entry<Bytes>>) -> Map<Seq<u8>, Option<Seq<u8>>>;

/// `k` is the least key of `dom` not below `t` (above `t` when `strict`).
pub open spec fn is_first_from(dom: Set<Seq<u8>>, t: Seq<u8>, strict: bool, k: Seq<u8>) -> bool {
    &&& dom.contains(k)
    &&& from(k, t, strict)
    &&& forall|k2: Seq<u8>| dom.contains(k2) && from(k2, t, strict) ==> lex_le(k, k2)
}

/// `k` is not below `t` (above `t` when `strict`).
pub open spec fn from(k: Seq<u8>, t: Seq<u8>, strict: bool) -> bool {
    if strict {
        lex_lt(t, k)
    } else {
        !lex_lt(k, t)
    }
}

/// `k` is the greatest key of `dom` not above `t` (below `t` when `strict`).
pub open spec fn is_last_upto(dom: Set<Seq<u8>>, t: Seq<u8>, strict: bool, k: Seq<u8>) -> bool {
    &&& dom.contains(k)
    &&& upto(k, t, strict)
    &&& forall|k2: Seq<u8>| dom.contains(k2) && upto(k2, t, strict) ==> lex_le(k2, k)
}

/// `k` is not above `t` (below `t` when `strict`).
pub open spec fn upto(k: Seq<u8>, t: Seq<u8>, strict: bool) -> bool {
    if strict {
        lex_lt(k, t)
    } else {
        !lex_lt(t, k)
    }
}

/// Some key of `dom` is not below `t` (above `t` when `strict`).
pub open spec fn has_from(dom: Set<Seq<u8>>, t: Seq<u8>, strict: bool) -> bool {
    exists|k: Seq<u8>| dom.contains(k) && from(k, t, strict)
}

/// Some key of `dom` is not above `t` (below `t` when `strict`).
pub open spec fn has_upto(dom: Set<Seq<u8>>, t: Seq<u8>, strict: bool) -> bool {
    exists|k: Seq<u8>| dom.contains(k) && upto(k, t, strict)
}

/// The key of what a lookup found, if anything.
pub open spec fn found_key(r: Option<Found>) -> Option<Seq<u8>> {
    match r {
        Some(kv) => Some(bytes_view(kv.0)),
        None => None,
    }
}

/// The map with no entry.
pub open spec fn empty_table() -> Map<Seq<u8>, Option<Seq<u8>>> {
    Map::empty()
}

/// `k` is the greatest key of `dom`.
pub open spec fn is_greatest_key(dom: Set<Seq<u8>>, k: Seq<u8>) -> bool {
    &&& dom.contains(k)
    &&& forall|k2: Seq<u8>| dom.contains(k2) ==> lex_le(k2, k)
}

/// What a lookup that found `r` states: the entry it copied out is the
/// map's entry for that key.
pub open spec fn found_in(
    m: Map<Seq<u8>, Option<Seq<u8>>>,
    r: Option<Found>,
) -> bool {
    r matches Some(kv) ==> m.dom().contains(bytes_view(kv.0)) && m[bytes_view(kv.0)] == entry_view(
        kv.1,
    )
}

/// `SkipMap::new`: a new, empty map.
#[verifier::external_body]
pub(crate) fn skip_new() -> (m: Table)
    ensures
        table_contents(m) == empty_table(),
{
    SkipMap::new()
}

/// `SkipMap::insert`: the key now maps to the value; an entry it had
/// before is replaced. It does not unwind (it only allocates and links a
/// node; comparing `Bytes` keys cannot panic).
#[verifier::external_body]
pub(crate) fn skip_insert(m: &mut Table, key: Bytes, value: Entry<Bytes>)
    ensures
        table_contents(*final(m)) == table_contents(*old(m)).insert(
            bytes_view(key),
            entry_view(value),
        ),
    no_unwind
{
    m.insert(key, value);
}

/// `SkipMap::len`: the number of entries.
#[verifier::external_body]
pub(crate) fn skip_len(m: &Table) -> (n: usize)
    ensures
        n == table_contents(*m).dom().len(),
{
    m.len()
}

/// `SkipMap::is_empty`: whether the map holds no entry.
#[verifier::external_body]
pub(crate) fn skip_is_empty(m: &Table) -> (b: bool)
    ensures
        b <==> !exists|k: Seq<u8>| table_contents(*m).dom().contains(k),
{
    m.is_empty()
}

/// `SkipMap::front`: a copy of the entry with the smallest key, if any.
#[verifier::external_body]
pub(crate) fn skip_front(m: &Table) -> (r: Option<Found>)
    ensures
        r is None <==> !exists|k: Seq<u8>| table_contents(*m).dom().contains(k),
        r matches Some(kv) ==> is_first_from(
            table_contents(*m).dom(),
            Seq::empty(),
            false,
            bytes_view(kv.0),
        ),
        found_in(table_contents(*m), r),
{
    match m.front() {
        Some(e) => Some((e.key().clone(), e.value().clone())),
        None => None,
    }
}

/// `SkipMap::back`: a copy of the entry with the greatest key, if any.
#[verifier::external_body]
pub(crate) fn skip_back(m: &Table) -> (r: Option<Found>)
    ensures
        r is None <==> !exists|k: Seq<u8>| table_contents(*m).dom().contains(k),
        r matches Some(kv) ==> is_greatest_key(table_contents(*m).dom(), bytes_view(kv.0)),
        found_in(table_contents(*m), r),
{
    match m.back() {
        Some(e) => Some((e.key().clone(), e.value().clone())),
        None => None,
    }
}

/// `SkipMap::lower_bound(Included(t))`: a copy of the entry with the least
/// key not below `t`, if any.
#[verifier::external_body]
pub(crate) fn skip_lower_bound(m: &Table, t: &[u8]) -> (r: Option<Found>)
    ensures
        r is None <==> !has_from(table_contents(*m).dom(), t@, false),
        r matches Some(kv) ==> is_first_from(table_contents(*m).dom(), t@, false, bytes_view(kv.0)),
        found_in(table_contents(*m), r),
{
    match m.lower_bound(Bound::Included(t)) {
        Some(e) => Some((e.key().clone(), e.value().clone())),
        None => None,
    }
}

/// `SkipMap::lower_bound(Excluded(t))`: a copy of the entry with the least
/// key above `t`, if any.
#[verifier::external_body]
pub(crate) fn skip_lower_bound_above(m: &Table, t: &[u8]) -> (r: Option<Found>)
    ensures
        r is None <==> !has_from(table_contents(*m).dom(), t@, true),
        r matches Some(kv) ==> is_first_from(table_contents(*m).dom(), t@, true, bytes_view(kv.0)),
        found_in(table_contents(*m), r),
{
    match m.lower_bound(Bound::Excluded(t)) {
        Some(e) => Some((e.key().clone(), e.value().clone())),
        None => None,
    }
}

/// `SkipMap::upper_bound(Included(t))`: a copy of the entry with the
/// greatest key not above `t`, if any.
#[verifier::external_body]
pub(crate) fn skip_upper_bound(m: &Table, t: &[u8]) -> (r: Option<Found>)
    ensures
        r is None <==> !has_upto(table_contents(*m).dom(), t@, false),
        r matches Some(kv) ==> is_last_upto(table_contents(*m).dom(), t@, false, bytes_view(kv.0)),
        found_in(table_contents(*m), r),
{
    match m.upper_bound(Bound::Included(t)) {
        Some(e) => Some((e.key().clone(), e.value().clone())),
        None => None,
    }
}

/// `SkipMap::upper_bound(Excluded(t))`: a copy of the entry with the
/// greatest key below `t`, if any.
#[verifier::external_body]
pub(crate) fn skip_upper_bound_below(m: &Table, t: &[u8]) -> (r: Option<Found>)
    ensures
        r is None <==> !has_upto(table_contents(*m).dom(), t@, true),
        r matches Some(kv) ==> is_last_upto(table_contents(*m).dom(), t@, true, bytes_view(kv.0)),
        found_in(table_contents(*m), r),
{
    match m.upper_bound(Bound::Excluded(t)) {
        Some(e) => Some((e.key().clone(), e.value().clone())),
        None => None,
    }
}

} // verus!
