//! Standard-library values the library holds: paths and shared pointers.

use vstd::prelude::*;
use std::path::PathBuf;
use std::sync::Arc;

verus! {

#[verifier::external_type_specification]
#[verifier::external_body]
pub struct ExPathBuf(std::path::PathBuf);

/// `<Arc<T> as Clone>::clone`: another pointer to the same allocation, so
/// the clone points at the same value.
#[verifier::external_body]
pub(crate) fn share<T>(a: &Arc<T>) -> (c: Arc<T>)
    ensures
        c == *a,
{
    a.clone()
}

} // verus!
