//! Sharing of nodes between tries.

use vstd::prelude::*;
use std::sync::Arc;

verus! {

/// `Arc::clone`: a second handle to the value that `a` points to. Nothing is
/// copied, and to a specification the two handles are the same value.
#[verifier::external_body]
pub(crate) fn share<T>(a: &Arc<T>) -> (r: Arc<T>)
    ensures
        r == *a,
{
    Arc::clone(a)
}

} // verus!
