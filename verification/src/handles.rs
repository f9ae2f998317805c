//! Shared ownership of a lock between the handles that use it.
use vstd::prelude::*;
use std::sync::Arc;

verus! {

/// Calls `Arc::clone` (std), which makes another pointer to the same allocation
/// without touching the value behind it; the contract says that the new pointer
/// stands for the same value.
#[verifier::external_body]
pub(crate) fn share<T>(a: &Arc<T>) -> (res: Arc<T>)
    ensures
        res == *a,
{
    Arc::clone(a)
}

} // verus!
