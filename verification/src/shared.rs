//! Shared handles.

use std::sync::Arc;
use vstd::prelude::*;

verus! {

/// `Arc::clone` makes another handle to the value of `handle`.
#[verifier::external_body]
pub(crate) fn share<T>(handle: &Arc<T>) -> (r: Arc<T>)
    ensures
        r == *handle,
{
    Arc::clone(handle)
}

/// `Arc::into_inner` gives up a handle, and returns the value where that was the last
/// one. Whether it was depends on who else holds one at the time.
#[verifier::external_body]
pub(crate) fn give_up<T>(handle: Arc<T>) -> (r: Option<T>)
    ensures
        r matches Some(v) ==> v == *handle,
{
    Arc::into_inner(handle)
}

/// `Arc::strong_count` tells how many handles there are to a value at the time: at least
/// the one that is asked.
#[verifier::external_body]
pub(crate) fn holders<T>(handle: &Arc<T>) -> (r: usize)
    ensures
        r >= 1,
{
    Arc::strong_count(handle)
}

} // verus!
