//! Shared slices.

use std::sync::Arc;
use vstd::prelude::*;

verus! {

/// Moves a vector's items into a shared slice, through std's
/// `Arc::<[T]>::from(Vec<T>)`: the slice holds the same items in the same order.
#[verifier::external_body]
pub(crate) fn share<T>(items: Vec<T>) -> (r: Arc<[T]>)
    ensures
        r@ == items@,
{
    Arc::from(items)
}

} // verus!
