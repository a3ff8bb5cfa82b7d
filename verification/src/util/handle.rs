//! Shared handles to immutable payloads.

use std::sync::Arc;
use vstd::prelude::*;

verus! {

/// Calls `Arc::clone`: a second handle to the same payload. The payload
/// behind the new handle is the payload behind the old one.
#[verifier::external_body]
pub(crate) fn share<T>(handle: &Arc<T>) -> (r: Arc<T>)
    ensures
        r == *handle,
{
    Arc::clone(handle)
}

} // verus!
