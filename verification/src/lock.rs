//! The shared auxiliary state of a chunk, behind trusted declarations.
//!
//! Each chunk carries one piece of auxiliary state (often a random
//! generator) that cell logic may borrow while it runs. The state sits in a
//! reference-counted read/write lock so that deferred evaluations can reach
//! it too. The engine itself never looks inside: it only creates the lock
//! and clones handles to it, so the lock stays opaque here and cell logic
//! acquires it through the lock's own interface.

use vstd::prelude::*;
use std::sync::Arc;

verus! {

#[verifier::external_type_specification]
#[verifier::external_body]
#[verifier::reject_recursive_types(R)]
#[verifier::reject_recursive_types(T)]
pub struct ExRwLock<R, T: ?Sized>(lock_api::RwLock<R, T>);

#[verifier::external_type_specification]
#[verifier::external_body]
pub struct ExRawRwLock(parking_lot::RawRwLock);

/// A read/write lock around a chunk's auxiliary state.
pub type StateLock<S> = parking_lot::RwLock<S>;

/// A shared handle to a chunk's auxiliary state.
pub type SharedState<S> = Arc<parking_lot::RwLock<S>>;

/// Relies on parking_lot's RwLock::new: wraps the value in a fresh unlocked
/// lock. The lock is opaque here, so nothing further is stated.
#[verifier::external_body]
pub fn new_state_lock<S>(value: S) -> StateLock<S> {
    parking_lot::RwLock::new(value)
}

/// Relies on Arc::clone: the new handle refers to the same lock.
#[verifier::external_body]
pub fn clone_state_handle<S>(handle: &SharedState<S>) -> (r: SharedState<S>)
    ensures
        r == *handle,
{
    Arc::clone(handle)
}

} // verus!
