//! Signals by which a caller stops a long computation.

use std::sync::atomic::AtomicBool;
use std::sync::atomic::Ordering;
use vstd::prelude::*;

verus! {

/// A signal that a caller raises to stop a computation. The computations
/// that take one look at it at every step of their descent, and give up
/// once they see it raised.
pub trait Cancel {
    /// The signal can be raised at all.
    spec fn can_be_raised(&self) -> bool;

    /// Whether the signal is raised now.
    fn is_raised(&self) -> (raised: bool)
        ensures
            raised ==> self.can_be_raised(),
    ;
}

/// The signal that is never raised.
#[derive(Clone, Copy, Debug)]
pub struct Never;

impl Cancel for Never {
    open spec fn can_be_raised(&self) -> bool {
        false
    }

    fn is_raised(&self) -> (raised: bool) {
        false
    }
}

impl Cancel for AtomicBool {
    /// A flag that another thread may set at any time.
    open spec fn can_be_raised(&self) -> bool {
        true
    }

    fn is_raised(&self) -> (raised: bool) {
        self.load(Ordering::Relaxed)
    }
}

} // verus!
