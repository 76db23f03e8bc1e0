use std::sync::atomic::{AtomicBool, Ordering};
use std::sync::Arc;
use vstd::prelude::*;

verus! {

/// The current value of a shared stop flag. Other threads may set it at any
/// time, so nothing is known of the value read.
pub fn read_atomic_bool(v: &Arc<AtomicBool>) -> bool {
    v.load(Ordering::Relaxed)
}

} // verus!
