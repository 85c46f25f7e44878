//! The flag by which the workers of one search tell each other to stop.
//!
//! It is raised once, by the first worker that finds a solution, and never
//! lowered. What it holds changes behind a shared reference: no contract
//! can speak of it, and of a read only that it is a `bool` is known.

use std::sync::atomic::AtomicBool;
use std::sync::atomic::Ordering;
use vstd::prelude::*;

verus! {

/// A flag that is not raised.
pub fn new_flag() -> AtomicBool {
    AtomicBool::new(false)
}

/// Whether the flag was seen raised.
pub fn is_raised(flag: &AtomicBool) -> bool {
    flag.load(Ordering::Relaxed)
}

/// Raises the flag.
pub fn raise(flag: &AtomicBool) {
    flag.store(true, Ordering::Relaxed);
}

} // verus!
