//! The cancellation signal that racing workers share.
//!
//! The signal is a plain atomic flag. It is a hint, not a lock: a worker
//! looks at it now and then and stops once it reads as set, and the worker
//! that finishes first sets it. Nothing is known about what a read returns,
//! since any other worker may set the flag at any time.

use std::sync::atomic::AtomicBool;
use std::sync::atomic::Ordering;
use vstd::prelude::*;

verus! {

/// How many attempts a worker makes between two looks at the signal.
pub const POLL_INTERVAL: usize = 500;

/// Whether a worker that has made `attempts` attempts is due to look at the
/// signal: before its first attempt, and after every `POLL_INTERVAL` more.
pub open spec fn poll_due(attempts: nat) -> bool {
    attempts % 500 == 0
}

/// Whether a look at the signal is due.
pub fn is_poll_due(attempts: usize) -> (due: bool)
    ensures
        due == poll_due(attempts as nat),
{
    attempts % POLL_INTERVAL == 0
}

/// Reads the signal.
pub fn is_raised(signal: &AtomicBool) -> bool {
    signal.load(Ordering::Relaxed)
}

/// Sets the signal.
pub fn raise(signal: &AtomicBool) {
    signal.swap(true, Ordering::Relaxed);
}

} // verus!
