//! An atomic-swap based lock.
//!
//! All of the methods only take `&self` instead of `&mut self`, since shared access is
//! required for a lock to be useful in the first place. Whether an acquisition succeeds
//! depends on what other harts do, so no contract here promises it.
use vstd::prelude::*;
use std::sync::atomic::{AtomicU8, Ordering};

verus! {

/// A lock: the byte holds whether the lock is held.
pub struct Lock {
    held: AtomicU8,
}

impl Lock {
    /// A lock that is not held.
    pub fn new() -> (l: Self) {
        Lock { held: AtomicU8::new(0) }
    }

    /// Tries to acquire this lock: swaps in "held" and reports whether it was free before.
    pub fn try_acquire(&self) -> bool {
        let previous_value = self.held.swap(1, Ordering::Acquire);
        previous_value == 0
    }

    /// Unlocks the lock, regardless of its previous state.
    pub fn unlock(&self) {
        let _value = self.held.swap(0, Ordering::Release);
    }

    /// Tells whether the lock is held.
    pub fn is_held(&self) -> bool {
        self.held.load(Ordering::Relaxed) != 0
    }
}

} // verus!
