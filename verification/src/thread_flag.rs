//! A flag that one thread raises for another to see.

use vstd::prelude::*;
use std::sync::Arc;
use std::sync::atomic::AtomicBool;

verus! {

/// A flag shared between threads. It starts lowered. What one thread reads
/// depends on what the others have done, so nothing is said of it here.
#[derive(Debug, Clone)]
pub struct ThreadFlag {
    atomic_bool: Arc<AtomicBool>,
}

impl ThreadFlag {
    /// A lowered flag.
    pub fn new() -> ThreadFlag {
        ThreadFlag { atomic_bool: Arc::new(AtomicBool::new(false)) }
    }

    /// Whether the flag is raised.
    pub fn get(&self) -> bool {
        self.atomic_bool.load(std::sync::atomic::Ordering::Relaxed)
    }

    /// Raises the flag.
    pub fn trigger(&mut self) {
        self.atomic_bool.store(true, std::sync::atomic::Ordering::Relaxed);
    }

    /// Lowers the flag.
    pub fn reset(&mut self) {
        self.atomic_bool.store(false, std::sync::atomic::Ordering::Relaxed);
    }
}

} // verus!
