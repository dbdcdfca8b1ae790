use std::sync::atomic::AtomicBool;
use std::sync::atomic::Ordering;
use std::sync::Arc;
use vstd::prelude::*;

verus! {

/// A shared, one-shot stop signal. Clones share the same underlying flag, so
/// raising it through any clone is seen (eventually) through every other.
#[derive(Clone)]
pub struct QuitFlag {
    quit: Arc<AtomicBool>,
}

impl QuitFlag {
    /// A fresh flag that has not been raised.
    pub fn new() -> (r: QuitFlag) {
        QuitFlag { quit: Arc::new(AtomicBool::new(false)) }
    }

    /// Raises the flag. Idempotent; safe from any thread.
    pub fn raise(&self) {
        self.quit.store(true, Ordering::Relaxed);
    }

    /// Whether the flag has been raised (relaxed ordering).
    pub fn raised(&self) -> (r: bool) {
        self.quit.load(Ordering::Relaxed)
    }
}

} // verus!
