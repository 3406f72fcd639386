//! A signal on which consumer loops stop.

use vstd::prelude::*;

verus! {

/// The state that all handles of one signal share.
pub struct ShutdownSignal {
    triggered: bool,
}

impl View for ShutdownSignal {
    type V = bool;

    closed spec fn view(&self) -> bool {
        self.triggered
    }
}

/// A handle to a shutdown signal. Clones are handles to the same signal.
#[derive(Debug, Clone, Copy, PartialEq, Eq)]
pub struct Shutdown {}

impl Shutdown {
    /// A signal that is not triggered yet, and a handle to it.
    pub fn new() -> (r: (Shutdown, ShutdownSignal))
        ensures
            !r.1@,
    {
        (Shutdown {  }, ShutdownSignal { triggered: false })
    }

    /// Trigger the signal. All handles observe it.
    pub fn trigger(&self, signal: &mut ShutdownSignal)
        ensures
            final(signal)@,
    {
        signal.triggered = true;
    }

    /// Whether the signal was triggered through any handle.
    pub fn is_shutdown(&self, signal: &ShutdownSignal) -> (triggered: bool)
        ensures
            triggered == signal@,
    {
        signal.triggered
    }
}

} // verus!
