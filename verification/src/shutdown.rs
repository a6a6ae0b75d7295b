//! The cooperative shutdown protocol.
//!
//! One process-wide signal is fired at most once; every connection task
//! observes it through a repeatable, never-blocking read and then drains:
//! it finishes any in-flight reply and leaves its loop.  A completion
//! count lets the server block until every registered connection has
//! deregistered, so none is killed mid-write.

use vstd::prelude::*;

verus! {

/// A connection task's handle on the shutdown signal: whether the signal
/// has been observed.  The waiting itself is the caller's business; this
/// state decides, and its reading never blocks.
#[derive(Debug)]
pub struct Shutdown {
    is_shutdown: bool,
}

impl View for Shutdown {
    type V = bool;

    closed spec fn view(&self) -> bool {
        self.is_shutdown
    }
}

impl Shutdown {
    /// A fresh handle: the signal has not been observed.
    pub fn new() -> (r: Shutdown)
        ensures
            !r@,
    {
        Shutdown { is_shutdown: false }
    }

    /// A repeatable read of "has shutdown been requested".
    pub fn is_shutdown(&self) -> (r: bool)
        ensures
            r == self@,
    {
        self.is_shutdown
    }

    /// Records that the signal was observed.  Observing it again changes
    /// nothing: the transition happens once.
    pub fn note_shutdown(&mut self)
        ensures
            final(self)@,
    {
        self.is_shutdown = true;
    }
}

/// The completion tracker: how many connection tasks are still running.
/// The server's shutdown sequence may exit only once this drains to zero.
#[derive(Debug)]
pub struct DrainTracker {
    active: u64,
}

impl View for DrainTracker {
    type V = u64;

    closed spec fn view(&self) -> u64 {
        self.active
    }
}

impl DrainTracker {
    /// No connection is running.
    pub fn new() -> (r: DrainTracker)
        ensures
            r@ == 0,
    {
        DrainTracker { active: 0 }
    }

    /// A connection task starts.
    pub fn register(&mut self)
        requires
            old(self)@ < u64::MAX,
        ensures
            final(self)@ == old(self)@ + 1,
    {
        self.active = self.active + 1;
    }

    /// A connection task has exited its loop.
    pub fn deregister(&mut self)
        requires
            old(self)@ > 0,
        ensures
            final(self)@ == old(self)@ - 1,
    {
        self.active = self.active - 1;
    }

    /// How many connection tasks are still running.
    pub fn active(&self) -> (r: u64)
        ensures
            r == self@,
    {
        self.active
    }

    /// Whether every registered connection has deregistered: only then may
    /// the process exit.
    pub fn is_drained(&self) -> (r: bool)
        ensures
            r == (self@ == 0),
    {
        self.active == 0
    }
}

} // verus!
