//! The values that parked threads and those who wake them hand to each other.

use vstd::prelude::*;

verus! {

/// A value which a thread attaches to itself when it parks, and which a filter inspects.
#[derive(Copy, Clone, Debug, PartialEq, Eq, Structural)]
pub struct ParkToken(pub usize);

/// A value which is passed from an unparker to the threads that it unparks.
#[derive(Copy, Clone, Debug, PartialEq, Eq, Structural)]
pub struct UnparkToken(pub usize);

/// What became of a request to park.
#[derive(Copy, Clone, Debug, PartialEq, Eq, Structural)]
pub enum ParkResult {
    /// The thread was unparked by another thread with the given token.
    Unparked(UnparkToken),
    /// The validation callback returned false.
    Invalid,
    /// The timeout expired.
    TimedOut,
}

/// What an unpark operation did to the queue of a key.
#[derive(Copy, Clone, Debug, PartialEq, Eq, Structural)]
pub struct UnparkResult {
    /// The number of threads that were unparked.
    pub unparked_threads: usize,
    /// Whether there are any threads remaining in the queue of the key.
    pub have_more_threads: bool,
    /// Whether a fair unlocking mechanism should be used.
    pub be_fair: bool,
}

impl Default for UnparkResult {
    fn default() -> (r: UnparkResult)
        ensures
            r.unparked_threads == 0,
            !r.have_more_threads,
            !r.be_fair,
    {
        UnparkResult { unparked_threads: 0, have_more_threads: false, be_fair: false }
    }
}

/// What to do with a thread that a filter was asked about.
#[derive(Copy, Clone, Debug, PartialEq, Eq, Structural)]
pub enum FilterOp {
    /// Unpark the thread and continue scanning the list of parked threads.
    Unpark,
    /// Don't unpark the thread and continue scanning the list of parked threads.
    Skip,
    /// Don't unpark the thread and stop scanning the list of parked threads.
    Stop,
}

} // verus!
