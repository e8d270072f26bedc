//! What the parking lot knows of a thread.

use crate::tokens::{ParkToken, UnparkToken};
use vstd::prelude::*;

verus! {

/// The part of a thread's record that the deadlock detection uses.
pub struct DeadlockData {
    /// The keys of the resources that the thread owns, one entry for each time it acquired one.
    pub resources: Vec<usize>,
    /// Whether the thread was found in a deadlock.
    pub deadlocked: bool,
    /// The channel on which a deadlocked thread sends its report, until it has sent it.
    pub backtrace_sender: Option<usize>,
    /// The system thread id.
    pub thread_id: u64,
}

/// The record of one thread. A thread is named by the position of its record in the parking lot.
pub struct ThreadData {
    /// The key that the thread is waiting on.
    pub key: usize,
    /// The next thread in the queue, where there is one.
    pub next_in_queue: Option<usize>,
    /// The token that the thread was unparked with.
    pub unpark_token: UnparkToken,
    /// The token that the thread parked with.
    pub park_token: ParkToken,
    /// Whether the thread is parked with a timeout.
    pub parked_with_timeout: bool,
    /// What the deadlock detection needs.
    pub deadlock_data: DeadlockData,
}

impl ThreadData {
    /// Whether this is the record of a thread that has neither parked nor acquired anything.
    pub open spec fn is_fresh(self, thread_id: u64) -> bool {
        &&& self.key == 0
        &&& self.next_in_queue == None::<usize>
        &&& self.unpark_token == UnparkToken(0)
        &&& self.park_token == ParkToken(0)
        &&& !self.parked_with_timeout
        &&& self.deadlock_data.resources@ == Seq::<usize>::empty()
        &&& !self.deadlock_data.deadlocked
        &&& self.deadlock_data.backtrace_sender == None::<usize>
        &&& self.deadlock_data.thread_id == thread_id
    }

    /// This record with another unpark token.
    pub open spec fn with_unpark_token(self, token: UnparkToken) -> ThreadData {
        ThreadData { unpark_token: token, ..self }
    }

    /// This record when the thread waits on `key`.
    pub open spec fn with_wait(self, key: usize, park_token: ParkToken, timed: bool) -> ThreadData {
        ThreadData { key, park_token, parked_with_timeout: timed, ..self }
    }

    /// Whether `other` differs from this record in nothing but its link.
    pub open spec fn same_but_link(self, other: ThreadData) -> bool {
        &&& self.key == other.key
        &&& self.unpark_token == other.unpark_token
        &&& self.park_token == other.park_token
        &&& self.parked_with_timeout == other.parked_with_timeout
        &&& self.deadlock_data == other.deadlock_data
    }

    /// Whether `other` differs from this record in nothing but its deadlock data.
    pub open spec fn same_but_deadlock_data(self, other: ThreadData) -> bool {
        &&& self.key == other.key
        &&& self.next_in_queue == other.next_in_queue
        &&& self.unpark_token == other.unpark_token
        &&& self.park_token == other.park_token
        &&& self.parked_with_timeout == other.parked_with_timeout
    }

    /// Whether `other` differs from this record in nothing but the resources that the thread owns.
    pub open spec fn same_but_resources(self, other: ThreadData) -> bool {
        &&& self.same_but_deadlock_data(other)
        &&& self.deadlock_data.deadlocked == other.deadlock_data.deadlocked
        &&& self.deadlock_data.backtrace_sender == other.deadlock_data.backtrace_sender
        &&& self.deadlock_data.thread_id == other.deadlock_data.thread_id
    }

    /// Whether `other` is this record once the thread has been found deadlocked and told to report
    /// on `channel`.
    pub open spec fn marked_as(self, other: ThreadData, channel: usize) -> bool {
        &&& self.same_but_deadlock_data(other)
        &&& other.deadlock_data.resources == self.deadlock_data.resources
        &&& other.deadlock_data.thread_id == self.deadlock_data.thread_id
        &&& other.deadlock_data.deadlocked
        &&& other.deadlock_data.backtrace_sender == Some(channel)
    }

    /// The record of a thread that has neither parked nor acquired anything.
    pub fn new(thread_id: u64) -> (data: ThreadData)
        ensures
            data.is_fresh(thread_id),
    {
        ThreadData {
            key: 0,
            next_in_queue: None,
            unpark_token: UnparkToken(0),
            park_token: ParkToken(0),
            parked_with_timeout: false,
            deadlock_data: DeadlockData {
                resources: Vec::new(),
                deadlocked: false,
                backtrace_sender: None,
                thread_id,
            },
        }
    }
}

} // verus!
