//! The record of the thread that calls into the parking lot.

use crate::bucket::{thread_at, ParkingLot, MAX_THREADS};
use crate::thread_data::ThreadData;
use vstd::prelude::*;

verus! {

/// Invokes the given closure with a reference to the record of the current thread, and returns the
/// thread with what the closure gave. The thread keeps the name of its record in `local`; where it
/// has none yet, a record is made.
pub fn with_thread_data<T>(
    lot: &mut ParkingLot,
    local: Option<usize>,
    thread_id: u64,
    f: impl FnOnce(&ThreadData) -> T,
) -> (r: (usize, T))
    requires
        old(lot).wf(),
        match local {
            Some(thread) => thread < old(lot).threads@.len(),
            None => old(lot).threads@.len() < MAX_THREADS,
        },
        forall|data: &ThreadData|
            (match local {
                Some(thread) => *data == old(lot).threads@[thread as int],
                None => data.is_fresh(thread_id),
            }) ==> #[trigger] f.requires((data,)),
    ensures
        final(lot).wf(),
        old(lot).keeps_marks(*final(lot)),
        match local {
            Some(thread) => r.0 == thread && *final(lot) == *old(lot),
            None => {
                &&& r.0 == old(lot).threads@.len()
                &&& final(lot).entries == old(lot).entries
                &&& final(lot).threads@.len() == old(lot).threads@.len() + 1
                &&& final(lot).threads@.drop_last() == old(lot).threads@
                &&& final(lot).threads@.last().is_fresh(thread_id)
                &&& final(lot).threads@.last().deadlock_data.thread_id == thread_id
                &&& final(lot).threads@.last().deadlock_data.resources@.len() == 0
                &&& !final(lot).threads@.last().deadlock_data.deadlocked
                &&& !final(lot).queued(r.0)
            },
        },
        f.ensures((&final(lot).threads@[r.0 as int],), r.1),
{
    let thread = match local {
        Some(thread) => thread,
        None => {
            let thread = lot.threads.len();
            lot.threads.push(ThreadData::new(thread_id));
            proof {
                assert(lot.threads@.drop_last() == old(lot).threads@);
                old(lot).lemma_record_added(*lot);
            }
            thread
        },
    };
    (thread, f(&lot.threads[thread]))
}

/// Makes the record of a thread that has ended that of a new thread.
pub fn renew_thread_data(lot: &mut ParkingLot, thread: usize, thread_id: u64)
    requires
        old(lot).wf(),
        thread < old(lot).threads@.len(),
        !old(lot).queued(thread),
        !old(lot).threads@[thread as int].deadlock_data.deadlocked,
    ensures
        final(lot).wf(),
        old(lot).keeps_marks(*final(lot)),
        old(lot).same_but_thread(*final(lot), thread),
        final(lot).threads@[thread as int].is_fresh(thread_id),
        !final(lot).queued(thread),
{
    let data = ThreadData::new(thread_id);
    lot.threads[thread] = data;
    proof {
        old(lot).lemma_record_renewed(*lot, thread);
    }
}

impl ParkingLot {
    /// The record of a thread that is not parked does not matter to the queues.
    proof fn lemma_record_renewed(self, new: ParkingLot, thread: usize)
        requires
            self.wf(),
            !self.queued(thread),
            self.same_but_thread(new, thread),
        ensures
            new.wf(),
            !new.queued(thread),
    {
        assert forall|c: int| 0 <= c < new.entries@.len() implies (
        #[trigger] new.entries@[c]).linked(new.threads@) by {
            assert(self.entries@[c].linked(self.threads@));
            assert forall|i: int| 0 <= i < new.queue(c).len() implies new.threads@[(
            #[trigger] new.queue(c)[i]) as int].next_in_queue == thread_at(new.queue(c), i + 1) by {
                assert(self.queue(c).contains(self.queue(c)[i]));
                assert(self.threads@[self.queue(c)[i] as int].next_in_queue == thread_at(
                    self.queue(c),
                    i + 1,
                ));
            }
        }
        assert forall|c: int, t: usize|
            0 <= c < new.entries@.len() && #[trigger] new.queue(c).contains(t) implies t != thread
            && new.bucket(new.key(t)) == c by {
            assert(self.queue(c).contains(t));
            assert(self.entries@[c].linked(self.threads@));
        }
    }

    /// A new record does not matter to the queues.
    proof fn lemma_record_added(self, new: ParkingLot)
        requires
            self.wf(),
            new.entries == self.entries,
            self.threads@.len() < MAX_THREADS,
            new.threads@.len() == self.threads@.len() + 1,
            new.threads@.drop_last() == self.threads@,
        ensures
            new.wf(),
            !new.queued(self.threads@.len() as usize),
    {
        assert forall|t: int| 0 <= t < self.threads@.len() implies #[trigger] new.threads@[t]
            == self.threads@[t] by {
            assert(new.threads@.drop_last()[t] == self.threads@[t]);
        }
        assert forall|c: int| 0 <= c < new.entries@.len() implies (
        #[trigger] new.entries@[c]).linked(new.threads@) by {
            assert(self.entries@[c].linked(self.threads@));
        }
        assert forall|c: int, t: usize|
            0 <= c < new.entries@.len() && #[trigger] new.queue(c).contains(t) implies t
            < self.threads@.len() && new.bucket(new.key(t)) == c by {
            assert(self.queue(c).contains(t));
            assert(self.entries@[c].linked(self.threads@));
        }
    }
}

} // verus!
