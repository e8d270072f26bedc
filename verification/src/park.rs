//! Parking the current thread.

use crate::bucket::{
    lemma_bucket_of, lemma_filter_contains, lemma_filter_uniform, lemma_push_contains,
    lemma_without_one, thread_at, without, ParkingLot,
};
use crate::deadlock::{on_unpark, DeadlockedThread};
use crate::tokens::{ParkResult, ParkToken};
use vstd::prelude::*;

verus! {

impl ParkingLot {
    /// Whether `new` is this parking lot after `thread` has been appended to the queue of `key`.
    pub open spec fn parked(
        self,
        new: ParkingLot,
        thread: usize,
        key: usize,
        park_token: ParkToken,
        timed: bool,
    ) -> bool {
        &&& new.threads@.len() == self.threads@.len()
        &&& new.entries@.len() == self.entries@.len()
        &&& forall|t: int|
            0 <= t < self.threads@.len() && t != thread ==> self.threads@[t].same_but_link(
                #[trigger] new.threads@[t],
            )
        &&& self.threads@[thread as int].with_wait(key, park_token, timed).same_but_link(
            new.threads@[thread as int],
        )
        &&& new.queue(self.bucket(key)) == self.queue(self.bucket(key)).push(thread)
        &&& forall|c: int|
            0 <= c < self.entries@.len() && c != self.bucket(key) ==> #[trigger] new.queue(c)
                == self.queue(c)
    }

    /// A queue stays linked when its last thread is linked to a thread that was not parked.
    proof fn lemma_parked_wf(self, new: ParkingLot, thread: usize, key: usize)
        requires
            self.wf(),
            thread < self.threads@.len(),
            !self.queued(thread),
            new.threads@.len() == self.threads@.len(),
            new.entries@.len() == self.entries@.len(),
            forall|t: int|
                0 <= t < self.threads@.len() && t != thread ==> (
                #[trigger] new.threads@[t]).key == self.threads@[t].key
                    && new.threads@[t].next_in_queue == (if thread_at(
                    self.queue(self.bucket(key)),
                    self.queue(self.bucket(key)).len() - 1,
                ) == Some(t as usize) {
                    Some(thread)
                } else {
                    self.threads@[t].next_in_queue
                }),
            new.threads@[thread as int].key == key,
            new.threads@[thread as int].next_in_queue == None::<usize>,
            forall|c: int|
                0 <= c < self.entries@.len() && c != self.bucket(key) ==> #[trigger] new.entries@[c]
                    == self.entries@[c],
            new.queue(self.bucket(key)) == self.queue(self.bucket(key)).push(thread),
            new.entries@[self.bucket(key)].queue_head == thread_at(
                self.queue(self.bucket(key)).push(thread),
                0,
            ),
            new.entries@[self.bucket(key)].queue_tail == Some(thread),
        ensures
            new.wf(),
    {
        let b = self.bucket(key);
        let queue = self.queue(b);
        let longer = new.queue(b);
        lemma_bucket_of(key, self.entries@.len());
        assert(self.entries@[b].linked(self.threads@));
        assert(!queue.contains(thread));
        assert(new.entries@[b].linked(new.threads@)) by {
            assert forall|i: int| 0 <= i < longer.len() implies #[trigger] longer[i]
                < new.threads@.len() && new.threads@[longer[i] as int].next_in_queue == thread_at(
                longer,
                i + 1,
            ) by {
                if i < queue.len() {
                    assert(longer[i] == queue[i] && queue.contains(queue[i]));
                    assert(self.threads@[queue[i] as int].next_in_queue == thread_at(queue, i + 1));
                    assert(queue[i] == queue[queue.len() - 1] ==> i == queue.len() - 1);
                }
            }
            assert forall|i: int, j: int|
                0 <= i < longer.len() && 0 <= j < longer.len() && i != j implies longer[i]
                != longer[j] by {
                if i < queue.len() {
                    assert(queue.contains(queue[i]));
                }
                if j < queue.len() {
                    assert(queue.contains(queue[j]));
                }
            }
        }
        assert forall|c: int| 0 <= c < new.entries@.len() implies (
        #[trigger] new.entries@[c]).linked(new.threads@) by {
            if c != b {
                assert(self.entries@[c].linked(self.threads@));
                assert forall|i: int| 0 <= i < new.queue(c).len() implies new.threads@[(
                #[trigger] new.queue(c)[i]) as int].next_in_queue == thread_at(
                    new.queue(c),
                    i + 1,
                ) by {
                    assert(self.queue(c).contains(self.queue(c)[i]));
                    if queue.len() > 0 {
                        assert(queue.contains(queue[queue.len() - 1]));
                    }
                    assert(self.threads@[self.queue(c)[i] as int].next_in_queue == thread_at(
                        self.queue(c),
                        i + 1,
                    ));
                }
            }
        }
        assert forall|c: int, t: usize|
            0 <= c < new.entries@.len() && #[trigger] new.queue(c).contains(t) implies new.bucket(
            new.key(t),
        ) == c by {
            if c == b {
                lemma_push_contains(queue, thread, t);
            }
            if t != thread {
                assert(self.queue(c).contains(t));
                assert(self.entries@[c].linked(self.threads@));
            } else if c != b {
                assert(self.queue(c).contains(thread));
            }
        }
    }

    /// Appends a thread to the queue of `key`.
    fn enqueue(&mut self, thread: usize, key: usize, park_token: ParkToken, timed: bool)
        requires
            old(self).wf(),
            thread < old(self).threads@.len(),
            !old(self).queued(thread),
        ensures
            final(self).wf(),
            old(self).parked(*final(self), thread, key, park_token, timed),
    {
        let b = self.bucket_index(key);
        let ghost queue = self.queue(b as int);
        proof {
            assert(self.entries@[b as int].linked(self.threads@));
            assert(!queue.contains(thread));
            if queue.len() > 0 {
                assert(queue.contains(queue[queue.len() - 1]));
            }
        }
        self.threads[thread].parked_with_timeout = timed;
        self.threads[thread].next_in_queue = None;
        self.threads[thread].key = key;
        self.threads[thread].park_token = park_token;
        match self.entries[b].queue_tail {
            Some(tail) => {
                self.threads[tail].next_in_queue = Some(thread);
            },
            None => {
                self.entries[b].queue_head = Some(thread);
            },
        }
        self.entries[b].queue_tail = Some(thread);
        self.entries[b].queue = Ghost(queue.push(thread));
        proof {
            old(self).lemma_parked_wf(*self, thread, key);
        }
    }

    /// Whether `new` is this parking lot after `thread` has been taken out of the queue of its key.
    pub open spec fn left(self, new: ParkingLot, thread: usize) -> bool {
        let b = self.bucket(self.key(thread));
        &&& self.same_outside(new, b)
        &&& new.queue(b) == without(self.queue(b), seq![thread])
    }

    /// Nobody waits on a key that no thread of its bucket has.
    proof fn lemma_nobody_waits(self, key: usize)
        ensures
            self.waiters(key) == Seq::<usize>::empty() <==> forall|j: int|
                0 <= j < self.queue(self.bucket(key)).len() ==> self.key(
                    #[trigger] self.queue(self.bucket(key))[j],
                ) != key,
    {
        let queue = self.queue(self.bucket(key));
        let p = self.waits_on(key);
        if forall|j: int| 0 <= j < queue.len() ==> self.key(#[trigger] queue[j]) != key {
            lemma_filter_uniform(queue, p, false);
        } else {
            let j = choose|j: int|
                0 <= j < queue.len() && self.key(#[trigger] queue[j]) == key;
            assert(p(queue[j]));
            assert(queue.contains(queue[j]));
            lemma_filter_contains(queue, p, queue[j]);
        }
    }

    /// Takes a thread out of its queue. Gives its key, and whether no other thread waits on that
    /// key.
    fn dequeue(&mut self, thread: usize) -> (r: (usize, bool))
        requires
            old(self).wf(),
            thread < old(self).threads@.len(),
            old(self).queued(thread),
        ensures
            final(self).wf(),
            old(self).left(*final(self), thread),
            r.0 == old(self).key(thread),
            r.1 <==> final(self).waiters(r.0) == Seq::<usize>::empty(),
    {
        let key = self.threads[thread].key;
        let b = self.bucket_index(key);
        let ghost before = *self;
        let ghost queue = self.queue(b as int);
        let ghost target = queue.index_of(thread);
        proof {
            self.lemma_queued(thread);
            assert(self.entries@[b as int].linked(self.threads@));
        }
        let mut current = self.entries[b].queue_head;
        let mut previous: Option<usize> = None;
        let mut was_last_thread = true;
        let ghost mut i: int = 0;
        while current != Some(thread)
            invariant
                *self == before,
                before.wf(),
                b < before.entries@.len(),
                queue == before.queue(b as int),
                before.entries@[b as int].linked(before.threads@),
                0 <= i <= target < queue.len(),
                queue[target] == thread,
                current == thread_at(queue, i),
                previous == thread_at(queue, i - 1),
                was_last_thread <==> forall|j: int|
                    0 <= j < i ==> before.key(#[trigger] queue[j]) != key,
            decreases target - i,
        {
            let this = current.unwrap();
            assert(this == queue[i]);
            assert(before.threads@[queue[i] as int].next_in_queue == thread_at(queue, i + 1));
            if self.threads[this].key == key {
                was_last_thread = false;
            }
            previous = current;
            current = self.threads[this].next_in_queue;
            proof {
                i = i + 1;
            }
        }
        assert(i == target);
        assert(before.threads@[queue[i] as int].next_in_queue == thread_at(queue, i + 1));
        self.unlink(b, previous, thread, Ghost(i));
        let ghost after = *self;
        let ghost rest = after.queue(b as int);
        let mut scan = self.threads[thread].next_in_queue;
        proof {
            assert(after.entries@[b as int].linked(after.threads@));
            lemma_without_one(queue, i);
            assert forall|j: int| 0 <= j < i implies #[trigger] rest[j] == queue[j] && after.key(
                rest[j],
            ) == before.key(queue[j]) by {}
            assert forall|j: int| 0 <= j < i implies rest[j] == #[trigger] queue[j] by {}
        }
        while scan.is_some() && was_last_thread
            invariant
                *self == after,
                b < after.entries@.len(),
                rest == after.queue(b as int),
                after.entries@[b as int].linked(after.threads@),
                0 <= i <= rest.len(),
                scan == thread_at(rest, i),
                was_last_thread <==> forall|j: int|
                    0 <= j < i ==> after.key(#[trigger] rest[j]) != key,
            decreases rest.len() - i,
        {
            let other = scan.unwrap();
            assert(other == rest[i]);
            assert(after.threads@[rest[i] as int].next_in_queue == thread_at(rest, i + 1));
            if self.threads[other].key == key {
                was_last_thread = false;
            }
            scan = self.threads[other].next_in_queue;
            proof {
                i = i + 1;
            }
        }
        proof {
            after.lemma_nobody_waits(key);
        }
        (key, was_last_thread)
    }
}

/// What has come to pass for a thread on its way through `park`.
#[derive(Clone, Copy, Debug, PartialEq, Eq)]
pub enum ParkEvent {
    /// The queue is locked, and the `validate` function has given this answer.
    Validated(bool),
    /// The thread has slept, and woke up because it was unparked or else because its timeout was
    /// reached. A thread without a timeout wakes up only because it was unparked.
    Woken(bool),
    /// The queue is locked again, and the thread has or has not timed out before anyone unparked
    /// it.
    Relocked(bool),
}

/// What a thread has to do next on its way through `park`.
pub enum ParkAction {
    /// Unlock the queue, call `before_sleep`, sleep until unparked or until the timeout is reached,
    /// and come back with `Woken`.
    Sleep,
    /// Lock the queue again and come back with `Relocked`.
    Relock,
    /// Send the report on the channel, close it and sleep until the end of time.
    Report {
        /// The channel.
        channel: usize,
        /// The report.
        report: DeadlockedThread,
    },
    /// Call `timed_out` with the key and the flag while the queue is locked, then return
    /// `ParkResult::TimedOut`.
    TimedOut {
        /// The key of the queue that the thread was in when it timed out.
        key: usize,
        /// Whether it was the last thread in the queue.
        was_last_thread: bool,
    },
    /// Return the result.
    Return(ParkResult),
}

/// Parks the current thread in the queue associated with the given key. This is one step of it:
/// what the thread does to the parking lot after `event`, and what it has to do next.
///
/// The `validate` function is called while the queue is locked and can abort the operation by
/// returning false. If `validate` returns true then the current thread is appended to the queue and
/// the queue is unlocked.
///
/// The `timed_out` function is also called while the queue is locked, but only if the timeout was
/// reached. It is passed the key of the queue it was in when it timed out, which may be different
/// from the original key if the thread was requeued. It is also passed a bool which indicates
/// whether it was the last thread in the queue.
///
/// `timed` tells whether the thread parks with a timeout. A thread without one that was found
/// deadlocked while it was parked never returns: when it wakes up, it reports, and sleeps again.
pub fn park(
    lot: &mut ParkingLot,
    thread: usize,
    key: usize,
    park_token: ParkToken,
    timed: bool,
    event: ParkEvent,
) -> (action: ParkAction)
    requires
        old(lot).wf(),
        thread < old(lot).threads@.len(),
        match event {
            ParkEvent::Validated(valid) => valid ==> !old(lot).queued(thread),
            ParkEvent::Woken(_) => !timed && old(
                lot,
            ).threads@[thread as int].deadlock_data.deadlocked ==> old(
                lot,
            ).threads@[thread as int].deadlock_data.backtrace_sender is Some,
            ParkEvent::Relocked(timed_out) => timed && (timed_out ==> old(lot).queued(thread)),
        },
    ensures
        final(lot).wf(),
        old(lot).keeps_marks(*final(lot)),
        match event {
            ParkEvent::Validated(false) => {
                &&& *final(lot) == *old(lot)
                &&& action == ParkAction::Return(ParkResult::Invalid)
            },
            ParkEvent::Validated(true) => {
                &&& old(lot).parked(*final(lot), thread, key, park_token, timed)
                &&& action == ParkAction::Sleep
            },
            ParkEvent::Woken(unparked) => {
                let data = old(lot).threads@[thread as int];
                if !timed && data.deadlock_data.deadlocked {
                    action matches ParkAction::Report { channel, report } && old(lot).reported(
                        *final(lot),
                        thread,
                        channel,
                        report,
                    )
                } else {
                    &&& *final(lot) == *old(lot)
                    &&& action == if !timed || unparked {
                        ParkAction::Return(ParkResult::Unparked(data.unpark_token))
                    } else {
                        ParkAction::Relock
                    }
                }
            },
            ParkEvent::Relocked(false) => {
                &&& *final(lot) == *old(lot)
                &&& action == ParkAction::Return(
                    ParkResult::Unparked(old(lot).threads@[thread as int].unpark_token),
                )
            },
            ParkEvent::Relocked(true) => {
                let key = old(lot).key(thread);
                let was_last_thread = final(lot).waiters(key) == Seq::<usize>::empty();
                &&& old(lot).left(*final(lot), thread)
                &&& action == (ParkAction::TimedOut { key, was_last_thread })
            },
        },
        !(event is Validated) && !timed && old(
            lot,
        ).threads@[thread as int].deadlock_data.deadlocked ==> action is Report,
        action is Sleep ==> {
            let data = final(lot).threads@[thread as int];
            &&& data.key == key
            &&& data.park_token == park_token
            &&& data.parked_with_timeout == timed
            &&& final(lot).queued(thread)
            &&& final(lot).waiters(key) == old(lot).waiters(key).push(thread)
        },
        action matches ParkAction::Report { channel, report } ==> {
            let data = old(lot).threads@[thread as int].deadlock_data;
            report.thread_id == data.thread_id && data.backtrace_sender == Some(channel)
        },
        action is TimedOut ==> !final(lot).queued(thread),
{
    match event {
        ParkEvent::Validated(valid) => {
            // If the validation function fails, just return
            if !valid {
                return ParkAction::Return(ParkResult::Invalid);
            }

            // Append our thread to the queue
            lot.enqueue(thread, key, park_token, timed);
            proof {
                old(lot).lemma_parked(*lot, thread, key, park_token, timed);
            }
            ParkAction::Sleep
        },
        ParkEvent::Woken(woken) => {
            let unparked = if timed {
                woken
            } else {
                // Call deadlock detection hook
                match on_unpark(lot, thread) {
                    Some((channel, report)) => {
                        return ParkAction::Report { channel, report };
                    },
                    None => true,
                }
            };
            // If we were unparked, return now
            if unparked {
                ParkAction::Return(ParkResult::Unparked(lot.threads[thread].unpark_token))
            } else {
                ParkAction::Relock
            }
        },
        ParkEvent::Relocked(timed_out) => {
            // Now we need to check again if we were unparked or timed out. Unlike the last check
            // this is precise because we hold the lock.
            if !timed_out {
                return ParkAction::Return(ParkResult::Unparked(lot.threads[thread].unpark_token));
            }

            // We timed out, so we now need to remove our thread from the queue
            let (key, was_last_thread) = lot.dequeue(thread);
            proof {
                old(lot).lemma_left(*lot, thread);
            }
            ParkAction::TimedOut { key, was_last_thread }
        },
    }
}

} // verus!
