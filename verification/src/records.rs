//! What the operations do to the records of the threads, field by field.

use crate::bucket::{
    absent_from, lemma_bucket_of, lemma_filter_contains, thread_at, without, ParkingLot, MAX_THREADS,
};
use crate::deadlock::DeadlockedThread;
use crate::thread_data::ThreadData;
use crate::tokens::{ParkToken, UnparkToken};
use vstd::prelude::*;

verus! {

/// There is room for millions of threads.
pub proof fn lemma_room()
    ensures
        0xff_ffff <= MAX_THREADS,
{
}

/// A thread that is new to the parking lot owns nothing, is not deadlocked, has nowhere to report,
/// and goes by its own id.
pub proof fn lemma_fresh_record(data: ThreadData, thread_id: u64)
    requires
        data.is_fresh(thread_id),
    ensures
        data.deadlock_data.thread_id == thread_id,
        data.deadlock_data.resources@.len() == 0,
        !data.deadlock_data.deadlocked,
        data.deadlock_data.backtrace_sender is None,
        !data.parked_with_timeout,
        data.key == 0,
        data.next_in_queue is None,
        data.park_token.0 == 0,
        data.unpark_token.0 == 0,
{
}

impl ParkingLot {
    /// A thread that parks is on record with the key, the token and the timeout that it parks with,
    /// whatever was on record before. Nothing else changes of its record, and nothing of any other
    /// but for the links.
    pub proof fn lemma_parked_record(
        self,
        new: ParkingLot,
        thread: usize,
        key: usize,
        park_token: ParkToken,
        timed: bool,
        t: usize,
    )
        requires
            self.parked(new, thread, key, park_token, timed),
            t < self.threads@.len(),
        ensures
            new.threads@.len() == self.threads@.len(),
            t == thread ==> {
                &&& new.threads@[t as int].key == key
                &&& new.threads@[t as int].park_token == park_token
                &&& new.threads@[t as int].parked_with_timeout == timed
            },
            t != thread ==> {
                &&& new.threads@[t as int].key == self.threads@[t as int].key
                &&& new.threads@[t as int].park_token == self.threads@[t as int].park_token
                &&& new.threads@[t as int].parked_with_timeout
                    == self.threads@[t as int].parked_with_timeout
            },
            new.threads@[t as int].unpark_token == self.threads@[t as int].unpark_token,
            new.threads@[t as int].deadlock_data == self.threads@[t as int].deadlock_data,
    {
    }

    /// What a filter is asked about a thread is the token that the thread last parked with, and it
    /// is asked about that thread after all who were parked on the key before.
    pub proof fn lemma_parked_token(
        self,
        new: ParkingLot,
        thread: usize,
        key: usize,
        park_token: ParkToken,
        timed: bool,
    )
        requires
            self.wf(),
            thread < self.threads@.len(),
            !self.queued(thread),
            self.parked(new, thread, key, park_token, timed),
        ensures
            new.waiters(key).len() == self.waiters(key).len() + 1,
            new.waiters(key).last() == thread,
            new.threads@[new.waiters(key).last() as int].park_token == park_token,
            forall|j: int|
                0 <= j < self.waiters(key).len() ==> {
                    &&& #[trigger] new.waiters(key)[j] == self.waiters(key)[j]
                    &&& new.threads@[new.waiters(key)[j] as int].park_token
                        == self.threads@[self.waiters(key)[j] as int].park_token
                },
    {
        self.lemma_parked(new, thread, key, park_token, timed);
        assert forall|j: int| 0 <= j < self.waiters(key).len() implies {
            &&& #[trigger] new.waiters(key)[j] == self.waiters(key)[j]
            &&& new.threads@[new.waiters(key)[j] as int].park_token
                == self.threads@[self.waiters(key)[j] as int].park_token
        } by {
            let t = self.waiters(key)[j];
            assert(self.waiters(key).contains(t));
            self.lemma_waiters(key, t);
        }
    }

    /// A thread that times out changes no record but for the links.
    pub proof fn lemma_left_record(self, new: ParkingLot, thread: usize, t: usize)
        requires
            self.left(new, thread),
            t < self.threads@.len(),
        ensures
            new.threads@.len() == self.threads@.len(),
            new.threads@[t as int].key == self.threads@[t as int].key,
            new.threads@[t as int].park_token == self.threads@[t as int].park_token,
            new.threads@[t as int].parked_with_timeout
                == self.threads@[t as int].parked_with_timeout,
            new.threads@[t as int].unpark_token == self.threads@[t as int].unpark_token,
            new.threads@[t as int].deadlock_data == self.threads@[t as int].deadlock_data,
    {
    }

    /// Threads that are unparked are given the token, and nobody else is. Nothing else changes of
    /// any record but for the links.
    pub proof fn lemma_unparked_record(
        self,
        new: ParkingLot,
        key: usize,
        gone: Seq<usize>,
        token: UnparkToken,
        t: usize,
    )
        requires
            self.unparked(new, key, gone, token),
            t < self.threads@.len(),
        ensures
            new.threads@.len() == self.threads@.len(),
            gone.contains(t) ==> new.threads@[t as int].unpark_token == token,
            !gone.contains(t) ==> new.threads@[t as int].unpark_token
                == self.threads@[t as int].unpark_token,
            new.threads@[t as int].key == self.threads@[t as int].key,
            new.threads@[t as int].park_token == self.threads@[t as int].park_token,
            new.threads@[t as int].parked_with_timeout
                == self.threads@[t as int].parked_with_timeout,
            new.threads@[t as int].deadlock_data == self.threads@[t as int].deadlock_data,
    {
    }

    /// A deadlocked thread reports its own id, on the channel that it was given, and then has no
    /// channel any more. It stays deadlocked; nothing else changes of its record, and nothing of
    /// any other.
    pub proof fn lemma_reported_record(
        self,
        new: ParkingLot,
        thread: usize,
        channel: usize,
        report: DeadlockedThread,
        t: usize,
    )
        requires
            self.reported(new, thread, channel, report),
            t < self.threads@.len(),
        ensures
            report.thread_id == self.threads@[thread as int].deadlock_data.thread_id,
            self.threads@[thread as int].deadlock_data.deadlocked,
            self.threads@[thread as int].deadlock_data.backtrace_sender == Some(channel),
            new.entries == self.entries,
            new.threads@.len() == self.threads@.len(),
            t != thread ==> new.threads@[t as int] == self.threads@[t as int],
            t == thread ==> {
                &&& new.threads@[t as int].deadlock_data.deadlocked
                &&& new.threads@[t as int].deadlock_data.backtrace_sender is None
                &&& new.threads@[t as int].deadlock_data.thread_id
                    == self.threads@[t as int].deadlock_data.thread_id
                &&& new.threads@[t as int].deadlock_data.resources
                    == self.threads@[t as int].deadlock_data.resources
                &&& new.threads@[t as int].key == self.threads@[t as int].key
                &&& new.threads@[t as int].next_in_queue == self.threads@[t as int].next_in_queue
                &&& new.threads@[t as int].park_token == self.threads@[t as int].park_token
                &&& new.threads@[t as int].unpark_token == self.threads@[t as int].unpark_token
                &&& new.threads@[t as int].parked_with_timeout
                    == self.threads@[t as int].parked_with_timeout
            },
    {
    }

    /// Two threads with different ids make reports with different ids, in whatever order they make
    /// them.
    pub proof fn lemma_reports_differ(
        self,
        between: ParkingLot,
        new: ParkingLot,
        t: usize,
        u: usize,
        channels: (usize, usize),
        reports: (DeadlockedThread, DeadlockedThread),
    )
        requires
            t < self.threads@.len(),
            u < self.threads@.len(),
            t != u,
            self.threads@[t as int].deadlock_data.thread_id
                != self.threads@[u as int].deadlock_data.thread_id,
            self.reported(between, t, channels.0, reports.0),
            between.reported(new, u, channels.1, reports.1),
        ensures
            reports.0.thread_id != reports.1.thread_id,
            reports.0.thread_id == self.threads@[t as int].deadlock_data.thread_id,
            reports.1.thread_id == self.threads@[u as int].deadlock_data.thread_id,
    {
    }

    /// A thread makes one report for each time that it is told where: once it has reported, it
    /// cannot report again.
    pub proof fn lemma_report_once(
        self,
        between: ParkingLot,
        new: ParkingLot,
        thread: usize,
        channels: (usize, usize),
        reports: (DeadlockedThread, DeadlockedThread),
    )
        requires
            self.reported(between, thread, channels.0, reports.0),
        ensures
            !between.reported(new, thread, channels.1, reports.1),
    {
    }

    /// Where one thread is concerned, the queues and the records of all others stay as they are.
    pub proof fn lemma_one_concerned(self, new: ParkingLot, thread: usize, t: usize, b: int)
        requires
            self.same_but_thread(new, thread),
            t < self.threads@.len(),
            t != thread,
            0 <= b < self.entries@.len(),
        ensures
            new.threads@.len() == self.threads@.len(),
            new.threads@[t as int] == self.threads@[t as int],
            new.entries@.len() == self.entries@.len(),
            new.entries@[b] == self.entries@[b],
    {
    }

    /// Acquiring and releasing change the resources of the one thread and nothing else.
    pub proof fn lemma_resources_record(self, new: ParkingLot, thread: usize, t: usize)
        requires
            self.same_but_thread(new, thread),
            self.threads@[thread as int].same_but_resources(new.threads@[thread as int]),
            t < self.threads@.len(),
        ensures
            new.entries == self.entries,
            new.threads@.len() == self.threads@.len(),
            t != thread ==> new.threads@[t as int] == self.threads@[t as int],
            new.threads@[t as int].key == self.threads@[t as int].key,
            new.threads@[t as int].next_in_queue == self.threads@[t as int].next_in_queue,
            new.threads@[t as int].park_token == self.threads@[t as int].park_token,
            new.threads@[t as int].unpark_token == self.threads@[t as int].unpark_token,
            new.threads@[t as int].parked_with_timeout
                == self.threads@[t as int].parked_with_timeout,
            new.threads@[t as int].deadlock_data.deadlocked
                == self.threads@[t as int].deadlock_data.deadlocked,
            new.threads@[t as int].deadlock_data.backtrace_sender
                == self.threads@[t as int].deadlock_data.backtrace_sender,
            new.threads@[t as int].deadlock_data.thread_id
                == self.threads@[t as int].deadlock_data.thread_id,
    {
    }

    /// A thread that was found deadlocked is known to be so for good.
    pub proof fn lemma_mark_kept(self, new: ParkingLot, t: usize)
        requires
            self.keeps_marks(new),
            t < self.threads@.len(),
            self.threads@[t as int].deadlock_data.deadlocked,
        ensures
            t < new.threads@.len(),
            new.threads@[t as int].deadlock_data.deadlocked,
    {
    }

    /// A bucket is followed from its first thread to its last through the links of the records.
    pub proof fn lemma_links(self, b: int, i: int)
        requires
            self.wf(),
            0 <= b < self.entries@.len(),
            0 <= i < self.entries@[b].queue@.len(),
        ensures
            self.entries@[b].queue_head == Some(self.entries@[b].queue@[0]),
            self.entries@[b].queue_tail == Some(self.entries@[b].queue@.last()),
            self.entries@[b].queue@[i] < self.threads@.len(),
            i + 1 < self.entries@[b].queue@.len()
                ==> self.threads@[self.entries@[b].queue@[i] as int].next_in_queue == Some(
                self.entries@[b].queue@[i + 1],
            ),
            i + 1 == self.entries@[b].queue@.len()
                ==> self.threads@[self.entries@[b].queue@[i] as int].next_in_queue is None,
    {
        assert(self.entries@[b].linked(self.threads@));
        let queue = self.entries@[b].queue@;
        assert(self.threads@[queue[i] as int].next_in_queue == thread_at(
            queue,
            i + 1,
        ));
    }

    /// An empty bucket has neither a first thread nor a last.
    pub proof fn lemma_empty_bucket(self, b: int)
        requires
            self.wf(),
            0 <= b < self.entries@.len(),
            self.entries@[b].queue@.len() == 0,
        ensures
            self.entries@[b].queue_head is None,
            self.entries@[b].queue_tail is None,
    {
        assert(self.entries@[b].linked(self.threads@));
    }

    /// A thread is parked if it stands in some bucket, and waits on a key if it is parked and that
    /// is the key on its record; it stands in one bucket at most, and there once. Nobody waits on
    /// the key exactly where no parked thread has it on record.
    pub proof fn lemma_who_waits(self, key: usize, t: usize)
        requires
            self.wf(),
        ensures
            self.queued(t) <==> exists|b: int|
                0 <= b < self.entries@.len() && (#[trigger] self.entries@[b]).queue@.contains(t),
            self.waiters(key).contains(t) <==> self.queued(t) && self.threads@[t as int].key == key,
            self.waiters(key).no_duplicates(),
            self.queued(t) ==> t < self.threads@.len(),
            self.waiters(key).len() == 0 <==> forall|u: usize|
                #![trigger self.queued(u)]
                self.queued(u) ==> self.threads@[u as int].key != key,
    {
        self.lemma_waiters(key, t);
        if self.queued(t) {
            let b = choose|b: int|
                0 <= b < self.entries@.len() && #[trigger] self.queue(b).contains(t);
            assert(self.entries@[b].queue@.contains(t));
            self.lemma_waiters(self.key(t), t);
        }
        if exists|b: int|
            0 <= b < self.entries@.len() && (#[trigger] self.entries@[b]).queue@.contains(t) {
            let b = choose|b: int|
                0 <= b < self.entries@.len() && (#[trigger] self.entries@[b]).queue@.contains(t);
            assert(self.queue(b).contains(t));
        }
        if self.waiters(key).len() == 0 {
            assert forall|u: usize| #![trigger self.queued(u)] self.queued(u) implies self.threads@[
                u as int
            ].key != key by {
                self.lemma_waiters(key, u);
            }
        } else {
            let u = self.waiters(key)[0];
            assert(self.waiters(key).contains(u));
            self.lemma_waiters(key, u);
        }
    }

    /// Two threads stand in the order in which they parked, also where others with other keys stand
    /// in between: who waits on a key are the threads of a bucket that have it, in the order of the
    /// bucket.
    pub proof fn lemma_waiters_order(self, key: usize, i: int, j: int) -> (r: (int, int))
        requires
            self.wf(),
            0 <= i < j < self.waiters(key).len(),
        ensures
            0 <= r.0 < r.1 < self.queue(self.bucket(key)).len(),
            self.queue(self.bucket(key))[r.0] == self.waiters(key)[i],
            self.queue(self.bucket(key))[r.1] == self.waiters(key)[j],
    {
        lemma_bucket_of(key, self.entries@.len());
        lemma_filter_order(self.queue(self.bucket(key)), self.waits_on(key), i, j)
    }
}

/// When threads leave a queue, those stay that are not among them, and no others.
pub proof fn lemma_who_stays(queue: Seq<usize>, gone: Seq<usize>, t: usize)
    ensures
        without(queue, gone).contains(t) <==> queue.contains(t) && !gone.contains(t),
{
    lemma_filter_contains(queue, absent_from(gone), t);
}

/// When threads leave a queue, those that stay keep their order: nobody overtakes another.
pub proof fn lemma_nobody_overtakes(
    queue: Seq<usize>,
    gone: Seq<usize>,
    i: int,
    j: int,
) -> (r: (int, int))
    requires
        0 <= i < j < without(queue, gone).len(),
    ensures
        0 <= r.0 < r.1 < queue.len(),
        queue[r.0] == without(queue, gone)[i],
        queue[r.1] == without(queue, gone)[j],
{
    lemma_filter_order(queue, absent_from(gone), i, j)
}

/// Filtering keeps items in order.
pub proof fn lemma_filter_order(
    s: Seq<usize>,
    p: spec_fn(usize) -> bool,
    i: int,
    j: int,
) -> (r: (int, int))
    requires
        0 <= i < j < s.filter(p).len(),
    ensures
        0 <= r.0 < r.1 < s.len(),
        s[r.0] == s.filter(p)[i],
        s[r.1] == s.filter(p)[j],
    decreases s.len(),
{
    reveal(Seq::filter);
    let front = s.drop_last();
    let kept = front.filter(p);
    if j < kept.len() {
        lemma_filter_order(front, p, i, j)
    } else {
        assert(kept.contains(kept[i]));
        lemma_filter_contains(front, p, kept[i]);
        let a = choose|a: int| 0 <= a < front.len() && front[a] == kept[i];
        (a, s.len() - 1)
    }
}

} // verus!
