//! Which threads are deadlocked, in terms of their records, and how the operations bear on it.

use crate::bucket::ParkingLot;
use crate::ring::after;
use crate::tokens::{ParkToken, UnparkToken};
use vstd::prelude::*;

verus! {

impl ParkingLot {
    /// A thread is blocked if it is parked, has no timeout and was not found deadlocked before.
    /// What else is on its record does not matter.
    pub proof fn lemma_blocked(self, t: usize)
        ensures
            self.blocked(t) <==> self.queued(t) && !self.threads@[t as int].parked_with_timeout
                && !self.threads@[t as int].deadlock_data.deadlocked,
    {
    }

    /// Threads form a ring if each is parked without a timeout, was not found deadlocked before,
    /// and waits on a key that the next one has among its resources; the first is next to the last.
    pub proof fn lemma_ring(self, c: Seq<usize>)
        ensures
            self.is_ring(c) <==> {
                &&& c.len() > 0
                &&& forall|i: int|
                    #![trigger c[i]]
                    0 <= i < c.len() ==> {
                        &&& self.queued(c[i])
                        &&& !self.threads@[c[i] as int].parked_with_timeout
                        &&& !self.threads@[c[i] as int].deadlock_data.deadlocked
                    }
                &&& forall|i: int, j: int|
                    #![trigger c[i], c[j]]
                    0 <= i < c.len() && (j == i + 1 && j < c.len() || j == 0 && i + 1 == c.len())
                        ==> self.threads@[c[j] as int].deadlock_data.resources@.contains(
                        self.threads@[c[i] as int].key,
                    )
            },
    {
        let n = c.len() as int;
        assert forall|i: int| 0 <= i < n implies #[trigger] self.ring_at(c, i) == (self.blocked(
            c[i],
        ) && self.blocked(c[after(i, n)]) && self.threads@[c[after(
            i,
            n,
        )] as int].deadlock_data.resources@.contains(self.threads@[c[i] as int].key)) by {}
        if self.is_ring(c) {
            assert forall|i: int| #![trigger c[i]] 0 <= i < n implies self.blocked(c[i]) by {
                assert(self.ring_at(c, i));
            }
            assert forall|i: int, j: int|
                #![trigger c[i], c[j]]
                0 <= i < n && (j == i + 1 && j < n || j == 0 && i + 1 == n) implies self.threads@[
                c[j] as int
            ].deadlock_data.resources@.contains(self.threads@[c[i] as int].key) by {
                assert(self.ring_at(c, i));
            }
        }
    }

    /// There is a deadlock exactly where some threads form a ring.
    pub proof fn lemma_has_ring_of(self, c: Seq<usize>)
        ensures
            self.is_ring(c) ==> self.has_ring(),
            self.has_ring() ==> exists|r: Seq<usize>| self.is_ring(r),
    {
    }

    /// What is listed are the rings that come to no key twice, each from its smallest thread on,
    /// and none twice.
    pub proof fn lemma_listed(self, cycles: Seq<Seq<usize>>, c: Seq<usize>)
        requires
            self.lists_deadlocks(cycles),
        ensures
            cycles.contains(c) <==> {
                &&& self.is_ring(c)
                &&& forall|i: int|
                    0 <= i < c.len() ==> c[0] <= #[trigger] c[i]
                &&& forall|i: int, j: int|
                    0 <= i < j < c.len() ==> self.threads@[#[trigger] c[i] as int].key
                        != self.threads@[#[trigger] c[j] as int].key
            },
            forall|i: int, j: int|
                0 <= i < j < cycles.len() ==> #[trigger] cycles[i] != #[trigger] cycles[j],
    {
        if self.is_ring(c) && (forall|i: int, j: int|
            0 <= i < j < c.len() ==> self.threads@[#[trigger] c[i] as int].key
                != self.threads@[#[trigger] c[j] as int].key) {
            assert forall|i: int, j: int|
                0 <= i < c.len() && 0 <= j < c.len() && i != j implies self.key(#[trigger] c[i])
                != self.key(#[trigger] c[j]) by {
                if i < j {
                    assert(self.threads@[c[i] as int].key != self.threads@[c[j] as int].key);
                } else {
                    assert(self.threads@[c[j] as int].key != self.threads@[c[i] as int].key);
                }
            }
        }
        if self.is_deadlock(c) {
            assert forall|i: int, j: int| 0 <= i < j < c.len() implies self.threads@[
                #[trigger] c[i] as int
            ].key != self.threads@[#[trigger] c[j] as int].key by {
                assert(self.key(c[i]) != self.key(c[j]));
            }
        }
        assert(cycles.contains(c) <==> self.is_deadlock(c));
    }

    /// Two threads that are parked without a timeout, each on a key that the other has acquired,
    /// are deadlocked, and are listed.
    pub proof fn lemma_two_deadlocked(self, cycles: Seq<Seq<usize>>, t: usize, u: usize)
        requires
            self.queued(t),
            self.queued(u),
            t < u,
            !self.threads@[t as int].parked_with_timeout,
            !self.threads@[u as int].parked_with_timeout,
            !self.threads@[t as int].deadlock_data.deadlocked,
            !self.threads@[u as int].deadlock_data.deadlocked,
            self.threads@[t as int].key != self.threads@[u as int].key,
            self.threads@[t as int].deadlock_data.resources@.contains(self.threads@[u as int].key),
            self.threads@[u as int].deadlock_data.resources@.contains(self.threads@[t as int].key),
            self.lists_deadlocks(cycles),
        ensures
            self.has_ring(),
            cycles.contains(seq![t, u]),
    {
        let c = seq![t, u];
        assert(self.ring_at(c, 0));
        assert(self.ring_at(c, 1));
        assert(self.is_ring(c));
        assert(self.distinct_keys(c));
        assert(self.is_deadlock(c));
        assert(cycles.contains(c));
    }

    /// A thread that is parked without a timeout on a key that it has acquired itself is
    /// deadlocked, and is listed.
    pub proof fn lemma_self_deadlocked(self, cycles: Seq<Seq<usize>>, t: usize)
        requires
            self.queued(t),
            !self.threads@[t as int].parked_with_timeout,
            !self.threads@[t as int].deadlock_data.deadlocked,
            self.threads@[t as int].deadlock_data.resources@.contains(self.threads@[t as int].key),
            self.lists_deadlocks(cycles),
        ensures
            self.has_ring(),
            cycles.contains(seq![t]),
    {
        let c = seq![t];
        assert(self.ring_at(c, 0));
        assert(self.is_ring(c));
        assert(self.is_deadlock(c));
        assert(cycles.contains(c));
    }

    /// Which rings there are once a thread has parked. The thread counts if it parked without a
    /// timeout, with the key that it parked on; whatever token it parked with.
    pub proof fn lemma_parked_ring(
        self,
        new: ParkingLot,
        thread: usize,
        key: usize,
        park_token: ParkToken,
        timed: bool,
        c: Seq<usize>,
    )
        requires
            self.wf(),
            thread < self.threads@.len(),
            !self.queued(thread),
            self.parked(new, thread, key, park_token, timed),
        ensures
            new.is_ring(c) <==> {
                &&& c.len() > 0
                &&& forall|i: int|
                    #![trigger c[i]]
                    0 <= i < c.len() ==> {
                        &&& c[i] == thread || self.queued(c[i])
                        &&& !self.threads@[c[i] as int].deadlock_data.deadlocked
                        &&& !(if c[i] == thread {
                            timed
                        } else {
                            self.threads@[c[i] as int].parked_with_timeout
                        })
                    }
                &&& forall|i: int, j: int|
                    #![trigger c[i], c[j]]
                    0 <= i < c.len() && (j == i + 1 && j < c.len() || j == 0 && i + 1 == c.len())
                        ==> self.threads@[c[j] as int].deadlock_data.resources@.contains(
                        if c[i] == thread {
                            key
                        } else {
                            self.threads@[c[i] as int].key
                        },
                    )
            },
    {
        new.lemma_ring(c);
        self.lemma_parked(new, thread, key, park_token, timed);
        assert forall|t: usize| #[trigger] new.queued(t) implies t < self.threads@.len() && (t
            == thread || self.queued(t)) by {
            if self.queued(t) {
                self.lemma_waiters(self.key(t), t);
            }
        }
        assert forall|i: int| #![trigger c[i]] 0 <= i < c.len() implies (new.queued(c[i]) <==> c[i]
            == thread || self.queued(c[i])) by {}
        assert forall|t: usize| t < self.threads@.len() implies #[trigger] new.threads@[
            t as int
        ].deadlock_data == self.threads@[t as int].deadlock_data by {
            self.lemma_parked_record(new, thread, key, park_token, timed, t);
        }
    }

    /// Threads that are unparked are in no ring any more, and the other rings stay.
    pub proof fn lemma_unparked_ring(
        self,
        new: ParkingLot,
        key: usize,
        gone: Seq<usize>,
        token: UnparkToken,
        c: Seq<usize>,
    )
        requires
            self.wf(),
            self.unparked(new, key, gone, token),
            forall|j: int| 0 <= j < gone.len() ==> self.waiters(key).contains(#[trigger] gone[j]),
        ensures
            new.is_ring(c) <==> self.is_ring(c) && forall|i: int|
                0 <= i < c.len() ==> !gone.contains(#[trigger] c[i]),
    {
        self.lemma_thinned(new, key, gone);
        self.lemma_ring_kept(new, c, gone);
    }

    /// Where the threads `out` stop to be blocked and nothing else changes that matters, those
    /// rings stay that they are not part of.
    proof fn lemma_ring_kept(self, new: ParkingLot, c: Seq<usize>, out: Seq<usize>)
        requires
            self.wf(),
            new.threads@.len() == self.threads@.len(),
            forall|t: usize|
                #![trigger new.blocked(t)]
                #![trigger self.blocked(t)]
                new.blocked(t) <==> self.blocked(t) && !out.contains(t),
            forall|t: int|
                0 <= t < self.threads@.len() ==> (#[trigger] new.threads@[t]).key
                    == self.threads@[t].key && new.threads@[t].deadlock_data.resources@
                    == self.threads@[t].deadlock_data.resources@,
        ensures
            new.is_ring(c) <==> self.is_ring(c) && forall|i: int|
                0 <= i < c.len() ==> !out.contains(#[trigger] c[i]),
    {
        assert forall|t: usize| #[trigger] self.blocked(t) implies t < self.threads@.len() by {
            self.lemma_waiters(self.key(t), t);
        }
        if new.is_ring(c) {
            assert forall|i: int| 0 <= i < c.len() implies #[trigger] self.ring_at(c, i) by {
                assert(new.ring_at(c, i));
            }
            assert forall|i: int| 0 <= i < c.len() implies !out.contains(#[trigger] c[i]) by {
                assert(new.ring_at(c, i));
                assert(new.blocked(c[i]));
            }
        }
        if self.is_ring(c) && forall|i: int| 0 <= i < c.len() ==> !out.contains(#[trigger] c[i]) {
            assert forall|i: int| 0 <= i < c.len() implies #[trigger] new.ring_at(c, i) by {
                assert(self.ring_at(c, i));
                assert(!out.contains(c[i]));
                assert(!out.contains(c[after(i, c.len() as int)]));
                assert(new.blocked(c[i]));
            }
        }
    }

    /// Marking threads as deadlocked ends every deadlock that they are part of, and leaves the
    /// others: what was found and marked is not found again, and what was not marked still is.
    pub proof fn lemma_marked_deadlock(
        self,
        new: ParkingLot,
        cycle: Seq<usize>,
        channel: usize,
        c: Seq<usize>,
    )
        requires
            self.wf(),
            self.marked(new, cycle, channel),
        ensures
            new.is_ring(c) <==> self.is_ring(c) && forall|i: int|
                0 <= i < c.len() ==> !cycle.contains(#[trigger] c[i]),
            new.is_deadlock(c) <==> self.is_deadlock(c) && forall|i: int|
                0 <= i < c.len() ==> !cycle.contains(#[trigger] c[i]),
            cycle.len() > 0 ==> !new.is_deadlock(cycle),
            forall|t: usize|
                t < self.threads@.len() && #[trigger] cycle.contains(t)
                    ==> new.threads@[t as int].deadlock_data.deadlocked && !new.blocked(t),
    {
        self.lemma_wf_kept(new);
        assert forall|t: usize|
            #![trigger new.blocked(t)]
            #![trigger self.blocked(t)]
            new.blocked(t) <==> self.blocked(t) && !cycle.contains(t) by {
            if self.queued(t) {
                self.lemma_waiters(self.key(t), t);
                assert(self.queued(t) == new.queued(t));
                assert(new.threads@[t as int] == new.threads@[t as int]);
            }
        }
        self.lemma_ring_kept(new, c, cycle);
        if self.is_ring(c) {
            assert forall|i: int| 0 <= i < c.len() implies self.key(#[trigger] c[i]) == new.key(
                c[i],
            ) by {
                assert(self.ring_at(c, i));
                self.lemma_waiters(self.key(c[i]), c[i]);
            }
        }
        if self.is_ring(c) && new.is_ring(c) {
            assert(self.distinct_keys(c) == new.distinct_keys(c)) by {
                if self.distinct_keys(c) {
                    assert forall|i: int, j: int|
                        0 <= i < c.len() && 0 <= j < c.len() && i != j implies new.key(
                        #[trigger] c[i],
                    ) != new.key(#[trigger] c[j]) by {
                        assert(self.key(c[i]) != self.key(c[j]));
                    }
                }
                if new.distinct_keys(c) {
                    assert forall|i: int, j: int|
                        0 <= i < c.len() && 0 <= j < c.len() && i != j implies self.key(
                        #[trigger] c[i],
                    ) != self.key(#[trigger] c[j]) by {
                        assert(new.key(c[i]) != new.key(c[j]));
                    }
                }
            }
        }
        if cycle.len() > 0 && new.is_deadlock(cycle) {
            assert(new.ring_at(cycle, 0));
            assert(new.blocked(cycle[0]));
            assert(cycle.contains(cycle[0]));
        }
    }

    /// Once all deadlocks that are listed have been marked, there is none left.
    pub proof fn lemma_all_marked(
        self,
        cycles: Seq<Seq<usize>>,
        new: ParkingLot,
        later: Seq<Seq<usize>>,
    )
        requires
            self.wf(),
            self.lists_deadlocks(cycles),
            new.threads@.len() == self.threads@.len(),
            new.entries == self.entries,
            forall|t: int|
                0 <= t < self.threads@.len() ==> (#[trigger] new.threads@[t]).key
                    == self.threads@[t].key && new.threads@[t].parked_with_timeout
                    == self.threads@[t].parked_with_timeout
                    && new.threads@[t].deadlock_data.resources@
                    == self.threads@[t].deadlock_data.resources@,
            self.keeps_marks(new),
            forall|k: int, t: usize|
                0 <= k < cycles.len() && #[trigger] cycles[k].contains(t)
                    ==> new.threads@[t as int].deadlock_data.deadlocked,
            new.lists_deadlocks(later),
        ensures
            !new.has_ring(),
            later.len() == 0,
    {
        if new.has_ring() {
            let c = choose|c: Seq<usize>| new.is_ring(c);
            assert forall|t: usize| #[trigger] new.queued(t) implies self.queued(t) by {
                let b = choose|b: int|
                    0 <= b < new.entries@.len() && #[trigger] new.queue(b).contains(t);
                assert(self.queue(b).contains(t));
            }
            assert forall|t: usize| #[trigger] new.blocked(t) implies self.blocked(t) && t
                < self.threads@.len() by {
                assert(self.queued(t));
                self.lemma_waiters(self.key(t), t);
                assert(new.threads@[t as int].parked_with_timeout
                    == self.threads@[t as int].parked_with_timeout);
            }
            assert(self.is_ring(c)) by {
                assert forall|i: int| 0 <= i < c.len() implies #[trigger] self.ring_at(c, i) by {
                    assert(new.ring_at(c, i));
                    assert(new.blocked(c[i]));
                    assert(new.blocked(c[after(i, c.len() as int)]));
                }
            }
            let r = self.lemma_ring_deadlock(c);
            assert(cycles.contains(r));
            let k = choose|k: int| 0 <= k < cycles.len() && cycles[k] == r;
            assert(r.contains(r[0]));
            assert(cycles[k].contains(r[0]));
            assert(c.contains(r[0]));
            let i = choose|i: int| 0 <= i < c.len() && c[i] == r[0];
            assert(new.ring_at(c, i));
        }
        new.lemma_some_listed(later);
    }
}

} // verus!
