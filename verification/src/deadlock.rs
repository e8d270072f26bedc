//! Finding deadlocks among the parked threads, and reporting them.

use crate::bucket::{lemma_filter_none, lemma_filter_step, lemma_push_contains, ParkingLot};
use crate::cycle::normalized;
use crate::ring::meet;
use crate::search::rposition;
use crate::thread_data::ThreadData;
use crate::wait_edges::build_wait_graph;
use crate::wait_graph::{cycle_list, graph_cycles};
use backtrace::Backtrace;
use vstd::prelude::*;

verus! {

/// `backtrace::Backtrace`, an owned backtrace.
#[verifier::external_type_specification]
#[verifier::external_body]
pub struct ExBacktrace(backtrace::Backtrace);

/// `Backtrace::new`: the backtrace of the calling thread. What it holds depends on where it is
/// called from, so nothing is said of it.
#[verifier::external_body]
fn capture_backtrace() -> (backtrace: Backtrace) {
    Backtrace::new()
}

/// Representation of a deadlocked thread
pub struct DeadlockedThread {
    /// The system thread id.
    pub thread_id: u64,
    /// The thread backtrace.
    pub backtrace: Backtrace,
}

impl DeadlockedThread {
    /// The system thread id
    pub fn thread_id(&self) -> (r: u64)
        ensures
            r == self.thread_id,
    {
        self.thread_id
    }

    /// The thread backtrace
    pub fn backtrace(&self) -> (r: &Backtrace)
        ensures
            *r == self.backtrace,
    {
        &self.backtrace
    }
}

/// Records that a thread has acquired the resource with the given key.
pub fn acquire_resource(lot: &mut ParkingLot, thread: usize, key: usize)
    requires
        old(lot).wf(),
        thread < old(lot).threads@.len(),
    ensures
        final(lot).wf(),
        old(lot).keeps_marks(*final(lot)),
        old(lot).same_but_thread(*final(lot), thread),
        old(lot).threads@[thread as int].same_but_resources(final(lot).threads@[thread as int]),
        final(lot).resources(thread) == old(lot).resources(thread).push(key),
        final(lot).threads@[thread as int].deadlock_data.resources@ == old(
            lot,
        ).threads@[thread as int].deadlock_data.resources@.push(key),
{
    lot.threads[thread].deadlock_data.resources.push(key);
    proof {
        old(lot).lemma_wf_kept(*lot);
    }
}

/// What is left of `resources` once `key` is released: its last occurrence goes, and the last item
/// takes its place. Nothing changes if it does not occur.
pub open spec fn released(resources: Seq<usize>, key: usize) -> Seq<usize> {
    if resources.contains(key) {
        let p = resources.index_of_last(key).unwrap();
        resources.update(p, resources.last()).drop_last()
    } else {
        resources
    }
}

/// Records that a thread has released the resource with the given key. A resource that the thread
/// does not own is ignored.
pub fn release_resource(lot: &mut ParkingLot, thread: usize, key: usize)
    requires
        old(lot).wf(),
        thread < old(lot).threads@.len(),
    ensures
        final(lot).wf(),
        old(lot).keeps_marks(*final(lot)),
        old(lot).same_but_thread(*final(lot), thread),
        old(lot).threads@[thread as int].same_but_resources(final(lot).threads@[thread as int]),
        final(lot).resources(thread) == released(old(lot).resources(thread), key),
        final(lot).threads@[thread as int].deadlock_data.resources@.to_multiset() == old(
            lot,
        ).threads@[thread as int].deadlock_data.resources@.to_multiset().remove(key),
{
    let found = rposition(&lot.threads[thread].deadlock_data.resources, key);
    if let Some(p) = found {
        proof {
            let resources = lot.resources(thread);
            assert(resources[p as int] == key);
            resources.index_of_last_ensures(key);
        }
        lot.threads[thread].deadlock_data.resources.swap_remove(p);
    }
    proof {
        old(lot).lemma_wf_kept(*lot);
        lemma_release_removes_one(old(lot).resources(thread), key);
    }
}

/// What releasing does: where the resource is not owned, nothing; else its last entry goes, and the
/// last of all entries takes its place.
pub proof fn lemma_released(resources: Seq<usize>, key: usize, p: int)
    requires
        0 <= p < resources.len(),
        resources[p] == key,
        forall|j: int| p < j < resources.len() ==> #[trigger] resources[j] != key,
    ensures
        released(resources, key).len() == resources.len() - 1,
        forall|j: int|
            0 <= j < resources.len() - 1 ==> #[trigger] released(resources, key)[j] == (if j == p {
                resources.last()
            } else {
                resources[j]
            }),
{
    resources.index_of_last_ensures(key);
    let q = resources.index_of_last(key).unwrap();
    assert(resources[q] == key);
    assert(q == p);
}

/// Releasing a resource that is not owned changes nothing.
pub proof fn lemma_released_unowned(resources: Seq<usize>, key: usize)
    requires
        !resources.contains(key),
    ensures
        released(resources, key) == resources,
{
}

/// Releasing what was acquired last undoes the acquisition.
pub proof fn lemma_release_undoes_acquire(resources: Seq<usize>, key: usize)
    ensures
        released(resources.push(key), key) == resources,
{
    let more = resources.push(key);
    assert(more[resources.len() as int] == key);
    more.index_of_last_ensures(key);
    let p = more.index_of_last(key).unwrap();
    assert(p == resources.len());
    assert(more.update(p, more.last()).drop_last() =~= resources);
}

/// Releasing a resource removes one entry of it and no other.
pub proof fn lemma_release_removes_one(resources: Seq<usize>, key: usize)
    ensures
        released(resources, key).to_multiset() == resources.to_multiset().remove(key),
{
    if resources.contains(key) {
        resources.index_of_last_ensures(key);
        let p = resources.index_of_last(key).unwrap();
        let n = resources.len() - 1;
        let filled = resources.update(p, resources.last());
        broadcast use vstd::seq_lib::group_to_multiset_ensures;

        assert(filled.drop_last().push(filled.last()) =~= filled);
        assert(filled.last() == resources.last());
        assert(resources.drop_last().push(resources.last()) =~= resources);
        if p == n {
            assert(filled =~= resources);
            assert(released(resources, key).to_multiset() =~= resources.to_multiset().remove(key));
        } else {
            let front = resources.drop_last();
            assert(filled.drop_last() =~= front.update(p, resources.last()));
            assert(released(resources, key).to_multiset() =~= resources.to_multiset().remove(key));
        }
    } else {
        broadcast use vstd::seq_lib::group_to_multiset_ensures;

        assert(resources.to_multiset().remove(key) =~= resources.to_multiset());
    }
}

/// The report of a deadlocked thread, with the backtrace that it took.
pub fn deadlock_report(data: &ThreadData, backtrace: Backtrace) -> (report: DeadlockedThread)
    ensures
        report.thread_id == data.deadlock_data.thread_id,
        report.backtrace == backtrace,
{
    DeadlockedThread { thread_id: data.deadlock_data.thread_id, backtrace }
}

impl ParkingLot {
    /// Whether `new` is this parking lot after `thread`, which had been found deadlocked, has made
    /// its report and has been given the channel to send it on, which it then keeps no longer.
    pub open spec fn reported(
        self,
        new: ParkingLot,
        thread: usize,
        channel: usize,
        report: DeadlockedThread,
    ) -> bool {
        let was = self.threads@[thread as int];
        let now = new.threads@[thread as int];
        &&& was.deadlock_data.deadlocked
        &&& was.deadlock_data.backtrace_sender == Some(channel)
        &&& report.thread_id == was.deadlock_data.thread_id
        &&& self.same_but_thread(new, thread)
        &&& was.same_but_deadlock_data(now)
        &&& now.deadlock_data.resources == was.deadlock_data.resources
        &&& now.deadlock_data.deadlocked
        &&& now.deadlock_data.backtrace_sender == None::<usize>
        &&& now.deadlock_data.thread_id == was.deadlock_data.thread_id
    }
}

/// What a thread that parked without a timeout does when it wakes up. If it has been found
/// deadlocked, it gives the channel and the report that it is to send there once; the caller then
/// closes the channel and sleeps until the end of time. Which frames the report's backtrace has
/// depends on where this is called from.
pub fn on_unpark(lot: &mut ParkingLot, thread: usize) -> (r: Option<(usize, DeadlockedThread)>)
    requires
        old(lot).wf(),
        thread < old(lot).threads@.len(),
        old(lot).threads@[thread as int].deadlock_data.deadlocked ==> old(
            lot,
        ).threads@[thread as int].deadlock_data.backtrace_sender is Some,
    ensures
        final(lot).wf(),
        old(lot).keeps_marks(*final(lot)),
        match r {
            None => {
                &&& !old(lot).threads@[thread as int].deadlock_data.deadlocked
                &&& *final(lot) == *old(lot)
            },
            Some((channel, report)) => old(lot).reported(*final(lot), thread, channel, report),
        },
        r matches Some((channel, report)) ==> {
            let data = old(lot).threads@[thread as int].deadlock_data;
            report.thread_id == data.thread_id && data.backtrace_sender == Some(channel)
        },
{
    if lot.threads[thread].deadlock_data.deadlocked {
        let channel = lot.threads[thread].deadlock_data.backtrace_sender.unwrap();
        lot.threads[thread].deadlock_data.backtrace_sender = None;
        proof {
            old(lot).lemma_wf_kept(*lot);
        }
        let report = deadlock_report(&lot.threads[thread], capture_backtrace());
        Some((channel, report))
    } else {
        None
    }
}

/// Those threads of a cycle that have not been found deadlocked yet, as part of another cycle. They
/// are the ones to mark and to wake up; the others have made their reports.
pub fn not_yet_deadlocked(lot: &ParkingLot, cycle: &Vec<usize>) -> (r: Vec<usize>)
    requires
        forall|i: int| 0 <= i < cycle@.len() ==> #[trigger] cycle@[i] < lot.threads@.len(),
    ensures
        r@ == cycle@.filter(|t: usize| !lot.threads@[t as int].deadlock_data.deadlocked),
{
    let ghost pred = |t: usize| !lot.threads@[t as int].deadlock_data.deadlocked;
    let mut threads: Vec<usize> = Vec::new();
    let mut i: usize = 0;
    proof {
        lemma_filter_none(cycle@, pred);
    }
    while i < cycle.len()
        invariant
            i <= cycle@.len(),
            forall|i: int| 0 <= i < cycle@.len() ==> #[trigger] cycle@[i] < lot.threads@.len(),
            pred == (|t: usize| !lot.threads@[t as int].deadlock_data.deadlocked),
            threads@ == cycle@.take(i as int).filter(pred),
        decreases cycle@.len() - i,
    {
        proof {
            lemma_filter_step(cycle@, i as int, pred);
        }
        if !lot.threads[cycle[i]].deadlock_data.deadlocked {
            threads.push(cycle[i]);
        }
        i = i + 1;
    }
    assert(cycle@.take(i as int) == cycle@);
    threads
}

impl ParkingLot {
    /// Whether `new` is this parking lot after the threads of `cycle` have been marked as
    /// deadlocked, to report on `channel`.
    pub open spec fn marked(self, new: ParkingLot, cycle: Seq<usize>, channel: usize) -> bool {
        &&& new.entries == self.entries
        &&& new.threads@.len() == self.threads@.len()
        &&& forall|t: int|
            0 <= t < self.threads@.len() ==> if cycle.contains(t as usize) {
                self.threads@[t].marked_as(#[trigger] new.threads@[t], channel)
            } else {
                new.threads@[t] == self.threads@[t]
            }
    }
}

/// Marks the threads of a cycle as deadlocked, and has them report on the given channel. The caller
/// then wakes them up.
pub fn mark_deadlocked(lot: &mut ParkingLot, cycle: &Vec<usize>, channel: usize)
    requires
        old(lot).wf(),
        forall|i: int| 0 <= i < cycle@.len() ==> #[trigger] cycle@[i] < old(lot).threads@.len(),
    ensures
        final(lot).wf(),
        old(lot).keeps_marks(*final(lot)),
        final(lot).entries == old(lot).entries,
        final(lot).threads@.len() == old(lot).threads@.len(),
        forall|t: int|
            0 <= t < old(lot).threads@.len() ==> if cycle@.contains(t as usize) {
                old(lot).threads@[t].marked_as(#[trigger] final(lot).threads@[t], channel)
            } else {
                final(lot).threads@[t] == old(lot).threads@[t]
            },
        old(lot).marked(*final(lot), cycle@, channel),
        forall|i: int|
            0 <= i < cycle@.len() ==> {
                let data = final(lot).threads@[#[trigger] cycle@[i] as int].deadlock_data;
                data.deadlocked && data.backtrace_sender == Some(channel)
            },
{
    let ghost before = *lot;
    let mut i: usize = 0;
    while i < cycle.len()
        invariant
            i <= cycle@.len(),
            before.wf(),
            forall|i: int| 0 <= i < cycle@.len() ==> #[trigger] cycle@[i] < before.threads@.len(),
            lot.entries == before.entries,
            lot.threads@.len() == before.threads@.len(),
            forall|t: int|
                0 <= t < before.threads@.len() ==> if cycle@.take(i as int).contains(t as usize) {
                    before.threads@[t].marked_as(#[trigger] lot.threads@[t], channel)
                } else {
                    lot.threads@[t] == before.threads@[t]
                },
        decreases cycle@.len() - i,
    {
        let thread = cycle[i];
        lot.threads[thread].deadlock_data.deadlocked = true;
        lot.threads[thread].deadlock_data.backtrace_sender = Some(channel);
        proof {
            assert(cycle@.take(i as int + 1) == cycle@.take(i as int).push(thread));
            assert forall|t: int|
                0 <= t < before.threads@.len() implies if cycle@.take(i as int + 1).contains(
                t as usize,
            ) {
                before.threads@[t].marked_as(#[trigger] lot.threads@[t], channel)
            } else {
                lot.threads@[t] == before.threads@[t]
            } by {
                lemma_push_contains(cycle@.take(i as int), thread, t as usize);
            }
        }
        i = i + 1;
    }
    proof {
        assert(cycle@.take(i as int) == cycle@);
        before.lemma_wf_kept(*lot);
        assert forall|i: int| 0 <= i < cycle@.len() implies {
            let data = lot.threads@[#[trigger] cycle@[i] as int].deadlock_data;
            data.deadlocked && data.backtrace_sender == Some(channel)
        } by {
            assert(cycle@.contains(cycle@[i]));
        }
    }
}

/// Simple algorithm that builds a wait graph of the threads and the resources, then checks for the
/// presence of cycles (deadlocks).
pub fn check_wait_graph_fast(lot: &ParkingLot) -> (r: bool)
    requires
        lot.wf(),
    ensures
        r == lot.has_ring(),
{
    let graph = build_wait_graph(lot);
    proof {
        lot.lemma_has_ring();
    }
    graph.is_cyclic()
}

impl ParkingLot {
    /// Whether `cycles` lists all deadlocks, and each once.
    pub open spec fn lists_deadlocks(self, cycles: Seq<Seq<usize>>) -> bool {
        &&& cycles.no_duplicates()
        &&& forall|c: Seq<usize>| #[trigger] cycles.contains(c) <==> self.is_deadlock(c)
    }

    /// Threads that wait for each other in a ring are reported: among the threads of each ring
    /// there is a deadlock that is listed.
    pub proof fn lemma_ring_listed(self, cycles: Seq<Seq<usize>>, c: Seq<usize>)
        requires
            self.lists_deadlocks(cycles),
            self.is_ring(c),
        ensures
            exists|r: Seq<usize>| #[trigger]
                cycles.contains(r) && meet(r, c) && forall|t: usize| #[trigger]
                    r.contains(t) ==> c.contains(t),
    {
        let r = self.lemma_ring_deadlock(c);
        assert(cycles.contains(r));
        assert(r.contains(r[0]));
        assert(c.contains(r[0]));
    }

    /// The list of deadlocks is empty exactly where no threads wait for each other in a ring.
    pub proof fn lemma_some_listed(self, cycles: Seq<Seq<usize>>)
        requires
            self.lists_deadlocks(cycles),
        ensures
            self.has_ring() <==> cycles.len() > 0,
    {
        if self.has_ring() {
            let c = choose|c: Seq<usize>| self.is_ring(c);
            self.lemma_ring_listed(cycles, c);
        }
        if cycles.len() > 0 {
            assert(cycles.contains(cycles[0]));
            assert(self.is_ring(cycles[0]));
        }
    }

    /// Where resources have one owner each, each ring of distinct threads is listed, from its
    /// smallest thread on.
    pub proof fn lemma_all_listed(self, cycles: Seq<Seq<usize>>, c: Seq<usize>)
        requires
            self.lists_deadlocks(cycles),
            self.exclusive(),
            self.is_ring(c),
            c.no_duplicates(),
        ensures
            cycles.contains(normalized(c)),
    {
        self.lemma_exclusive_keys(c);
        self.lemma_normalized_ring(c);
    }

    /// Where different rings have no thread in common, each ring of distinct threads is listed,
    /// from its smallest thread on.
    pub proof fn lemma_separate_listed(self, cycles: Seq<Seq<usize>>, c: Seq<usize>)
        requires
            self.lists_deadlocks(cycles),
            self.separate(),
            self.is_ring(c),
            c.no_duplicates(),
        ensures
            cycles.contains(normalized(c)),
    {
        self.lemma_separate_keys(c);
        self.lemma_normalized_ring(c);
    }

    /// A thread that has been found deadlocked is part of no deadlock that is found later: a cycle
    /// that is reported once is never reported again.
    pub proof fn lemma_reported_once(self, cycles: Seq<Seq<usize>>, c: Seq<usize>, t: usize)
        requires
            self.lists_deadlocks(cycles),
            cycles.contains(c),
            self.threads@[t as int].deadlock_data.deadlocked,
        ensures
            !c.contains(t),
    {
        if c.contains(t) {
            let i = choose|i: int| 0 <= i < c.len() && c[i] == t;
            assert(self.ring_at(c, i));
        }
    }
}

/// Contrary to the fast variant this looks for the cycles themselves. Returns all detected thread
/// wait cycles.
pub fn check_wait_graph_slow(lot: &ParkingLot) -> (r: Vec<Vec<usize>>)
    requires
        lot.wf(),
    ensures
        lot.lists_deadlocks(cycle_list(r@)),
        lot.has_ring() <==> r@.len() > 0,
{
    let graph = build_wait_graph(lot);

    // find cycles
    let cycles = graph_cycles(&graph);
    proof {
        assert forall|c: Seq<usize>| #[trigger]
            cycle_list(cycles@).contains(c) <==> lot.is_deadlock(c) by {
            lot.lemma_thread_cycles(c);
        }
        lot.lemma_some_listed(cycle_list(cycles@));
    }
    cycles
}

/// Returns all detected thread wait cycles. Looks for them only if there is a deadlock.
pub fn check_deadlock(lot: &ParkingLot) -> (r: Vec<Vec<usize>>)
    requires
        lot.wf(),
    ensures
        lot.lists_deadlocks(cycle_list(r@)),
        lot.has_ring() <==> r@.len() > 0,
{
    // fast pass
    if check_wait_graph_fast(lot) {
        // double check
        check_wait_graph_slow(lot)
    } else {
        let cycles: Vec<Vec<usize>> = Vec::new();
        proof {
            let list = cycle_list(cycles@);
            assert forall|c: Seq<usize>| #[trigger] list.contains(c) <==> lot.is_deadlock(c) by {
                if lot.is_deadlock(c) {
                    assert(lot.is_ring(c));
                }
            }
        }
        cycles
    }
}

} // verus!
