//! Who waits for whom in a parking lot.

use crate::bucket::{thread_at, ParkingLot};
use crate::wait_graph::{
    lemma_with_item, resource_key, thread_key, with_item, WaitGraph, WaitGraphNode,
};
use vstd::prelude::*;

verus! {

impl ParkingLot {
    /// The keys of the resources that thread `t` owns.
    pub open spec fn resources(self, t: usize) -> Seq<usize> {
        self.threads@[t as int].deadlock_data.resources@
    }

    /// Whether a thread, once it is parked, sleeps until another thread wakes it: it has no
    /// timeout, and it has not been found deadlocked before.
    pub open spec fn untimed(self, t: usize) -> bool {
        !self.threads@[t as int].parked_with_timeout
            && !self.threads@[t as int].deadlock_data.deadlocked
    }

    /// Whether thread `t` is parked and sleeps until another thread wakes it.
    pub open spec fn blocked(self, t: usize) -> bool {
        self.queued(t) && self.untimed(t)
    }

    /// Whether thread `t` is blocked on a resource that `u`, itself blocked, owns.
    pub open spec fn waits_for(self, t: usize, u: usize) -> bool {
        self.blocked(t) && self.blocked(u) && self.resources(u).contains(self.key(t))
    }

    /// The edges that thread `t` brings into the wait graph: its resources are waiting for their
    /// owner, and it waits for the resource of its key.
    pub open spec fn thread_edges(self, t: usize) -> Seq<((u8, usize), (u8, usize))> {
        self.resource_edges(t).push((thread_key(t), resource_key(self.key(t))))
    }

    /// The edges from the resources of thread `t` to that thread.
    pub open spec fn resource_edges(self, t: usize) -> Seq<((u8, usize), (u8, usize))> {
        Seq::new(
            self.resources(t).len(),
            |i: int| (resource_key(self.resources(t)[i]), thread_key(t)),
        )
    }

    /// The edges that the threads of a queue bring into the wait graph.
    pub open spec fn queue_edges(self, queue: Seq<usize>) -> Seq<((u8, usize), (u8, usize))>
        decreases queue.len(),
    {
        if queue.len() == 0 {
            Seq::empty()
        } else if self.untimed(queue.last()) {
            self.queue_edges(queue.drop_last()) + self.thread_edges(queue.last())
        } else {
            self.queue_edges(queue.drop_last())
        }
    }

    /// The edges that the threads in the first `n` buckets bring into the wait graph.
    pub open spec fn table_edges(self, n: int) -> Seq<((u8, usize), (u8, usize))>
        decreases n,
    {
        if n <= 0 {
            Seq::empty()
        } else {
            self.table_edges(n - 1) + self.queue_edges(self.queue(n - 1))
        }
    }

    /// The edges of the wait graph.
    pub open spec fn wait_edges(self) -> Seq<((u8, usize), (u8, usize))> {
        added(self.table_edges(self.entries@.len() as int))
    }
}

/// The items of a sequence, each at its first occurrence.
pub open spec fn added<A>(items: Seq<A>) -> Seq<A>
    decreases items.len(),
{
    if items.len() == 0 {
        Seq::empty()
    } else {
        with_item(added(items.drop_last()), items.last())
    }
}

/// Leaving out repetitions leaves out no item.
proof fn lemma_added_contains<A>(items: Seq<A>, x: A)
    ensures
        added(items).contains(x) <==> items.contains(x),
    decreases items.len(),
{
    if items.len() > 0 {
        let front = items.drop_last();
        lemma_added_contains(front, x);
        lemma_with_item(added(front), items.last(), x);
        lemma_push_contains_item(front, items.last(), x);
        assert(front.push(items.last()) == items);
    }
}

/// What a sequence holds once an item is appended.
proof fn lemma_push_contains_item<A>(items: Seq<A>, item: A, x: A)
    ensures
        items.push(item).contains(x) <==> items.contains(x) || x == item,
{
    let more = items.push(item);
    assert(more[items.len() as int] == item);
    if items.contains(x) {
        let i = choose|i: int| 0 <= i < items.len() && items[i] == x;
        assert(more[i] == x);
    }
    if more.contains(x) && x != item {
        let i = choose|i: int| 0 <= i < more.len() && more[i] == x;
        assert(items[i] == x);
    }
}

/// What two sequences in a row hold.
proof fn lemma_add_contains<A>(a: Seq<A>, b: Seq<A>, x: A)
    ensures
        (a + b).contains(x) <==> a.contains(x) || b.contains(x),
{
    if a.contains(x) {
        let i = choose|i: int| 0 <= i < a.len() && a[i] == x;
        assert((a + b)[i] == x);
    }
    if b.contains(x) {
        let i = choose|i: int| 0 <= i < b.len() && b[i] == x;
        assert((a + b)[a.len() + i] == x);
    }
    if (a + b).contains(x) {
        let i = choose|i: int| 0 <= i < (a + b).len() && (a + b)[i] == x;
        if i < a.len() {
            assert(a[i] == x);
        } else {
            assert(b[i - a.len()] == x);
        }
    }
}

/// Adding one more item to those that were added.
proof fn lemma_added_push<A>(items: Seq<A>, item: A)
    ensures
        added(items.push(item)) == with_item(added(items), item),
{
    assert(items.push(item).drop_last() == items);
}

/// Builds the graph of the threads and the resources that they wait for.
pub(crate) fn build_wait_graph(lot: &ParkingLot) -> (graph: WaitGraph)
    requires
        lot.wf(),
    ensures
        graph.wf(),
        graph@ == lot.wait_edges(),
{
    let thread_count = lot.threads.len();
    let mut graph = WaitGraph::with_capacity(thread_count * 2, thread_count * 2);
    let mut b: usize = 0;
    while b < lot.entries.len()
        invariant
            lot.wf(),
            b <= lot.entries@.len(),
            graph.wf(),
            graph@ == added(lot.table_edges(b as int)),
        decreases lot.entries@.len() - b,
    {
        let ghost queue = lot.queue(b as int);
        let ghost table = lot.table_edges(b as int);
        let ghost mut i: int = 0;
        let mut current = lot.entries[b].queue_head;
        assert(lot.entries@[b as int].linked(lot.threads@));
        assert(table + lot.queue_edges(queue.take(0)) == table);
        while current.is_some()
            invariant
                lot.wf(),
                b < lot.entries@.len(),
                queue == lot.queue(b as int),
                lot.entries@[b as int].linked(lot.threads@),
                0 <= i <= queue.len(),
                current == thread_at(queue, i),
                graph.wf(),
                graph@ == added(table + lot.queue_edges(queue.take(i))),
            decreases queue.len() - i,
        {
            let thread = current.unwrap();
            let ghost before = table + lot.queue_edges(queue.take(i));
            proof {
                assert(queue.take(i + 1).drop_last() == queue.take(i));
                assert(queue.take(i + 1).last() == thread);
                assert(queue[i] < lot.threads@.len());
            }
            if !lot.threads[thread].parked_with_timeout
                && !lot.threads[thread].deadlock_data.deadlocked {
                // .resources are waiting for their owner
                let ghost edges = lot.resource_edges(thread);
                let mut j: usize = 0;
                assert(before + edges.take(0) == before);
                while j < lot.threads[thread].deadlock_data.resources.len()
                    invariant
                        thread < lot.threads@.len(),
                        j <= lot.resources(thread).len(),
                        edges == lot.resource_edges(thread),
                        graph.wf(),
                        graph@ == added(before + edges.take(j as int)),
                    decreases lot.resources(thread).len() - j,
                {
                    let resource = lot.threads[thread].deadlock_data.resources[j];
                    graph.add_edge(
                        WaitGraphNode::Resource(resource),
                        WaitGraphNode::Thread(thread),
                    );
                    proof {
                        let edge = (resource_key(resource), thread_key(thread));
                        assert(edges[j as int] == edge);
                        lemma_added_push(before + edges.take(j as int), edge);
                        assert((before + edges.take(j as int)).push(edge) == before + edges.take(
                            j as int + 1,
                        ));
                    }
                    j = j + 1;
                }
                // owner waits for resource .key
                graph.add_edge(
                    WaitGraphNode::Thread(thread),
                    WaitGraphNode::Resource(lot.threads[thread].key),
                );
                proof {
                    let edge = (thread_key(thread), resource_key(lot.key(thread)));
                    assert(edges.take(j as int) == edges);
                    lemma_added_push(before + edges, edge);
                    assert((before + edges).push(edge) == table + lot.queue_edges(
                        queue.take(i + 1),
                    ));
                }
            }
            current = lot.threads[thread].next_in_queue;
            proof {
                i = i + 1;
            }
        }
        assert(queue.take(i) == queue);
        b = b + 1;
    }
    graph
}

impl ParkingLot {
    /// The threads of a queue bring in the edges of those that are untimed.
    proof fn lemma_queue_edges(self, queue: Seq<usize>, e: ((u8, usize), (u8, usize)))
        ensures
            self.queue_edges(queue).contains(e) <==> exists|t: usize|
                queue.contains(t) && self.untimed(t) && #[trigger] self.thread_edges(t).contains(e),
        decreases queue.len(),
    {
        if queue.len() > 0 {
            let front = queue.drop_last();
            let last = queue.last();
            self.lemma_queue_edges(front, e);
            lemma_add_contains(self.queue_edges(front), self.thread_edges(last), e);
            assert(front.push(last) == queue);
            assert forall|t: usize| queue.contains(t) <==> front.contains(t) || t == last by {
                lemma_push_contains_item(front, last, t);
            }
            if self.untimed(last) && self.thread_edges(last).contains(e) {
                assert(queue.contains(last));
            }
        }
    }

    /// The buckets bring in the edges of their queues.
    proof fn lemma_table_edges(self, n: int, e: ((u8, usize), (u8, usize)))
        requires
            0 <= n,
        ensures
            self.table_edges(n).contains(e) <==> exists|b: int|
                0 <= b < n && #[trigger] self.queue_edges(self.queue(b)).contains(e),
        decreases n,
    {
        if n > 0 {
            self.lemma_table_edges(n - 1, e);
            lemma_add_contains(self.table_edges(n - 1), self.queue_edges(self.queue(n - 1)), e);
            if self.table_edges(n - 1).contains(e) {
                let b = choose|b: int|
                    0 <= b < n - 1 && #[trigger] self.queue_edges(self.queue(b)).contains(e);
                assert(self.queue_edges(self.queue(b)).contains(e));
            }
        }
    }

    /// The wait graph has the edges of the blocked threads.
    proof fn lemma_wait_edges(self, e: ((u8, usize), (u8, usize)))
        ensures
            self.wait_edges().contains(e) <==> exists|t: usize|
                self.blocked(t) && #[trigger] self.thread_edges(t).contains(e),
    {
        let n = self.entries@.len() as int;
        lemma_added_contains(self.table_edges(n), e);
        self.lemma_table_edges(n, e);
        if self.table_edges(n).contains(e) {
            let b = choose|b: int|
                0 <= b < n && #[trigger] self.queue_edges(self.queue(b)).contains(e);
            self.lemma_queue_edges(self.queue(b), e);
            let t = choose|t: usize|
                self.queue(b).contains(t) && self.untimed(t) && #[trigger] self.thread_edges(
                    t,
                ).contains(e);
            assert(self.blocked(t));
        }
        if exists|t: usize| self.blocked(t) && #[trigger] self.thread_edges(t).contains(e) {
            let t = choose|t: usize|
                self.blocked(t) && #[trigger] self.thread_edges(t).contains(e);
            let b = choose|b: int| 0 <= b < n && #[trigger] self.queue(b).contains(t);
            self.lemma_queue_edges(self.queue(b), e);
        }
    }

    /// The edges of one thread, one by one.
    proof fn lemma_thread_edges(self, t: usize, e: ((u8, usize), (u8, usize)))
        ensures
            self.thread_edges(t).contains(e) <==> e == (
                thread_key(t),
                resource_key(self.key(t)),
            ) || (e.1 == thread_key(t) && e.0 == resource_key(e.0.1) && self.resources(t).contains(
                e.0.1,
            )),
    {
        let edges = self.resource_edges(t);
        lemma_push_contains_item(edges, (thread_key(t), resource_key(self.key(t))), e);
        if edges.contains(e) {
            let i = choose|i: int| 0 <= i < edges.len() && edges[i] == e;
            assert(self.resources(t)[i] == e.0.1);
        }
        if e.1 == thread_key(t) && e.0 == resource_key(e.0.1) && self.resources(t).contains(e.0.1) {
            let i = choose|i: int|
                0 <= i < self.resources(t).len() && self.resources(t)[i] == e.0.1;
            assert(edges[i] == e);
        }
    }

    /// A thread has an edge to the resource that it is blocked on.
    pub proof fn lemma_thread_waits(self, t: usize, r: usize)
        ensures
            self.wait_edges().contains((thread_key(t), resource_key(r))) <==> self.blocked(t)
                && self.key(t) == r,
    {
        let e = (thread_key(t), resource_key(r));
        self.lemma_wait_edges(e);
        assert forall|u: usize| #[trigger] self.thread_edges(u).contains(e) <==> u == t && self.key(
            t,
        ) == r by {
            self.lemma_thread_edges(u, e);
        }
        assert(self.thread_edges(t).contains(e) <==> self.key(t) == r);
    }

    /// A resource has an edge to each blocked thread that owns it.
    pub proof fn lemma_resource_waits(self, r: usize, u: usize)
        ensures
            self.wait_edges().contains((resource_key(r), thread_key(u))) <==> self.blocked(u)
                && self.resources(u).contains(r),
    {
        let e = (resource_key(r), thread_key(u));
        self.lemma_wait_edges(e);
        assert forall|t: usize| #[trigger] self.thread_edges(t).contains(e) <==> t == u
            && self.resources(u).contains(r) by {
            self.lemma_thread_edges(t, e);
        }
        assert(self.thread_edges(u).contains(e) <==> self.resources(u).contains(r));
    }

    /// Edges lead from threads to resources and from resources to threads.
    pub proof fn lemma_wait_edge_ends(self, e: ((u8, usize), (u8, usize)))
        requires
            self.wait_edges().contains(e),
        ensures
            ({
                ||| e.0 == thread_key(e.0.1) && e.1 == resource_key(e.1.1)
                ||| e.0 == resource_key(e.0.1) && e.1 == thread_key(e.1.1)
            }),
    {
        self.lemma_wait_edges(e);
        let t = choose|t: usize| self.blocked(t) && #[trigger] self.thread_edges(t).contains(e);
        self.lemma_thread_edges(t, e);
    }
}

} // verus!
