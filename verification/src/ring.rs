//! Deadlocks: rings of threads that wait for each other.

use crate::bucket::ParkingLot;
use crate::circuit::{is_circuit, lemma_circuit_walk, lemma_rotated_circuit};
use crate::cycle::{
    is_first_min, lemma_first_min, lemma_normalized, lemma_usize_ordered, less, normalized, rotated,
};
use crate::dfs::{closed_walk, edge_at, has_cycle};
use crate::wait_graph::{
    is_thread_cycle, is_thread_key, joins_threads_and_resources, lemma_rotated_threads,
    lemma_threads_of_contains, resource_key, thread_key, threads_of,
};
use vstd::prelude::*;

verus! {

/// The position after `i` on a ring of `n` items.
pub open spec fn after(i: int, n: int) -> int {
    if i + 1 < n {
        i + 1
    } else {
        0
    }
}

impl ParkingLot {
    /// Whether the threads `c` are deadlocked: each waits for the next, and the last for the first.
    pub open spec fn is_ring(self, c: Seq<usize>) -> bool {
        &&& c.len() > 0
        &&& forall|i: int| 0 <= i < c.len() ==> #[trigger] self.ring_at(c, i)
    }

    /// Whether the thread at position `i` of `c` waits for the one after it.
    pub open spec fn ring_at(self, c: Seq<usize>, i: int) -> bool {
        self.waits_for(c[i], c[after(i, c.len() as int)])
    }

    /// Whether some threads are deadlocked.
    pub open spec fn has_ring(self) -> bool {
        exists|c: Seq<usize>| self.is_ring(c)
    }

    /// Whether the threads `c` wait on different keys, and so are different threads.
    pub open spec fn distinct_keys(self, c: Seq<usize>) -> bool {
        forall|i: int, j: int|
            0 <= i < c.len() && 0 <= j < c.len() && i != j ==> self.key(#[trigger] c[i])
                != self.key(#[trigger] c[j])
    }

    /// Whether `c` is an elementary cycle of the threads that wait for each other: a ring that
    /// comes to no thread and to no resource twice. It starts with its smallest thread.
    pub open spec fn is_deadlock(self, c: Seq<usize>) -> bool {
        &&& self.is_ring(c)
        &&& self.distinct_keys(c)
        &&& forall|i: int| 0 <= i < c.len() ==> c[0] <= #[trigger] c[i]
    }

    /// On a walk that starts at a thread, threads and resources alternate.
    proof fn lemma_alternates(self, walk: Seq<(u8, usize)>, i: int)
        requires
            closed_walk(self.wait_edges(), walk),
            is_thread_key(walk[0]),
            0 <= i < walk.len(),
        ensures
            i % 2 == 0 ==> walk[i] == thread_key(walk[i].1),
            i % 2 == 1 ==> walk[i] == resource_key(walk[i].1),
        decreases i,
    {
        if i == 0 {
            assert(edge_at(self.wait_edges(), walk, 0));
            self.lemma_wait_edge_ends((walk[0], walk[1]));
        } else {
            self.lemma_alternates(walk, i - 1);
            assert(edge_at(self.wait_edges(), walk, i - 1));
            self.lemma_wait_edge_ends((walk[i - 1], walk[i]));
        }
    }

    /// The threads on a closed walk that starts at a thread form a ring.
    pub proof fn lemma_walk_ring(self, walk: Seq<(u8, usize)>)
        requires
            closed_walk(self.wait_edges(), walk),
            is_thread_key(walk[0]),
        ensures
            self.is_ring(threads_of(walk.drop_last())),
    {
        let nodes = walk.drop_last();
        let c = threads_of(nodes);
        assert forall|i: int| 0 <= i < walk.len() implies (i % 2 == 0 ==> #[trigger] walk[i]
            == thread_key(walk[i].1)) && (i % 2 == 1 ==> walk[i] == resource_key(walk[i].1)) by {
            self.lemma_alternates(walk, i);
        }
        let m = walk.len() - 1;
        assert(walk[m] == walk[0]);
        assert(m % 2 == 0);
        lemma_threads_alternate(nodes);
        assert(c.len() * 2 == m);
        assert forall|i: int| 0 <= i < c.len() implies #[trigger] self.ring_at(c, i) by {
            let j = after(i, c.len() as int);
            assert(c[i] == nodes[2 * i].1);
            assert(c[j] == nodes[2 * j].1);
            assert(edge_at(self.wait_edges(), walk, 2 * i));
            assert(edge_at(self.wait_edges(), walk, 2 * i + 1));
            assert(walk[2 * i] == thread_key(c[i]));
            let r = walk[2 * i + 1].1;
            assert(walk[2 * i + 1] == resource_key(r));
            assert(walk[2 * i + 2] == thread_key(c[j]));
            self.lemma_thread_waits(c[i], r);
            self.lemma_resource_waits(r, c[j]);
        }
    }

    /// The walk along a ring: from each thread to the resource that it waits on, and on to the next
    /// thread.
    pub open spec fn ring_walk(self, c: Seq<usize>) -> Seq<(u8, usize)> {
        Seq::new(
            2 * c.len() + 1,
            |i: int|
                if i % 2 == 1 {
                    resource_key(self.key(c[i / 2]))
                } else if i / 2 < c.len() {
                    thread_key(c[i / 2])
                } else {
                    thread_key(c[0])
                },
        )
    }

    /// A ring is a closed walk.
    pub proof fn lemma_ring_walk(self, c: Seq<usize>)
        requires
            self.is_ring(c),
        ensures
            closed_walk(self.wait_edges(), self.ring_walk(c)),
    {
        let walk = self.ring_walk(c);
        assert forall|i: int| 0 <= i < walk.len() - 1 implies #[trigger] edge_at(
            self.wait_edges(),
            walk,
            i,
        ) by {
            let j = i / 2;
            assert(self.ring_at(c, j));
            self.lemma_thread_waits(c[j], self.key(c[j]));
            self.lemma_resource_waits(self.key(c[j]), c[after(j, c.len() as int)]);
            if i % 2 == 0 {
                assert(walk[i] == thread_key(c[j]));
                assert(walk[i + 1] == resource_key(self.key(c[j])));
            } else {
                assert(walk[i] == resource_key(self.key(c[j])));
                assert(walk[i + 1] == thread_key(c[after(j, c.len() as int)]));
            }
        }
    }

    /// The wait graph has a cycle if and only if threads are deadlocked.
    pub proof fn lemma_has_ring(self)
        ensures
            has_cycle(self.wait_edges()) <==> self.has_ring(),
    {
        let edges = self.wait_edges();
        if has_cycle(edges) {
            let walk = choose|walk: Seq<(u8, usize)>| closed_walk(edges, walk);
            assert(edge_at(edges, walk, 0));
            self.lemma_wait_edge_ends((walk[0], walk[1]));
            let turned = if is_thread_key(walk[0]) {
                walk
            } else {
                assert(walk.len() > 2) by {
                    if walk.len() == 2 {
                        assert(walk[1] == walk[0]);
                    }
                }
                lemma_turn_walk(edges, walk, 1);
                turn_walk(walk, 1)
            };
            self.lemma_walk_ring(turned);
        }
        if self.has_ring() {
            let c = choose|c: Seq<usize>| self.is_ring(c);
            self.lemma_ring_walk(c);
        }
    }

    /// A ring stays a ring wherever one starts to go around it.
    proof fn lemma_rotated_ring(self, c: Seq<usize>, p: int)
        requires
            self.is_ring(c),
            0 <= p < c.len(),
        ensures
            self.is_ring(rotated(c, p)),
    {
        let r = rotated(c, p);
        let n = c.len() as int;
        assert forall|i: int| 0 <= i < r.len() implies #[trigger] self.ring_at(r, i) by {
            let j = if i < n - p {
                i + p
            } else {
                i - (n - p)
            };
            assert(r[i] == c[j]);
            assert(r[after(i, n)] == c[after(j, n)]);
            assert(self.ring_at(c, j));
        }
    }

    /// Different keys stay different wherever one starts to go around.
    proof fn lemma_rotated_keys(self, c: Seq<usize>, p: int)
        requires
            self.distinct_keys(c),
            0 <= p < c.len(),
        ensures
            self.distinct_keys(rotated(c, p)),
    {
        let r = rotated(c, p);
        let n = c.len() as int;
        assert forall|i: int, j: int|
            0 <= i < r.len() && 0 <= j < r.len() && i != j implies self.key(#[trigger] r[i])
            != self.key(#[trigger] r[j]) by {
            let a = if i < n - p {
                i + p
            } else {
                i - (n - p)
            };
            let b = if j < n - p {
                j + p
            } else {
                j - (n - p)
            };
            assert(r[i] == c[a] && r[j] == c[b] && a != b);
        }
    }

    /// Threads with different keys are different.
    pub proof fn lemma_distinct_threads(self, c: Seq<usize>)
        requires
            self.distinct_keys(c),
        ensures
            c.no_duplicates(),
    {
        assert forall|i: int, j: int|
            0 <= i < c.len() && 0 <= j < c.len() && i != j implies c[i] != c[j] by {
            assert(self.key(c[i]) != self.key(c[j]));
        }
    }

    /// A ring whose threads wait on different keys is a deadlock, once it is turned to its smallest
    /// thread.
    pub proof fn lemma_normalized_ring(self, c: Seq<usize>)
        requires
            self.is_ring(c),
            self.distinct_keys(c),
        ensures
            self.is_deadlock(normalized(c)),
            forall|t: usize| #[trigger] normalized(c).contains(t) ==> c.contains(t),
    {
        let q = lemma_first_min(c);
        let r = rotated(c, q);
        lemma_normalized(c, q);
        self.lemma_rotated_ring(c, q);
        self.lemma_rotated_keys(c, q);
        lemma_usize_ordered();
        assert forall|i: int| 0 <= i < r.len() implies c.contains(#[trigger] r[i]) && r[0]
            <= r[i] by {
            let j = if i < c.len() - q {
                i + q
            } else {
                i - (c.len() - q)
            };
            assert(r[i] == c[j]);
            assert(!less(c[j], c[q]));
        }
    }

    /// A deadlock is already in normal form.
    pub proof fn lemma_deadlock_normal(self, c: Seq<usize>)
        requires
            self.is_deadlock(c),
        ensures
            normalized(c) == c,
    {
        lemma_usize_ordered();
        assert(is_first_min(c, 0));
        lemma_normalized(c, 0);
        assert(rotated(c, 0) == c);
    }

    /// A ring whose threads wait on different keys is an elementary cycle of the wait graph.
    proof fn lemma_ring_circuit(self, c: Seq<usize>) -> (nodes: Seq<(u8, usize)>)
        requires
            self.is_ring(c),
            self.distinct_keys(c),
        ensures
            is_circuit(self.wait_edges(), nodes),
            threads_of(nodes) == c,
    {
        let edges = self.wait_edges();
        let walk = self.ring_walk(c);
        let nodes = walk.drop_last();
        self.lemma_ring_walk(c);
        self.lemma_distinct_threads(c);
        assert forall|i: int| 0 <= i < nodes.len() implies #[trigger] nodes[i] == (if i % 2 == 1 {
            resource_key(self.key(c[i / 2]))
        } else {
            thread_key(c[i / 2])
        }) by {}
        assert forall|i: int, j: int|
            0 <= i < nodes.len() && 0 <= j < nodes.len() && i != j implies nodes[i]
            != nodes[j] by {
            if i % 2 == j % 2 {
                assert(i / 2 != j / 2);
                assert(c[i / 2] != c[j / 2]);
                assert(self.key(c[i / 2]) != self.key(c[j / 2]));
            }
        }
        assert forall|i: int| 0 <= i < nodes.len() - 1 implies #[trigger] edge_at(
            edges,
            nodes,
            i,
        ) by {
            assert(edge_at(edges, walk, i));
        }
        assert(edge_at(edges, walk, walk.len() - 2));
        lemma_threads_alternate(nodes);
        assert(threads_of(nodes) =~= c);
        nodes
    }

    /// The threads of an elementary cycle of the wait graph that starts at a thread are a ring, and
    /// wait on different keys.
    proof fn lemma_circuit_ring(self, nodes: Seq<(u8, usize)>)
        requires
            is_circuit(self.wait_edges(), nodes),
            is_thread_key(nodes[0]),
        ensures
            self.is_ring(threads_of(nodes)),
            self.distinct_keys(threads_of(nodes)),
    {
        let edges = self.wait_edges();
        let walk = nodes.push(nodes[0]);
        let c = threads_of(nodes);
        lemma_circuit_walk(edges, nodes);
        assert(walk.drop_last() == nodes);
        self.lemma_walk_ring(walk);
        assert forall|i: int| 0 <= i < nodes.len() implies is_thread_key(#[trigger] nodes[i]) == (i
            % 2 == 0) by {
            assert(walk[i] == nodes[i]);
            self.lemma_alternates(walk, i);
        }
        lemma_threads_alternate(nodes);
        self.lemma_alternates(walk, nodes.len() as int);
        assert(nodes.len() % 2 == 0);
        assert forall|i: int, j: int|
            0 <= i < c.len() && 0 <= j < c.len() && i != j implies self.key(#[trigger] c[i])
            != self.key(#[trigger] c[j]) by {
            self.lemma_walk_key(walk, 2 * i);
            self.lemma_walk_key(walk, 2 * j);
            assert(c[i] == nodes[2 * i].1 && c[j] == nodes[2 * j].1);
            assert(nodes[2 * i + 1] != nodes[2 * j + 1]);
        }
    }

    /// A walk goes from a thread to the resource that the thread waits on.
    proof fn lemma_walk_key(self, walk: Seq<(u8, usize)>, i: int)
        requires
            closed_walk(self.wait_edges(), walk),
            is_thread_key(walk[0]),
            0 <= i < walk.len() - 1,
            i % 2 == 0,
        ensures
            walk[i + 1] == resource_key(self.key(walk[i].1)),
    {
        self.lemma_alternates(walk, i);
        self.lemma_alternates(walk, i + 1);
        assert(edge_at(self.wait_edges(), walk, i));
        self.lemma_thread_waits(walk[i].1, walk[i + 1].1);
    }

    /// The thread cycles of the wait graph are the deadlocks.
    pub proof fn lemma_thread_cycles(self, c: Seq<usize>)
        ensures
            is_thread_cycle(self.wait_edges(), c) <==> self.is_deadlock(c),
    {
        let edges = self.wait_edges();
        if self.is_deadlock(c) {
            let nodes = self.lemma_ring_circuit(c);
            self.lemma_deadlock_normal(c);
            assert(is_circuit(edges, nodes));
        }
        if is_thread_cycle(edges, c) {
            let nodes = choose|nodes: Seq<(u8, usize)>| #[trigger]
                is_circuit(edges, nodes) && threads_of(nodes).len() > 0 && c == normalized(
                    threads_of(nodes),
                );
            let t = threads_of(nodes)[0];
            assert(threads_of(nodes).contains(t));
            lemma_threads_of_contains(nodes, t);
            let p = choose|p: int| 0 <= p < nodes.len() && nodes[p] == thread_key(t);
            lemma_rotated_circuit(edges, nodes, p);
            lemma_rotated_threads(nodes, p);
            self.lemma_circuit_ring(rotated(nodes, p));
            self.lemma_normalized_ring(threads_of(rotated(nodes, p)));
        }
    }

    /// The edges of the wait graph join threads and resources.
    pub proof fn lemma_joins(self)
        ensures
            joins_threads_and_resources(self.wait_edges()),
    {
        assert forall|e: ((u8, usize), (u8, usize))| #[trigger]
            self.wait_edges().contains(e) implies is_thread_key(e.0) != is_thread_key(e.1) by {
            self.lemma_wait_edge_ends(e);
        }
    }

    /// Where two threads of a ring wait on the same key, the threads behind the first of them up to
    /// the second are a ring.
    proof fn lemma_shorter_ring(self, c: Seq<usize>, i: int, j: int)
        requires
            self.is_ring(c),
            0 <= i < j < c.len(),
            self.key(c[i]) == self.key(c[j]),
        ensures
            self.is_ring(c.subrange(i + 1, j + 1)),
    {
        let r = c.subrange(i + 1, j + 1);
        assert forall|k: int| 0 <= k < r.len() implies #[trigger] self.ring_at(r, k) by {
            assert(self.ring_at(c, i + 1 + k));
            assert(self.ring_at(c, i));
            assert(r[k] == c[i + 1 + k]);
            if k + 1 < r.len() {
                assert(r[k + 1] == c[i + 2 + k]);
            }
        }
    }

    /// Among the threads of each ring there is a deadlock.
    pub proof fn lemma_ring_deadlock(self, c: Seq<usize>) -> (r: Seq<usize>)
        requires
            self.is_ring(c),
        ensures
            self.is_deadlock(r),
            forall|t: usize| #[trigger] r.contains(t) ==> c.contains(t),
        decreases c.len(),
    {
        if self.distinct_keys(c) {
            self.lemma_normalized_ring(c);
            normalized(c)
        } else {
            let (a, b) = choose|a: int, b: int|
                0 <= a < c.len() && 0 <= b < c.len() && a != b && self.key(#[trigger] c[a])
                    == self.key(#[trigger] c[b]);
            let (i, j) = if a < b {
                (a, b)
            } else {
                (b, a)
            };
            self.lemma_shorter_ring(c, i, j);
            let shorter = c.subrange(i + 1, j + 1);
            let r = self.lemma_ring_deadlock(shorter);
            assert forall|t: usize| #[trigger] r.contains(t) implies c.contains(t) by {
                assert(shorter.contains(t));
                let k = choose|k: int| 0 <= k < shorter.len() && shorter[k] == t;
                assert(c[i + 1 + k] == t);
            }
            r
        }
    }

    /// Where resources have one owner each, the threads of a ring that comes to no thread twice
    /// wait on different keys.
    pub proof fn lemma_exclusive_keys(self, c: Seq<usize>)
        requires
            self.exclusive(),
            self.is_ring(c),
            c.no_duplicates(),
        ensures
            self.distinct_keys(c),
    {
        let n = c.len() as int;
        assert forall|i: int, j: int|
            0 <= i < c.len() && 0 <= j < c.len() && i != j implies self.key(#[trigger] c[i])
            != self.key(#[trigger] c[j]) by {
            assert(self.ring_at(c, i));
            assert(self.ring_at(c, j));
            assert(after(i, n) != after(j, n));
        }
    }

    /// Where rings that have a thread in common are the same ring, the threads of a ring that comes
    /// to no thread twice wait on different keys.
    pub proof fn lemma_separate_keys(self, c: Seq<usize>)
        requires
            self.separate(),
            self.is_ring(c),
            c.no_duplicates(),
        ensures
            self.distinct_keys(c),
    {
        assert forall|a: int, b: int|
            0 <= a < c.len() && 0 <= b < c.len() && a != b implies self.key(#[trigger] c[a])
            != self.key(#[trigger] c[b]) by {
            if self.key(c[a]) == self.key(c[b]) {
                let (i, j) = if a < b {
                    (a, b)
                } else {
                    (b, a)
                };
                let shorter = c.subrange(i + 1, j + 1);
                self.lemma_shorter_ring(c, i, j);
                assert(shorter[0] == c[i + 1]);
                assert(shorter.contains(c[i + 1]) && c.contains(c[i + 1]));
                assert(meet(shorter, c));
                let p = lemma_first_min(shorter);
                let q = lemma_first_min(c);
                lemma_normalized(shorter, p);
                lemma_normalized(c, q);
                assert(shorter.no_duplicates());
                assert(rotated(shorter, p).len() == rotated(c, q).len());
            }
        }
    }

    /// Whether no resource has two owners among the blocked threads.
    pub open spec fn exclusive(self) -> bool {
        forall|t: usize, u: usize, key: usize|
            self.blocked(t) && self.blocked(u) && #[trigger] self.resources(t).contains(key)
                && #[trigger] self.resources(u).contains(key) ==> t == u
    }

    /// Whether rings of distinct threads that have a thread in common are the same ring, begun
    /// anywhere.
    pub open spec fn separate(self) -> bool {
        forall|a: Seq<usize>, b: Seq<usize>|
            #![trigger self.is_ring(a), self.is_ring(b)]
            self.is_ring(a) && self.is_ring(b) && a.no_duplicates() && b.no_duplicates() && meet(
                a,
                b,
            ) ==> normalized(a) == normalized(b)
    }
}

/// Whether two lists have a thread in common.
pub open spec fn meet(a: Seq<usize>, b: Seq<usize>) -> bool {
    exists|t: usize| #[trigger] a.contains(t) && b.contains(t)
}

/// Where threads and resources alternate, the threads are every other node.
proof fn lemma_threads_alternate(nodes: Seq<(u8, usize)>)
    requires
        forall|i: int| 0 <= i < nodes.len() ==> is_thread_key(#[trigger] nodes[i]) == (i % 2 == 0),
    ensures
        threads_of(nodes).len() == (nodes.len() + 1) / 2,
        forall|i: int|
            0 <= i < threads_of(nodes).len() ==> #[trigger] threads_of(nodes)[i] == nodes[2 * i].1,
    decreases nodes.len(),
{
    if nodes.len() > 0 {
        let front = nodes.drop_last();
        assert forall|i: int| 0 <= i < front.len() implies is_thread_key(#[trigger] front[i]) == (i
            % 2 == 0) by {
            assert(front[i] == nodes[i]);
        }
        lemma_threads_alternate(front);
        assert(nodes[nodes.len() - 1] == nodes.last());
        assert forall|i: int| 0 <= i < threads_of(nodes).len() implies #[trigger] threads_of(
            nodes,
        )[i] == nodes[2 * i].1 by {
            if i < threads_of(front).len() {
                assert(threads_of(front)[i] == front[2 * i].1);
            }
        }
    }
}

/// A closed walk, begun at its position `p`.
pub open spec fn turn_walk(walk: Seq<(u8, usize)>, p: int) -> Seq<(u8, usize)> {
    walk.subrange(p, walk.len() - 1) + walk.take(p + 1)
}

/// A closed walk stays one wherever it begins.
proof fn lemma_turn_walk(
    edges: Seq<((u8, usize), (u8, usize))>,
    walk: Seq<(u8, usize)>,
    p: int,
)
    requires
        closed_walk(edges, walk),
        0 <= p < walk.len() - 1,
    ensures
        closed_walk(edges, turn_walk(walk, p)),
        turn_walk(walk, p)[0] == walk[p],
{
    let turned = turn_walk(walk, p);
    let m = walk.len() - 1;
    assert(turned.len() == walk.len());
    assert forall|i: int| 0 <= i < m implies #[trigger] edge_at(edges, turned, i) by {
        if i < m - p {
            assert(turned[i] == walk[p + i]);
            assert(turned[i + 1] == walk[p + i + 1]);
            assert(edge_at(edges, walk, p + i));
        } else {
            assert(turned[i] == walk[i - (m - p)]);
            assert(turned[i + 1] == walk[i + 1 - (m - p)]);
            assert(edge_at(edges, walk, i - (m - p)));
        }
    }
}

} // verus!
