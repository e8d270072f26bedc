//! What a depth first search reports of a directed graph, and what follows from it.

use vstd::prelude::*;

verus! {

/// One event of a depth first search. A node is a pair of numbers.
#[derive(Copy, Clone, Debug, PartialEq, Eq)]
pub enum DfsStep {
    /// A node is met for the first time.
    Discover((u8, usize)),
    /// An edge to a node that is discovered next.
    TreeEdge((u8, usize), (u8, usize)),
    /// An edge to a node that is discovered but not finished.
    BackEdge((u8, usize), (u8, usize)),
    /// An edge to a node that is finished.
    CrossForwardEdge((u8, usize), (u8, usize)),
    /// All edges from a node have been reported.
    Finish((u8, usize)),
}

/// Whether node `n` is discovered by one of the first `k` steps.
pub open spec fn discovered(steps: Seq<DfsStep>, n: (u8, usize), k: int) -> bool {
    exists|d: int| 0 <= d < k && #[trigger] steps[d] == DfsStep::Discover(n)
}

/// Whether node `n` is finished by one of the first `k` steps.
pub open spec fn finished(steps: Seq<DfsStep>, n: (u8, usize), k: int) -> bool {
    exists|f: int| 0 <= f < k && #[trigger] steps[f] == DfsStep::Finish(n)
}

/// Whether the edge from `u` to `v` is reported as a back edge by one of the first `k` steps.
pub open spec fn back_edge(steps: Seq<DfsStep>, u: (u8, usize), v: (u8, usize), k: int) -> bool {
    exists|j: int| 0 <= j < k && #[trigger] steps[j] == DfsStep::BackEdge(u, v)
}

/// The nodes that are discovered and not finished after the first `k` steps, in the order in which
/// they were discovered.
pub open spec fn open_nodes(steps: Seq<DfsStep>, k: int) -> Seq<(u8, usize)>
    decreases k,
{
    if k <= 0 {
        Seq::empty()
    } else {
        match steps[k - 1] {
            DfsStep::Discover(n) => open_nodes(steps, k - 1).push(n),
            DfsStep::Finish(n) => open_nodes(steps, k - 1).drop_last(),
            _ => open_nodes(steps, k - 1),
        }
    }
}

/// Whether, after the first `k` steps, each edge from `u` either was reported as a back edge or
/// leads to a node that is finished.
pub open spec fn edges_settled(
    steps: Seq<DfsStep>,
    edges: Seq<((u8, usize), (u8, usize))>,
    u: (u8, usize),
    k: int,
) -> bool {
    forall|v: (u8, usize)| #[trigger]
        edges.contains((u, v)) ==> finished(steps, v, k) || back_edge(steps, u, v, k)
}

/// Whether `steps` are the events of a depth first search, from the nodes `starts`, of the graph
/// that has the given edges:
///
/// - a node is discovered once, as a start or over an edge from the last open node;
/// - nodes finish in the reverse order of their discovery, and none stays open;
/// - a back edge leads from the last open node to an open node;
/// - each start is discovered, and so is what an edge from a discovered node leads to; where that
///   edge is not a back edge, the node that it leads to finishes first.
pub open spec fn is_dfs(
    steps: Seq<DfsStep>,
    edges: Seq<((u8, usize), (u8, usize))>,
    starts: Seq<(u8, usize)>,
) -> bool {
    &&& forall|k: int|
        0 <= k < steps.len() ==> match #[trigger] steps[k] {
            DfsStep::Discover(n) => {
                &&& !discovered(steps, n, k)
                &&& if open_nodes(steps, k).len() == 0 {
                    starts.contains(n)
                } else {
                    edges.contains((open_nodes(steps, k).last(), n))
                }
                &&& finished(steps, n, steps.len() as int)
            },
            DfsStep::BackEdge(u, v) => {
                &&& open_nodes(steps, k).len() > 0
                &&& open_nodes(steps, k).last() == u
                &&& open_nodes(steps, k).contains(v)
                &&& edges.contains((u, v))
            },
            DfsStep::Finish(u) => {
                &&& open_nodes(steps, k).len() > 0
                &&& open_nodes(steps, k).last() == u
                &&& edges_settled(steps, edges, u, k)
            },
            _ => true,
        }
    &&& forall|n: (u8, usize)| #[trigger]
        starts.contains(n) ==> discovered(steps, n, steps.len() as int)
}

/// Whether `walk` goes along edges from a node back to that node.
pub open spec fn closed_walk(
    edges: Seq<((u8, usize), (u8, usize))>,
    walk: Seq<(u8, usize)>,
) -> bool {
    &&& walk.len() >= 2
    &&& walk[0] == walk.last()
    &&& forall|i: int| 0 <= i < walk.len() - 1 ==> #[trigger] edge_at(edges, walk, i)
}

/// Whether there is an edge from the node at position `i` of `walk` to the next.
pub open spec fn edge_at(
    edges: Seq<((u8, usize), (u8, usize))>,
    walk: Seq<(u8, usize)>,
    i: int,
) -> bool {
    edges.contains((walk[i], walk[i + 1]))
}

/// Whether a directed graph with the given edges has a cycle.
pub open spec fn has_cycle(edges: Seq<((u8, usize), (u8, usize))>) -> bool {
    exists|walk: Seq<(u8, usize)>| closed_walk(edges, walk)
}

/// A graph has a cycle where some walk along one edge or more comes back to where it began.
pub proof fn lemma_cycle_walk(edges: Seq<((u8, usize), (u8, usize))>, walk: Seq<(u8, usize)>)
    requires
        walk.len() >= 2,
        walk[0] == walk[walk.len() - 1],
        forall|i: int, j: int|
            #![trigger walk[i], walk[j]]
            0 <= i && j == i + 1 && j < walk.len() ==> edges.contains((walk[i], walk[j])),
    ensures
        has_cycle(edges),
{
    assert(closed_walk(edges, walk));
}

/// What one more step adds to the nodes that are discovered and finished.
proof fn lemma_one_more(steps: Seq<DfsStep>, n: (u8, usize), k: int)
    requires
        0 < k <= steps.len(),
    ensures
        discovered(steps, n, k) <==> discovered(steps, n, k - 1) || steps[k - 1]
            == DfsStep::Discover(n),
        finished(steps, n, k) <==> finished(steps, n, k - 1) || steps[k - 1] == DfsStep::Finish(n),
{
    if discovered(steps, n, k - 1) {
        let d = choose|d: int| 0 <= d < k - 1 && #[trigger] steps[d] == DfsStep::Discover(n);
        assert(steps[d] == DfsStep::Discover(n));
    }
    if finished(steps, n, k - 1) {
        let f = choose|f: int| 0 <= f < k - 1 && #[trigger] steps[f] == DfsStep::Finish(n);
        assert(steps[f] == DfsStep::Finish(n));
    }
    if discovered(steps, n, k) {
        let d = choose|d: int| 0 <= d < k && #[trigger] steps[d] == DfsStep::Discover(n);
        assert(d == k - 1 || d < k - 1);
    }
    if finished(steps, n, k) {
        let f = choose|f: int| 0 <= f < k && #[trigger] steps[f] == DfsStep::Finish(n);
        assert(f == k - 1 || f < k - 1);
    }
}

/// The steps before a later one include those before an earlier one.
pub proof fn lemma_later(steps: Seq<DfsStep>, n: (u8, usize), j: int, k: int)
    requires
        0 <= j <= k <= steps.len(),
    ensures
        discovered(steps, n, j) ==> discovered(steps, n, k),
        finished(steps, n, j) ==> finished(steps, n, k),
    decreases k,
{
    if j < k {
        lemma_later(steps, n, j, k - 1);
        lemma_one_more(steps, n, k);
    }
}

/// An open node has been discovered.
proof fn lemma_open_discovered(
    steps: Seq<DfsStep>,
    edges: Seq<((u8, usize), (u8, usize))>,
    starts: Seq<(u8, usize)>,
    k: int,
    i: int,
)
    requires
        is_dfs(steps, edges, starts),
        0 <= k <= steps.len(),
        0 <= i < open_nodes(steps, k).len(),
    ensures
        discovered(steps, open_nodes(steps, k)[i], k),
    decreases k,
{
    if k > 0 {
        let was = open_nodes(steps, k - 1);
        lemma_one_more(steps, open_nodes(steps, k)[i], k);
        if i < was.len() {
            lemma_open_discovered(steps, edges, starts, k - 1, i);
        }
    }
}

/// No node is open twice.
proof fn lemma_open_unique(
    steps: Seq<DfsStep>,
    edges: Seq<((u8, usize), (u8, usize))>,
    starts: Seq<(u8, usize)>,
    k: int,
)
    requires
        is_dfs(steps, edges, starts),
        0 <= k <= steps.len(),
    ensures
        open_nodes(steps, k).no_duplicates(),
    decreases k,
{
    if k > 0 {
        lemma_open_unique(steps, edges, starts, k - 1);
        let was = open_nodes(steps, k - 1);
        if let DfsStep::Discover(m) = steps[k - 1] {
            assert(!was.contains(m)) by {
                if was.contains(m) {
                    let i = choose|i: int| 0 <= i < was.len() && was[i] == m;
                    lemma_open_discovered(steps, edges, starts, k - 1, i);
                }
            }
        }
    }
}

/// The open nodes are those that are discovered and not finished.
pub proof fn lemma_open_contains(
    steps: Seq<DfsStep>,
    edges: Seq<((u8, usize), (u8, usize))>,
    starts: Seq<(u8, usize)>,
    k: int,
    n: (u8, usize),
)
    requires
        is_dfs(steps, edges, starts),
        0 <= k <= steps.len(),
    ensures
        open_nodes(steps, k).contains(n) <==> discovered(steps, n, k) && !finished(steps, n, k),
        finished(steps, n, k) ==> discovered(steps, n, k),
    decreases k,
{
    let now = open_nodes(steps, k);
    if k > 0 {
        lemma_open_contains(steps, edges, starts, k - 1, n);
        lemma_open_unique(steps, edges, starts, k - 1);
        lemma_one_more(steps, n, k);
        let was = open_nodes(steps, k - 1);
        match steps[k - 1] {
            DfsStep::Discover(m) => {
                assert(now == was.push(m));
                assert(now[was.len() as int] == m);
                if was.contains(n) {
                    let i = choose|i: int| 0 <= i < was.len() && was[i] == n;
                    assert(now[i] == n);
                }
                if now.contains(n) && n != m {
                    let i = choose|i: int| 0 <= i < now.len() && now[i] == n;
                    assert(was[i] == n);
                }
            },
            DfsStep::Finish(m) => {
                assert(now == was.drop_last());
                assert(was[was.len() - 1] == m);
                assert(was.contains(m));
                if now.contains(n) {
                    let i = choose|i: int| 0 <= i < now.len() && now[i] == n;
                    assert(was[i] == n);
                }
                if was.contains(n) && n != m {
                    let i = choose|i: int| 0 <= i < was.len() && was[i] == n;
                    assert(now[i] == n);
                }
            },
            _ => {},
        }
    }
}

/// Of two open nodes, the one further down was discovered first.
pub proof fn lemma_open_order(
    steps: Seq<DfsStep>,
    edges: Seq<((u8, usize), (u8, usize))>,
    starts: Seq<(u8, usize)>,
    k: int,
    i: int,
    j: int,
    d: int,
)
    requires
        is_dfs(steps, edges, starts),
        0 <= k <= steps.len(),
        0 <= i < j < open_nodes(steps, k).len(),
        0 <= d < steps.len(),
        steps[d] == DfsStep::Discover(open_nodes(steps, k)[j]),
    ensures
        discovered(steps, open_nodes(steps, k)[i], d),
    decreases k,
{
    if k > 0 {
        let was = open_nodes(steps, k - 1);
        if j < was.len() {
            lemma_open_order(steps, edges, starts, k - 1, i, j, d);
        } else {
            lemma_open_discovered(steps, edges, starts, k - 1, i);
            // The node further up is discovered by the step before, and by no other.
            if d < k - 1 {
                assert(discovered(steps, open_nodes(steps, k)[j], k - 1));
            } else if d > k - 1 {
                assert(discovered(steps, open_nodes(steps, k)[j], d));
            }
        }
    }
}

/// Whether the search discovers the node `walk` starts from before all other nodes of `walk`.
pub open spec fn met_at_start(steps: Seq<DfsStep>, walk: Seq<(u8, usize)>) -> bool {
    exists|d: int|
        {
            &&& 0 <= d < steps.len()
            &&& #[trigger] steps[d] == DfsStep::Discover(walk[0])
            &&& forall|i: int|
                0 <= i < walk.len() ==> walk[i] == walk[0] || !discovered(
                    steps,
                    #[trigger] walk[i],
                    d,
                )
        }
}

/// A node that is discovered while `x` is open is finished when `x` is.
proof fn lemma_nested(
    steps: Seq<DfsStep>,
    edges: Seq<((u8, usize), (u8, usize))>,
    starts: Seq<(u8, usize)>,
    x: (u8, usize),
    d: int,
    f: int,
    b: (u8, usize),
)
    requires
        is_dfs(steps, edges, starts),
        0 <= d < f < steps.len(),
        steps[d] == DfsStep::Discover(x),
        steps[f] == DfsStep::Finish(x),
        b != x,
        !discovered(steps, b, d),
        discovered(steps, b, f),
    ensures
        finished(steps, b, f),
{
    let open = open_nodes(steps, f);
    assert(open.len() > 0 && open[open.len() - 1] == x);
    lemma_open_contains(steps, edges, starts, f, b);
    if open.contains(b) {
        let q = choose|q: int| 0 <= q < open.len() && open[q] == b;
        lemma_open_order(steps, edges, starts, f, q, open.len() - 1, d);
    }
}

/// Where a node that is finished when `x` is has an edge to a node that is not discovered before
/// `x`, that node is finished when `x` is, too.
proof fn lemma_edge_finished(
    steps: Seq<DfsStep>,
    edges: Seq<((u8, usize), (u8, usize))>,
    starts: Seq<(u8, usize)>,
    x: (u8, usize),
    d: int,
    f: int,
    a: (u8, usize),
    b: (u8, usize),
)
    requires
        is_dfs(steps, edges, starts),
        0 <= d < f < steps.len(),
        steps[d] == DfsStep::Discover(x),
        steps[f] == DfsStep::Finish(x),
        finished(steps, a, f + 1),
        edges.contains((a, b)),
        b == x || !discovered(steps, b, d),
    ensures
        finished(steps, b, f + 1),
{
    if b != x {
        let g = choose|g: int| 0 <= g < f + 1 && #[trigger] steps[g] == DfsStep::Finish(a);
        assert(edges_settled(steps, edges, a, g));
        if finished(steps, b, g) {
            lemma_later(steps, b, g, f + 1);
        } else {
            let j = choose|j: int| 0 <= j < g && #[trigger] steps[j] == DfsStep::BackEdge(a, b);
            lemma_open_contains(steps, edges, starts, j, b);
            lemma_later(steps, b, j, f);
            lemma_nested(steps, edges, starts, x, d, f, b);
            lemma_later(steps, b, f, f + 1);
        }
    }
}

/// What a walk leads to from the node at which the search met it is finished when that node is.
proof fn lemma_walk_finished(
    steps: Seq<DfsStep>,
    edges: Seq<((u8, usize), (u8, usize))>,
    starts: Seq<(u8, usize)>,
    walk: Seq<(u8, usize)>,
    d: int,
    f: int,
    i: int,
)
    requires
        is_dfs(steps, edges, starts),
        closed_walk(edges, walk),
        0 <= d < f < steps.len(),
        steps[d] == DfsStep::Discover(walk[0]),
        steps[f] == DfsStep::Finish(walk[0]),
        forall|j: int|
            0 <= j < walk.len() ==> walk[j] == walk[0] || !discovered(
                steps,
                #[trigger] walk[j],
                d,
            ),
        0 <= i < walk.len(),
    ensures
        finished(steps, walk[i], f + 1),
    decreases i,
{
    if i == 0 {
        assert(steps[f] == DfsStep::Finish(walk[0]));
    } else {
        lemma_walk_finished(steps, edges, starts, walk, d, f, i - 1);
        assert(edge_at(edges, walk, i - 1));
        assert(walk[i] == walk[0] || !discovered(steps, walk[i], d));
        lemma_edge_finished(steps, edges, starts, walk[0], d, f, walk[i - 1], walk[i]);
    }
}

/// A closed walk gives rise to a back edge to the node at which the search met it.
pub proof fn lemma_walk_back_edge(
    steps: Seq<DfsStep>,
    edges: Seq<((u8, usize), (u8, usize))>,
    starts: Seq<(u8, usize)>,
    walk: Seq<(u8, usize)>,
)
    requires
        is_dfs(steps, edges, starts),
        closed_walk(edges, walk),
        met_at_start(steps, walk),
    ensures
        back_edge(steps, walk[walk.len() - 2], walk[0], steps.len() as int),
{
    let x = walk[0];
    let d = choose|d: int|
        {
            &&& 0 <= d < steps.len()
            &&& #[trigger] steps[d] == DfsStep::Discover(walk[0])
            &&& forall|i: int|
                0 <= i < walk.len() ==> walk[i] == walk[0] || !discovered(
                    steps,
                    #[trigger] walk[i],
                    d,
                )
        };
    assert(steps[d] == DfsStep::Discover(x));
    let f = choose|f: int| 0 <= f < steps.len() && #[trigger] steps[f] == DfsStep::Finish(x);
    assert(steps[f] == DfsStep::Finish(x));
    let open = open_nodes(steps, f);
    assert(open[open.len() - 1] == x);
    assert(open.contains(x));
    lemma_open_contains(steps, edges, starts, f, x);
    if f < d {
        lemma_later(steps, x, f, d);
    }
    let i = walk.len() - 2;
    lemma_walk_finished(steps, edges, starts, walk, d, f, i);
    let a = walk[i];
    let g = choose|g: int| 0 <= g < f + 1 && #[trigger] steps[g] == DfsStep::Finish(a);
    assert(steps[g] == DfsStep::Finish(a));
    assert(edge_at(edges, walk, i));
    assert(edges_settled(steps, edges, a, g));
    if finished(steps, x, g) {
        lemma_later(steps, x, g, f);
    }
    let j = choose|j: int| 0 <= j < g && #[trigger] steps[j] == DfsStep::BackEdge(a, x);
    assert(steps[j] == DfsStep::BackEdge(a, x));
}

/// Of some discovered nodes, one is met first.
pub proof fn lemma_first_met(
    steps: Seq<DfsStep>,
    edges: Seq<((u8, usize), (u8, usize))>,
    starts: Seq<(u8, usize)>,
    nodes: Seq<(u8, usize)>,
) -> (r: (int, int))
    requires
        is_dfs(steps, edges, starts),
        nodes.len() > 0,
        forall|i: int|
            0 <= i < nodes.len() ==> discovered(steps, #[trigger] nodes[i], steps.len() as int),
    ensures
        0 <= r.0 < nodes.len(),
        0 <= r.1 < steps.len(),
        steps[r.1] == DfsStep::Discover(nodes[r.0]),
        forall|i: int|
            0 <= i < nodes.len() ==> nodes[i] == nodes[r.0] || !discovered(
                steps,
                #[trigger] nodes[i],
                r.1,
            ),
    decreases nodes.len(),
{
    let last = nodes.len() - 1;
    assert(discovered(steps, nodes[last], steps.len() as int));
    if last == 0 {
        let d = choose|d: int|
            0 <= d < steps.len() && #[trigger] steps[d] == DfsStep::Discover(nodes[0]);
        (0, d)
    } else {
        let front = nodes.drop_last();
        assert forall|i: int| 0 <= i < front.len() implies discovered(
            steps,
            #[trigger] front[i],
            steps.len() as int,
        ) by {
            assert(front[i] == nodes[i]);
        }
        let (m, d) = lemma_first_met(steps, edges, starts, front);
        assert forall|i: int| 0 <= i < front.len() implies nodes[i] == nodes[m] || !discovered(
            steps,
            #[trigger] nodes[i],
            d,
        ) by {
            assert(front[i] == nodes[i]);
        }
        if nodes[last] != nodes[m] && discovered(steps, nodes[last], d) {
            let e = choose|e: int|
                0 <= e < d && #[trigger] steps[e] == DfsStep::Discover(nodes[last]);
            assert(steps[d] == DfsStep::Discover(nodes[m]));
            assert(!discovered(steps, nodes[m], d));
            lemma_later(steps, nodes[m], e, d);
            lemma_earliest(steps, nodes, m, d, e)
        } else {
            (m, d)
        }
    }
}

/// Where the last of some nodes is discovered before the node that is met first among the others,
/// it is the one that is met first.
proof fn lemma_earliest(
    steps: Seq<DfsStep>,
    nodes: Seq<(u8, usize)>,
    m: int,
    d: int,
    e: int,
) -> (r: (int, int))
    requires
        0 <= m < nodes.len() - 1,
        0 <= e < d < steps.len(),
        steps[e] == DfsStep::Discover(nodes[nodes.len() - 1]),
        steps[d] == DfsStep::Discover(nodes[m]),
        !discovered(steps, nodes[m], e),
        forall|i: int|
            0 <= i < nodes.len() - 1 ==> nodes[i] == nodes[m] || !discovered(
                steps,
                #[trigger] nodes[i],
                d,
            ),
    ensures
        r == (nodes.len() - 1, e),
        forall|i: int|
            0 <= i < nodes.len() ==> nodes[i] == nodes[nodes.len() - 1] || !discovered(
                steps,
                #[trigger] nodes[i],
                e,
            ),
{
    assert forall|i: int| 0 <= i < nodes.len() implies nodes[i] == nodes[nodes.len() - 1]
        || !discovered(steps, #[trigger] nodes[i], e) by {
        if i < nodes.len() - 1 && nodes[i] != nodes[m] {
            lemma_later(steps, nodes[i], e, d);
        }
    }
    (nodes.len() - 1, e)
}

/// What an edge from a discovered node leads to is discovered.
pub proof fn lemma_edge_discovered(
    steps: Seq<DfsStep>,
    edges: Seq<((u8, usize), (u8, usize))>,
    starts: Seq<(u8, usize)>,
    u: (u8, usize),
    v: (u8, usize),
)
    requires
        is_dfs(steps, edges, starts),
        discovered(steps, u, steps.len() as int),
        edges.contains((u, v)),
    ensures
        discovered(steps, v, steps.len() as int),
{
    let n = steps.len() as int;
    let d = choose|d: int| 0 <= d < n && #[trigger] steps[d] == DfsStep::Discover(u);
    assert(finished(steps, u, n));
    let f = choose|f: int| 0 <= f < n && #[trigger] steps[f] == DfsStep::Finish(u);
    assert(edges_settled(steps, edges, u, f));
    if finished(steps, v, f) {
        lemma_open_contains(steps, edges, starts, f, v);
        lemma_later(steps, v, f, n);
    } else {
        let b = choose|b: int| 0 <= b < f && #[trigger] steps[b] == DfsStep::BackEdge(u, v);
        lemma_open_contains(steps, edges, starts, b, v);
        lemma_later(steps, v, b, n);
    }
}

} // verus!
