//! The elementary cycles of a directed graph.

use crate::cycle::rotated;
use crate::dfs::{
    back_edge, closed_walk, discovered, edge_at, is_dfs, lemma_edge_discovered, lemma_first_met,
    lemma_walk_back_edge, met_at_start, DfsStep,
};
use vstd::prelude::*;

verus! {

/// Whether `path` goes along edges from node to node and visits none twice.
pub open spec fn is_path(edges: Seq<((u8, usize), (u8, usize))>, path: Seq<(u8, usize)>) -> bool {
    &&& path.len() > 0
    &&& path.no_duplicates()
    &&& forall|i: int| 0 <= i < path.len() - 1 ==> #[trigger] edge_at(edges, path, i)
}

/// Whether `nodes` is an elementary cycle: a path with an edge from its last node to its first.
pub open spec fn is_circuit(
    edges: Seq<((u8, usize), (u8, usize))>,
    nodes: Seq<(u8, usize)>,
) -> bool {
    &&& is_path(edges, nodes)
    &&& edges.contains((nodes.last(), nodes[0]))
}

/// A path has at most one node more than the graph has edges.
pub proof fn lemma_path_len(edges: Seq<((u8, usize), (u8, usize))>, path: Seq<(u8, usize)>)
    requires
        is_path(edges, path),
    ensures
        path.len() <= edges.len() + 1,
{
    let ends = edges.map_values(|e: ((u8, usize), (u8, usize))| e.1);
    let rest = path.skip(1);
    assert(rest.no_duplicates());
    assert forall|n: (u8, usize)| #[trigger] rest.to_set().contains(n) implies ends.to_set().contains(
        n,
    ) by {
        let i = choose|i: int| 0 <= i < rest.len() && rest[i] == n;
        assert(edge_at(edges, path, i));
        let k = choose|k: int| 0 <= k < edges.len() && edges[k] == (path[i], path[i + 1]);
        assert(ends[k] == n);
    }
    rest.unique_seq_to_set();
    ends.lemma_cardinality_of_set();
    vstd::set_lib::lemma_len_subset(rest.to_set(), ends.to_set());
}

/// An elementary cycle is a closed walk.
pub proof fn lemma_circuit_walk(
    edges: Seq<((u8, usize), (u8, usize))>,
    nodes: Seq<(u8, usize)>,
)
    requires
        is_circuit(edges, nodes),
    ensures
        closed_walk(edges, nodes.push(nodes[0])),
{
    let walk = nodes.push(nodes[0]);
    assert forall|i: int| 0 <= i < walk.len() - 1 implies #[trigger] edge_at(edges, walk, i) by {
        assert(walk[i] == nodes[i]);
        if i < nodes.len() - 1 {
            assert(edge_at(edges, nodes, i));
            assert(walk[i + 1] == nodes[i + 1]);
        }
    }
}

/// An elementary cycle stays one wherever one starts to go around it.
pub proof fn lemma_rotated_circuit(
    edges: Seq<((u8, usize), (u8, usize))>,
    nodes: Seq<(u8, usize)>,
    p: int,
)
    requires
        is_circuit(edges, nodes),
        0 <= p < nodes.len(),
    ensures
        is_circuit(edges, rotated(nodes, p)),
        rotated(nodes, p)[0] == nodes[p],
        forall|i: int|
            0 <= i < nodes.len() ==> nodes.contains(#[trigger] rotated(nodes, p)[i]),
        forall|i: int| 0 <= i < nodes.len() ==> rotated(nodes, p).contains(#[trigger] nodes[i]),
{
    let r = rotated(nodes, p);
    let n = nodes.len() as int;
    assert forall|i: int| 0 <= i < n implies #[trigger] r[i] == nodes[if i < n - p {
        i + p
    } else {
        i - (n - p)
    }] by {}
    assert forall|i: int| 0 <= i < n implies r.contains(#[trigger] nodes[i]) by {
        assert(r[if i < p {
            i + (n - p)
        } else {
            i - p
        }] == nodes[i]);
    }
    assert forall|i: int| 0 <= i < n - 1 implies #[trigger] edge_at(edges, r, i) by {
        if i < n - p - 1 {
            assert(edge_at(edges, nodes, i + p));
        } else if i >= n - p {
            assert(edge_at(edges, nodes, i - (n - p)));
        }
    }
    if p > 0 {
        assert(edge_at(edges, nodes, p - 1));
    }
}

/// A graph with a closed walk has an elementary cycle.
pub proof fn lemma_walk_circuit(
    edges: Seq<((u8, usize), (u8, usize))>,
    walk: Seq<(u8, usize)>,
) -> (nodes: Seq<(u8, usize)>)
    requires
        closed_walk(edges, walk),
    ensures
        is_circuit(edges, nodes),
    decreases walk.len(),
{
    let front = walk.drop_last();
    if front.no_duplicates() {
        assert forall|i: int| 0 <= i < front.len() - 1 implies #[trigger] edge_at(
            edges,
            front,
            i,
        ) by {
            assert(edge_at(edges, walk, i));
        }
        assert(edge_at(edges, walk, walk.len() - 2));
        front
    } else {
        let (a, b) = choose|a: int, b: int|
            0 <= a < front.len() && 0 <= b < front.len() && a != b && front[a] == front[b];
        let i = if a < b {
            a
        } else {
            b
        };
        let j = if a < b {
            b
        } else {
            a
        };
        let shorter = walk.subrange(i, j + 1);
        assert forall|k: int| 0 <= k < shorter.len() - 1 implies #[trigger] edge_at(
            edges,
            shorter,
            k,
        ) by {
            assert(edge_at(edges, walk, i + k));
        }
        lemma_walk_circuit(edges, shorter)
    }
}

/// A search that starts from some node of an elementary cycle discovers all of them.
proof fn lemma_circuit_discovered(
    steps: Seq<DfsStep>,
    edges: Seq<((u8, usize), (u8, usize))>,
    starts: Seq<(u8, usize)>,
    nodes: Seq<(u8, usize)>,
    i: int,
)
    requires
        is_dfs(steps, edges, starts),
        is_path(edges, nodes),
        starts.contains(nodes[0]),
        0 <= i < nodes.len(),
    ensures
        discovered(steps, nodes[i], steps.len() as int),
    decreases i,
{
    if i > 0 {
        lemma_circuit_discovered(steps, edges, starts, nodes, i - 1);
        assert(edge_at(edges, nodes, i - 1));
        lemma_edge_discovered(steps, edges, starts, nodes[i - 1], nodes[i]);
    }
}

/// One of the edges of an elementary cycle is a back edge of a search that starts from some node of
/// the cycle: the edge to the node that is discovered first.
pub proof fn lemma_circuit_back_edge(
    steps: Seq<DfsStep>,
    edges: Seq<((u8, usize), (u8, usize))>,
    starts: Seq<(u8, usize)>,
    nodes: Seq<(u8, usize)>,
    q: int,
) -> (p: int)
    requires
        is_dfs(steps, edges, starts),
        is_circuit(edges, nodes),
        0 <= q < nodes.len(),
        starts.contains(nodes[q]),
    ensures
        0 <= p < nodes.len(),
        is_circuit(edges, rotated(nodes, p)),
        back_edge(steps, rotated(nodes, p).last(), rotated(nodes, p)[0], steps.len() as int),
{
    let first = rotated(nodes, q);
    lemma_rotated_circuit(edges, nodes, q);
    assert forall|i: int| 0 <= i < nodes.len() implies discovered(
        steps,
        #[trigger] nodes[i],
        steps.len() as int,
    ) by {
        assert(first.contains(nodes[i]));
        let j = choose|j: int| 0 <= j < first.len() && first[j] == nodes[i];
        lemma_circuit_discovered(steps, edges, starts, first, j);
    }
    let (p, d) = lemma_first_met(steps, edges, starts, nodes);
    let turned = rotated(nodes, p);
    lemma_rotated_circuit(edges, nodes, p);
    lemma_circuit_walk(edges, turned);
    let walk = turned.push(turned[0]);
    assert(met_at_start(steps, walk)) by {
        assert(steps[d] == DfsStep::Discover(walk[0]));
        assert forall|i: int| 0 <= i < walk.len() implies walk[i] == walk[0] || !discovered(
            steps,
            #[trigger] walk[i],
            d,
        ) by {
            if i < turned.len() {
                assert(walk[i] == turned[i]);
                assert(nodes.contains(turned[i]));
                let j = choose|j: int| 0 <= j < nodes.len() && nodes[j] == turned[i];
                assert(nodes[j] == nodes[p] || !discovered(steps, nodes[j], d));
            }
        }
    }
    lemma_walk_back_edge(steps, edges, starts, walk);
    assert(walk[walk.len() - 2] == turned.last());
    p
}

} // verus!
