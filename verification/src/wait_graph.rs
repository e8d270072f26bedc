//! The graph of what threads wait for, and the cycles in it.

use crate::bucket::{lemma_filter_none, lemma_filter_step};
use crate::circuit::{
    is_circuit, is_path, lemma_circuit_back_edge, lemma_circuit_walk, lemma_path_len,
    lemma_walk_circuit,
};
use crate::cycle::{
    lemma_distinct_normalized, lemma_usize_ordered, normalize_cycle, normalized, rotated,
};
use crate::dfs::{closed_walk, edge_at, has_cycle, is_dfs, DfsStep};
use crate::search::same_items;
use petgraph::graphmap::GraphMap;
use petgraph::visit::{depth_first_search, DfsEvent};
use petgraph::Directed;
use vstd::prelude::*;

verus! {

/// `petgraph::graphmap::GraphMap`, a graph whose nodes are values.
#[verifier::external_type_specification]
#[verifier::external_body]
#[verifier::reject_recursive_types(N)]
#[verifier::reject_recursive_types(E)]
#[verifier::reject_recursive_types(Ty)]
#[verifier::reject_recursive_types(S)]
pub struct ExGraphMap<N, E, Ty, S: std::hash::BuildHasher>(
    petgraph::graphmap::GraphMap<N, E, Ty, S>,
);

/// `petgraph::Directed`, which marks a graph whose edges have a direction.
#[verifier::external_type_specification]
#[verifier::external_body]
pub struct ExDirected(petgraph::Directed);

/// Whether a graph can have come about from an empty one by adding edges alone. The order in which
/// its edges were first added then determines the order of its nodes and that of the edges from
/// each node.
pub uninterp spec fn graph_grown(graph: GraphMap<(u8, usize), (), Directed>) -> bool;

/// The edges of a graph, in the order in which they were first added.
pub uninterp spec fn graph_edges(graph: GraphMap<(u8, usize), (), Directed>) -> Seq<
    ((u8, usize), (u8, usize)),
>;

/// The events of `petgraph::visit::depth_first_search` over the graph to which the given edges were
/// added in turn, from the given nodes in turn, when the visitor never stops it.
pub uninterp spec fn dfs_steps(
    edges: Seq<((u8, usize), (u8, usize))>,
    starts: Seq<(u8, usize)>,
) -> Seq<DfsStep>;

/// `items` with `item` appended, unless it is there already.
pub open spec fn with_item<A>(items: Seq<A>, item: A) -> Seq<A> {
    if items.contains(item) {
        items
    } else {
        items.push(item)
    }
}

/// The ends of the given edges, in the order in which they first occur.
pub open spec fn node_order(edges: Seq<((u8, usize), (u8, usize))>) -> Seq<(u8, usize)>
    decreases edges.len(),
{
    if edges.len() == 0 {
        Seq::empty()
    } else {
        with_item(with_item(node_order(edges.drop_last()), edges.last().0), edges.last().1)
    }
}

/// What a sequence holds once an item has been added to it.
pub(crate) proof fn lemma_with_item<A>(items: Seq<A>, item: A, x: A)
    ensures
        with_item(items, item).contains(x) <==> items.contains(x) || x == item,
{
    if !items.contains(item) {
        let more = items.push(item);
        assert(more[items.len() as int] == item);
        if items.contains(x) {
            let i = choose|i: int| 0 <= i < items.len() && items[i] == x;
            assert(more[i] == x);
        }
        if more.contains(x) && x != item {
            let i = choose|i: int| 0 <= i < more.len() && more[i] == x;
            assert(items[i] == x);
        }
    }
}

/// `GraphMap::with_capacity`: a graph without edges, with room for some. The bounds keep the sizes
/// that it asks for within what a layout can describe; past that it panics.
#[verifier::external_body]
fn graph_with_capacity(nodes: usize, edges: usize) -> (graph: GraphMap<(u8, usize), (), Directed>)
    requires
        nodes <= usize::MAX / 128,
        edges <= usize::MAX / 128,
    ensures
        graph_grown(graph),
        graph_edges(graph) == Seq::<((u8, usize), (u8, usize))>::empty(),
{
    GraphMap::with_capacity(nodes, edges)
}

/// `GraphMap::add_edge`: adds the edge from `a` to `b`, and its ends where they are not yet in the
/// graph. Nothing changes if the edge is there already. Running out of memory apart, it does not
/// fail.
#[verifier::external_body]
fn graph_add_edge(
    graph: &mut GraphMap<(u8, usize), (), Directed>,
    a: (u8, usize),
    b: (u8, usize),
)
    ensures
        graph_grown(*old(graph)) ==> graph_grown(*final(graph)),
        graph_edges(*final(graph)) == with_item(graph_edges(*old(graph)), (a, b)),
{
    graph.add_edge(a, b, ());
}

/// `GraphMap::nodes`: the nodes in the order in which they came into the graph.
#[verifier::external_body]
fn graph_nodes(graph: &GraphMap<(u8, usize), (), Directed>) -> (nodes: Vec<(u8, usize)>)
    requires
        graph_grown(*graph),
    ensures
        nodes@ == node_order(graph_edges(*graph)),
{
    graph.nodes().collect()
}

/// `GraphMap::all_edges`: the edges in the order in which they were first added.
#[verifier::external_body]
fn graph_all_edges(
    graph: &GraphMap<(u8, usize), (), Directed>,
) -> (edges: Vec<((u8, usize), (u8, usize))>)
    ensures
        edges@ == graph_edges(*graph),
{
    graph.all_edges().map(|edge| (edge.0, edge.1)).collect()
}

/// `petgraph::visit::depth_first_search`, with a visitor that notes each event and goes on. The
/// events are those of a depth first search of the graph from the given nodes. It recurses once for
/// each open node.
#[verifier::external_body]
fn graph_dfs(
    graph: &GraphMap<(u8, usize), (), Directed>,
    starts: &Vec<(u8, usize)>,
) -> (steps: Vec<DfsStep>)
    requires
        graph_grown(*graph),
    ensures
        steps@ == dfs_steps(graph_edges(*graph), starts@),
        is_dfs(steps@, graph_edges(*graph), starts@),
{
    let mut steps = Vec::new();
    depth_first_search(graph, starts.iter().copied(), |event| {
        steps.push(match event {
            DfsEvent::Discover(n, _) => DfsStep::Discover(n),
            DfsEvent::TreeEdge(u, v) => DfsStep::TreeEdge(u, v),
            DfsEvent::BackEdge(u, v) => DfsStep::BackEdge(u, v),
            DfsEvent::CrossForwardEdge(u, v) => DfsStep::CrossForwardEdge(u, v),
            DfsEvent::Finish(n, _) => DfsStep::Finish(n),
        })
    });
    steps
}

/// `petgraph::algo::is_cyclic_directed`: whether the graph contains a cycle. It recurses once for
/// each node on the way that it follows.
#[verifier::external_body]
fn graph_is_cyclic(graph: &GraphMap<(u8, usize), (), Directed>) -> (r: bool)
    ensures
        r == has_cycle(graph_edges(*graph)),
{
    petgraph::algo::is_cyclic_directed(graph)
}

/// A node of the wait graph.
#[derive(Hash, PartialEq, Eq, PartialOrd, Ord, Copy, Clone, Debug, Structural)]
pub enum WaitGraphNode {
    /// A thread.
    Thread(usize),
    /// A resource, by its key.
    Resource(usize),
}

/// The number that stands for a node in the graph. Numbers are ordered as nodes are.
pub open spec fn node_key(node: WaitGraphNode) -> (u8, usize) {
    match node {
        WaitGraphNode::Thread(t) => (0u8, t),
        WaitGraphNode::Resource(r) => (1u8, r),
    }
}

/// The node of a thread.
pub open spec fn thread_key(t: usize) -> (u8, usize) {
    node_key(WaitGraphNode::Thread(t))
}

/// The node of a resource.
pub open spec fn resource_key(r: usize) -> (u8, usize) {
    node_key(WaitGraphNode::Resource(r))
}

/// Whether a node is that of a thread.
pub open spec fn is_thread_key(key: (u8, usize)) -> bool {
    key.0 == 0
}

/// Different nodes have different numbers, and those of threads are told from those of resources.
pub proof fn lemma_node_keys(a: WaitGraphNode, b: WaitGraphNode)
    ensures
        node_key(a) == node_key(b) <==> a == b,
        is_thread_key(node_key(a)) <==> a is Thread,
        a matches WaitGraphNode::Thread(t) ==> node_key(a) == thread_key(t) && node_key(a).1 == t,
        a matches WaitGraphNode::Resource(r) ==> node_key(a) == resource_key(r) && node_key(a).1
            == r,
{
}

/// The numbers that stand for a node.
fn key_of_node(node: WaitGraphNode) -> (key: (u8, usize))
    ensures
        key == node_key(node),
{
    match node {
        WaitGraphNode::Thread(t) => (0, t),
        WaitGraphNode::Resource(r) => (1, r),
    }
}

/// The node that numbers stand for.
fn node_of_key(key: (u8, usize)) -> (node: WaitGraphNode)
    ensures
        is_thread_key(key) ==> node == WaitGraphNode::Thread(key.1),
        !is_thread_key(key) ==> node == WaitGraphNode::Resource(key.1),
{
    if key.0 == 0 {
        WaitGraphNode::Thread(key.1)
    } else {
        WaitGraphNode::Resource(key.1)
    }
}

/// A directed graph of threads and resources.
pub struct WaitGraph {
    graph: GraphMap<(u8, usize), (), Directed>,
}

impl View for WaitGraph {
    type V = Seq<((u8, usize), (u8, usize))>;

    closed spec fn view(&self) -> Seq<((u8, usize), (u8, usize))> {
        graph_edges(self.graph)
    }
}

impl WaitGraph {
    /// Whether nothing but the edges that were added to the graph has shaped it.
    pub closed spec fn wf(&self) -> bool {
        graph_grown(self.graph)
    }

    /// A graph without edges, with room for some.
    pub fn with_capacity(nodes: usize, edges: usize) -> (graph: WaitGraph)
        requires
            nodes <= usize::MAX / 128,
            edges <= usize::MAX / 128,
        ensures
            graph.wf(),
            graph@ == Seq::<((u8, usize), (u8, usize))>::empty(),
    {
        WaitGraph { graph: graph_with_capacity(nodes, edges) }
    }

    /// Adds an edge, unless it is there already.
    pub fn add_edge(&mut self, a: WaitGraphNode, b: WaitGraphNode)
        ensures
            old(self).wf() ==> final(self).wf(),
            final(self)@ == with_item(old(self)@, (node_key(a), node_key(b))),
    {
        graph_add_edge(&mut self.graph, key_of_node(a), key_of_node(b));
    }

    /// Whether the graph contains a cycle.
    pub fn is_cyclic(&self) -> (r: bool)
        ensures
            r == has_cycle(self@),
    {
        graph_is_cyclic(&self.graph)
    }
}

/// The nodes of the threads in a graph, in the order in which they came into it.
pub open spec fn thread_nodes(edges: Seq<((u8, usize), (u8, usize))>) -> Seq<(u8, usize)> {
    node_order(edges).filter(|key: (u8, usize)| is_thread_key(key))
}

/// The ends of an edge are among the nodes of the graph.
proof fn lemma_node_order(edges: Seq<((u8, usize), (u8, usize))>, e: ((u8, usize), (u8, usize)))
    requires
        edges.contains(e),
    ensures
        node_order(edges).contains(e.0),
        node_order(edges).contains(e.1),
    decreases edges.len(),
{
    let front = edges.drop_last();
    let last = edges.last();
    let some = node_order(front);
    let i = choose|i: int| 0 <= i < edges.len() && edges[i] == e;
    if i < edges.len() - 1 {
        assert(front[i] == e);
        lemma_node_order(front, e);
    }
    lemma_with_item(some, last.0, e.0);
    lemma_with_item(some, last.0, e.1);
    lemma_with_item(with_item(some, last.0), last.1, e.0);
    lemma_with_item(with_item(some, last.0), last.1, e.1);
}

/// The search starts from threads, and from each that has an edge.
pub proof fn lemma_thread_nodes(
    edges: Seq<((u8, usize), (u8, usize))>,
    e: ((u8, usize), (u8, usize)),
)
    requires
        edges.contains(e),
    ensures
        is_thread_key(e.0) ==> thread_nodes(edges).contains(e.0),
        is_thread_key(e.1) ==> thread_nodes(edges).contains(e.1),
{
    let nodes = node_order(edges);
    let pred = |key: (u8, usize)| is_thread_key(key);
    lemma_node_order(edges, e);
    let i = choose|i: int| 0 <= i < nodes.len() && nodes[i] == e.0;
    let j = choose|j: int| 0 <= j < nodes.len() && nodes[j] == e.1;
    if pred(nodes[i]) {
        nodes.lemma_filter_contains(pred, i);
    }
    if pred(nodes[j]) {
        nodes.lemma_filter_contains(pred, j);
    }
}

/// The threads among some nodes, in order.
pub open spec fn threads_of(nodes: Seq<(u8, usize)>) -> Seq<usize>
    decreases nodes.len(),
{
    if nodes.len() == 0 {
        Seq::empty()
    } else if is_thread_key(nodes.last()) {
        threads_of(nodes.drop_last()).push(nodes.last().1)
    } else {
        threads_of(nodes.drop_last())
    }
}

/// Whether `c` are the threads of an elementary cycle of the graph, in order and from the smallest
/// on.
pub open spec fn is_thread_cycle(edges: Seq<((u8, usize), (u8, usize))>, c: Seq<usize>) -> bool {
    exists|nodes: Seq<(u8, usize)>| #[trigger]
        is_circuit(edges, nodes) && threads_of(nodes).len() > 0 && c == normalized(
            threads_of(nodes),
        )
}

/// The threads among some nodes are those nodes that stand for threads, in order.
pub proof fn lemma_threads_of(nodes: Seq<(u8, usize)>)
    ensures
        threads_of(nodes) == nodes.filter(|n: (u8, usize)| n.0 == 0).map_values(
            |n: (u8, usize)| n.1,
        ),
    decreases nodes.len(),
{
    reveal(Seq::filter);
    if nodes.len() > 0 {
        let p = |n: (u8, usize)| n.0 == 0;
        let f = |n: (u8, usize)| n.1;
        let front = nodes.drop_last();
        lemma_threads_of(front);
        if p(nodes.last()) {
            assert(front.filter(p).push(nodes.last()).map_values(f) =~= front.filter(p).map_values(
                f,
            ).push(nodes.last().1));
        }
    } else {
        assert(threads_of(nodes) =~= nodes.filter(|n: (u8, usize)| n.0 == 0).map_values(
            |n: (u8, usize)| n.1,
        ));
    }
}

/// Going around different nodes along edges, from each to the next and from the last to the first,
/// gives a cycle of the threads among them, and there is no other.
pub proof fn lemma_thread_cycle(
    edges: Seq<((u8, usize), (u8, usize))>,
    c: Seq<usize>,
)
    ensures
        is_thread_cycle(edges, c) <==> exists|nodes: Seq<(u8, usize)>|
            {
                &&& nodes.len() > 0
                &&& #[trigger] nodes.no_duplicates()
                &&& forall|i: int, j: int|
                    #![trigger nodes[i], nodes[j]]
                    0 <= i < nodes.len() && (j == i + 1 && j < nodes.len() || j == 0 && i + 1
                        == nodes.len()) ==> edges.contains((nodes[i], nodes[j]))
                &&& threads_of(nodes).len() > 0
                &&& c == normalized(threads_of(nodes))
            },
{
    if is_thread_cycle(edges, c) {
        let nodes = choose|nodes: Seq<(u8, usize)>| #[trigger]
            is_circuit(edges, nodes) && threads_of(nodes).len() > 0 && c == normalized(
                threads_of(nodes),
            );
        assert forall|i: int, j: int|
            #![trigger nodes[i], nodes[j]]
            0 <= i < nodes.len() && (j == i + 1 && j < nodes.len() || j == 0 && i + 1
                == nodes.len()) implies edges.contains((nodes[i], nodes[j])) by {
            if j == i + 1 {
                assert(edge_at(edges, nodes, i));
            }
        }
        assert(nodes.no_duplicates());
    }
    if exists|nodes: Seq<(u8, usize)>|
        {
            &&& nodes.len() > 0
            &&& #[trigger] nodes.no_duplicates()
            &&& forall|i: int, j: int|
                #![trigger nodes[i], nodes[j]]
                0 <= i < nodes.len() && (j == i + 1 && j < nodes.len() || j == 0 && i + 1
                    == nodes.len()) ==> edges.contains((nodes[i], nodes[j]))
            &&& threads_of(nodes).len() > 0
            &&& c == normalized(threads_of(nodes))
        } {
        let nodes = choose|nodes: Seq<(u8, usize)>|
            {
                &&& nodes.len() > 0
                &&& #[trigger] nodes.no_duplicates()
                &&& forall|i: int, j: int|
                    #![trigger nodes[i], nodes[j]]
                    0 <= i < nodes.len() && (j == i + 1 && j < nodes.len() || j == 0 && i + 1
                        == nodes.len()) ==> edges.contains((nodes[i], nodes[j]))
                &&& threads_of(nodes).len() > 0
                &&& c == normalized(threads_of(nodes))
            };
        assert(is_circuit(edges, nodes));
    }
}

/// A list of cycles holds what its items hold.
pub proof fn lemma_cycle_list(cycles: Seq<Vec<usize>>, i: int)
    requires
        0 <= i < cycles.len(),
    ensures
        cycle_list(cycles).len() == cycles.len(),
        cycle_list(cycles)[i] == cycles[i]@,
{
}

/// Adding what is there already changes nothing; what is not there goes to the end.
pub proof fn lemma_added_item<A>(items: Seq<A>, item: A)
    ensures
        items.contains(item) ==> with_item(items, item) == items,
        !items.contains(item) ==> with_item(items, item).drop_last() == items && with_item(
            items,
            item,
        ).last() == item && with_item(items, item).len() == items.len() + 1,
{
    assert(items.push(item).drop_last() == items);
}

/// Whether `nodes` is a path that begins with `path` and ends at `target`.
pub open spec fn leads_to(
    edges: Seq<((u8, usize), (u8, usize))>,
    path: Seq<(u8, usize)>,
    target: (u8, usize),
    nodes: Seq<(u8, usize)>,
) -> bool {
    &&& is_path(edges, nodes)
    &&& path.len() <= nodes.len()
    &&& nodes.take(path.len() as int) == path
    &&& nodes.last() == target
}

/// Whether `c` are the threads, from the smallest on, of a path that begins with `path` and ends at
/// `target`.
pub open spec fn lies_on(
    edges: Seq<((u8, usize), (u8, usize))>,
    path: Seq<(u8, usize)>,
    target: (u8, usize),
    c: Seq<usize>,
) -> bool {
    exists|nodes: Seq<(u8, usize)>| #[trigger]
        leads_to(edges, path, target, nodes) && threads_of(nodes).len() > 0 && c == normalized(
            threads_of(nodes),
        )
}

/// Whether `c` are the threads, from the smallest on, of a cycle that the edge reported by a step
/// closes: of a path from the end of a back edge to its beginning.
pub open spec fn closed_by(
    edges: Seq<((u8, usize), (u8, usize))>,
    step: DfsStep,
    c: Seq<usize>,
) -> bool {
    match step {
        DfsStep::BackEdge(u, v) => lies_on(edges, seq![v], u, c),
        _ => false,
    }
}

/// Whether a back edge among the first `k` steps of a search closes the cycle `c`.
pub open spec fn gives_cycle(
    steps: Seq<DfsStep>,
    edges: Seq<((u8, usize), (u8, usize))>,
    k: int,
    c: Seq<usize>,
) -> bool {
    exists|j: int| 0 <= j < k && closed_by(edges, #[trigger] steps[j], c)
}

/// The cycles that the back edges of some steps close: each goes along edges through different
/// nodes, begins where a back edge leads to, and ends where it comes from.
pub proof fn lemma_back_edges_close(
    steps: Seq<DfsStep>,
    edges: Seq<((u8, usize), (u8, usize))>,
    c: Seq<usize>,
)
    ensures
        gives_cycle(steps, edges, steps.len() as int, c) <==> exists|k: int, nodes: Seq<(u8, usize)>|
            {
                &&& 0 <= k < steps.len()
                &&& nodes.len() > 0
                &&& #[trigger] steps[k] == DfsStep::BackEdge(nodes[nodes.len() - 1], nodes[0])
                &&& #[trigger] nodes.no_duplicates()
                &&& forall|i: int, j: int|
                    #![trigger nodes[i], nodes[j]]
                    0 <= i && j == i + 1 && j < nodes.len() ==> edges.contains((nodes[i], nodes[j]))
                &&& threads_of(nodes).len() > 0
                &&& c == normalized(threads_of(nodes))
            },
{
    if gives_cycle(steps, edges, steps.len() as int, c) {
        let k = choose|k: int| 0 <= k < steps.len() && closed_by(edges, #[trigger] steps[k], c);
        if let DfsStep::BackEdge(u, v) = steps[k] {
            let nodes = choose|nodes: Seq<(u8, usize)>| #[trigger]
                leads_to(edges, seq![v], u, nodes) && threads_of(nodes).len() > 0 && c
                    == normalized(threads_of(nodes));
            assert(nodes.take(1)[0] == v);
            assert forall|i: int, j: int|
                #![trigger nodes[i], nodes[j]]
                0 <= i && j == i + 1 && j < nodes.len() implies edges.contains(
                (nodes[i], nodes[j]),
            ) by {
                assert(edge_at(edges, nodes, i));
            }
            assert(steps[k] == DfsStep::BackEdge(nodes[nodes.len() - 1], nodes[0]));
            assert(nodes.no_duplicates());
        }
    }
    if exists|k: int, nodes: Seq<(u8, usize)>|
        {
            &&& 0 <= k < steps.len()
            &&& nodes.len() > 0
            &&& #[trigger] steps[k] == DfsStep::BackEdge(nodes[nodes.len() - 1], nodes[0])
            &&& #[trigger] nodes.no_duplicates()
            &&& forall|i: int, j: int|
                #![trigger nodes[i], nodes[j]]
                0 <= i && j == i + 1 && j < nodes.len() ==> edges.contains((nodes[i], nodes[j]))
            &&& threads_of(nodes).len() > 0
            &&& c == normalized(threads_of(nodes))
        } {
        let (k, nodes) = choose|k: int, nodes: Seq<(u8, usize)>|
            {
                &&& 0 <= k < steps.len()
                &&& nodes.len() > 0
                &&& #[trigger] steps[k] == DfsStep::BackEdge(nodes[nodes.len() - 1], nodes[0])
                &&& #[trigger] nodes.no_duplicates()
                &&& forall|i: int, j: int|
                    #![trigger nodes[i], nodes[j]]
                    0 <= i && j == i + 1 && j < nodes.len() ==> edges.contains((nodes[i], nodes[j]))
                &&& threads_of(nodes).len() > 0
                &&& c == normalized(threads_of(nodes))
            };
        assert(nodes.take(1) =~= seq![nodes[0]]);
        assert(leads_to(edges, seq![nodes[0]], nodes[nodes.len() - 1], nodes));
        assert(closed_by(edges, steps[k], c));
    }
}

/// What a list of cycles holds.
pub open spec fn cycle_list(cycles: Seq<Vec<usize>>) -> Seq<Seq<usize>> {
    Seq::new(cycles.len(), |i: int| cycles[i]@)
}

/// The threads of two stretches of nodes are those of the first and those of the second.
proof fn lemma_threads_of_add(a: Seq<(u8, usize)>, b: Seq<(u8, usize)>)
    ensures
        threads_of(a + b) == threads_of(a) + threads_of(b),
    decreases b.len(),
{
    if b.len() == 0 {
        assert(a + b == a);
        assert(threads_of(a) + threads_of(b) == threads_of(a));
    } else {
        lemma_threads_of_add(a, b.drop_last());
        assert((a + b).drop_last() == a + b.drop_last());
        assert((a + b).last() == b.last());
        assert(threads_of(a + b) =~= threads_of(a) + threads_of(b));
    }
}

/// The threads among some nodes, one by one.
pub(crate) proof fn lemma_threads_of_contains(nodes: Seq<(u8, usize)>, t: usize)
    ensures
        threads_of(nodes).contains(t) <==> nodes.contains(thread_key(t)),
    decreases nodes.len(),
{
    if nodes.len() > 0 {
        let front = nodes.drop_last();
        lemma_threads_of_contains(front, t);
        assert(nodes.contains(thread_key(t)) <==> front.contains(thread_key(t)) || nodes.last()
            == thread_key(t)) by {
            assert(nodes == front.push(nodes.last()));
            assert(nodes[nodes.len() - 1] == nodes.last());
            if front.contains(thread_key(t)) {
                let i = choose|i: int| 0 <= i < front.len() && front[i] == thread_key(t);
                assert(nodes[i] == thread_key(t));
            }
            if nodes.contains(thread_key(t)) && nodes.last() != thread_key(t) {
                let i = choose|i: int| 0 <= i < nodes.len() && nodes[i] == thread_key(t);
                assert(front[i] == thread_key(t));
            }
        }
        if is_thread_key(nodes.last()) {
            crate::bucket::lemma_push_contains(threads_of(front), nodes.last().1, t);
        }
    }
}

/// Distinct nodes are those of distinct threads.
proof fn lemma_threads_of_unique(nodes: Seq<(u8, usize)>)
    requires
        nodes.no_duplicates(),
    ensures
        threads_of(nodes).no_duplicates(),
    decreases nodes.len(),
{
    if nodes.len() > 0 {
        let front = nodes.drop_last();
        lemma_threads_of_unique(front);
        if is_thread_key(nodes.last()) {
            lemma_threads_of_contains(front, nodes.last().1);
            assert(nodes.last() == thread_key(nodes.last().1));
            assert(!front.contains(nodes.last()));
        }
    }
}

/// Going around a cycle from another node on gives its threads from another one on.
pub(crate) proof fn lemma_rotated_threads(nodes: Seq<(u8, usize)>, p: int)
    requires
        nodes.no_duplicates(),
        0 <= p < nodes.len(),
        threads_of(nodes).len() > 0,
    ensures
        threads_of(rotated(nodes, p)).len() == threads_of(nodes).len(),
        normalized(threads_of(rotated(nodes, p))) == normalized(threads_of(nodes)),
{
    let a = nodes.take(p);
    let b = nodes.skip(p);
    let threads = threads_of(nodes);
    let k = threads_of(a).len() as int;
    assert(a + b == nodes);
    lemma_threads_of_add(a, b);
    lemma_threads_of_add(b, a);
    lemma_threads_of_unique(nodes);
    assert(rotated(threads, k) == threads_of(rotated(nodes, p)));
    lemma_distinct_normalized(threads, k);
}

/// The cycles that the back edges of a search close are those of the graph.
proof fn lemma_closed_cycles(
    steps: Seq<DfsStep>,
    edges: Seq<((u8, usize), (u8, usize))>,
    c: Seq<usize>,
)
    requires
        is_dfs(steps, edges, thread_nodes(edges)),
    ensures
        gives_cycle(steps, edges, steps.len() as int, c) <==> is_thread_cycle(edges, c),
{
    let starts = thread_nodes(edges);
    if gives_cycle(steps, edges, steps.len() as int, c) {
        let j = choose|j: int|
            0 <= j < steps.len() && closed_by(edges, #[trigger] steps[j], c);
        if let DfsStep::BackEdge(u, v) = steps[j] {
            let nodes = choose|nodes: Seq<(u8, usize)>| #[trigger]
                leads_to(edges, seq![v], u, nodes) && threads_of(nodes).len() > 0 && c
                    == normalized(threads_of(nodes));
            assert(nodes.take(1)[0] == v);
            assert(is_circuit(edges, nodes));
        }
    }
    if is_thread_cycle(edges, c) {
        let nodes = choose|nodes: Seq<(u8, usize)>| #[trigger]
            is_circuit(edges, nodes) && threads_of(nodes).len() > 0 && c == normalized(
                threads_of(nodes),
            );
        let t = threads_of(nodes)[0];
        assert(threads_of(nodes).contains(t));
        lemma_threads_of_contains(nodes, t);
        let q = choose|q: int| 0 <= q < nodes.len() && nodes[q] == thread_key(t);
        assert(starts.contains(nodes[q])) by {
            lemma_circuit_walk(edges, nodes);
            let walk = nodes.push(nodes[0]);
            assert(edge_at(edges, walk, q));
            lemma_thread_nodes(edges, (walk[q], walk[q + 1]));
        }
        let p = lemma_circuit_back_edge(steps, edges, starts, nodes, q);
        let turned = rotated(nodes, p);
        lemma_rotated_threads(nodes, p);
        let j = choose|j: int|
            0 <= j < steps.len() && #[trigger] steps[j] == DfsStep::BackEdge(
                turned.last(),
                turned[0],
            );
        assert(turned.take(1) == seq![turned[0]]);
        assert(leads_to(edges, seq![turned[0]], turned.last(), turned));
        assert(closed_by(edges, steps[j], c));
    }
}

/// Whether every edge leads from a thread to a resource or from a resource to a thread.
pub open spec fn joins_threads_and_resources(edges: Seq<((u8, usize), (u8, usize))>) -> bool {
    forall|e: ((u8, usize), (u8, usize))| #[trigger]
        edges.contains(e) ==> is_thread_key(e.0) != is_thread_key(e.1)
}

/// Where edges join threads and resources, there is a cycle of threads exactly where the graph has
/// a cycle.
pub proof fn lemma_thread_cycle_exists(edges: Seq<((u8, usize), (u8, usize))>)
    requires
        joins_threads_and_resources(edges),
    ensures
        has_cycle(edges) <==> exists|c: Seq<usize>| is_thread_cycle(edges, c),
{
    if has_cycle(edges) {
        let walk = choose|walk: Seq<(u8, usize)>| closed_walk(edges, walk);
        let nodes = lemma_walk_circuit(edges, walk);
        let e = (nodes.last(), nodes[0]);
        assert(edges.contains(e));
        let n = if is_thread_key(e.0) {
            e.0
        } else {
            e.1
        };
        assert(nodes.contains(n));
        assert(n == thread_key(n.1));
        lemma_threads_of_contains(nodes, n.1);
        assert(is_thread_cycle(edges, normalized(threads_of(nodes))));
    }
    if exists|c: Seq<usize>| is_thread_cycle(edges, c) {
        let c = choose|c: Seq<usize>| is_thread_cycle(edges, c);
        let nodes = choose|nodes: Seq<(u8, usize)>| #[trigger]
            is_circuit(edges, nodes) && threads_of(nodes).len() > 0 && c == normalized(
                threads_of(nodes),
            );
        lemma_circuit_walk(edges, nodes);
    }
}

/// The nodes of threads among some nodes.
fn thread_starts(nodes: &Vec<(u8, usize)>) -> (starts: Vec<(u8, usize)>)
    ensures
        starts@ == nodes@.filter(|key: (u8, usize)| is_thread_key(key)),
{
    let mut starts: Vec<(u8, usize)> = Vec::new();
    let mut i: usize = 0;
    proof {
        lemma_filter_none(nodes@, |key: (u8, usize)| is_thread_key(key));
    }
    while i < nodes.len()
        invariant
            i <= nodes@.len(),
            starts@ == nodes@.take(i as int).filter(|key: (u8, usize)| is_thread_key(key)),
        decreases nodes@.len() - i,
    {
        proof {
            lemma_filter_step(nodes@, i as int, |key: (u8, usize)| is_thread_key(key));
        }
        if let WaitGraphNode::Thread(_) = node_of_key(nodes[i]) {
            starts.push(nodes[i]);
        }
        i = i + 1;
    }
    assert(nodes@.take(i as int) == nodes@);
    starts
}

/// Adds a cycle to a list, unless it is there already.
fn insert_cycle(cycles: &mut Vec<Vec<usize>>, cycle: Vec<usize>)
    requires
        cycle_list(old(cycles)@).no_duplicates(),
    ensures
        cycle_list(final(cycles)@) == with_item(cycle_list(old(cycles)@), cycle@),
        cycle_list(final(cycles)@).no_duplicates(),
{
    let mut i: usize = 0;
    while i < cycles.len()
        invariant
            i <= cycles@.len(),
            cycles@ == old(cycles)@,
            cycle_list(cycles@).no_duplicates(),
            forall|j: int| 0 <= j < i ==> (#[trigger] cycles@[j])@ != cycle@,
        decreases cycles@.len() - i,
    {
        if same_items(&cycles[i], &cycle) {
            assert(cycle_list(cycles@)[i as int] == cycle@);
            return;
        }
        i = i + 1;
    }
    let ghost before = cycle_list(cycles@);
    proof {
        if before.contains(cycle@) {
            let j = choose|j: int| 0 <= j < before.len() && before[j] == cycle@;
            assert(cycles@[j]@ == cycle@);
        }
    }
    cycles.push(cycle);
    assert(cycle_list(cycles@) =~= before.push(cycle@));
}

/// The threads among some nodes, in order.
fn path_threads(nodes: &Vec<(u8, usize)>) -> (threads: Vec<usize>)
    ensures
        threads@ == threads_of(nodes@),
{
    let mut threads: Vec<usize> = Vec::new();
    let mut i: usize = 0;
    assert(nodes@.take(0) == Seq::<(u8, usize)>::empty());
    while i < nodes.len()
        invariant
            i <= nodes@.len(),
            threads@ == threads_of(nodes@.take(i as int)),
        decreases nodes@.len() - i,
    {
        proof {
            assert(nodes@.take(i as int + 1).drop_last() == nodes@.take(i as int));
        }
        if let WaitGraphNode::Thread(t) = node_of_key(nodes[i]) {
            threads.push(t);
        }
        i = i + 1;
    }
    assert(nodes@.take(i as int) == nodes@);
    threads
}

/// Whether two nodes are the same.
fn same_node(a: (u8, usize), b: (u8, usize)) -> (r: bool)
    ensures
        r == (a == b),
{
    a.0 == b.0 && a.1 == b.1
}

/// Whether a node is on a path.
fn on_path(path: &Vec<(u8, usize)>, node: (u8, usize)) -> (r: bool)
    ensures
        r == path@.contains(node),
{
    let mut i: usize = 0;
    while i < path.len()
        invariant
            i <= path@.len(),
            forall|j: int| 0 <= j < i ==> #[trigger] path@[j] != node,
        decreases path@.len() - i,
    {
        if same_node(path[i], node) {
            return true;
        }
        i = i + 1;
    }
    false
}

/// Whether `c` lies on a path from `path` to `target` that goes on with one of the first `k` edges.
spec fn lies_beyond(
    edges: Seq<((u8, usize), (u8, usize))>,
    path: Seq<(u8, usize)>,
    target: (u8, usize),
    k: int,
    c: Seq<usize>,
) -> bool {
    exists|j: int|
        0 <= j < k && (#[trigger] edges[j]).0 == path.last() && !path.contains(edges[j].1)
            && lies_on(edges, path.push(edges[j].1), target, c)
}

/// What one more edge adds to what lies beyond.
proof fn lemma_lies_beyond(
    edges: Seq<((u8, usize), (u8, usize))>,
    path: Seq<(u8, usize)>,
    target: (u8, usize),
    k: int,
    c: Seq<usize>,
)
    requires
        0 <= k < edges.len(),
    ensures
        lies_beyond(edges, path, target, k + 1, c) <==> lies_beyond(edges, path, target, k, c) || (
        edges[k].0 == path.last() && !path.contains(edges[k].1) && lies_on(
            edges,
            path.push(edges[k].1),
            target,
            c,
        )),
{
    if lies_beyond(edges, path, target, k + 1, c) {
        let j = choose|j: int|
            0 <= j < k + 1 && (#[trigger] edges[j]).0 == path.last() && !path.contains(edges[j].1)
                && lies_on(edges, path.push(edges[j].1), target, c);
        assert(j == k || j < k);
    }
}

/// A path that does not end yet goes on with an edge; one that has reached its target ends there.
proof fn lemma_lies_on(
    edges: Seq<((u8, usize), (u8, usize))>,
    path: Seq<(u8, usize)>,
    target: (u8, usize),
    c: Seq<usize>,
)
    requires
        is_path(edges, path),
    ensures
        path.last() == target ==> (lies_on(edges, path, target, c) <==> threads_of(path).len() > 0
            && c == normalized(threads_of(path))),
        path.last() != target ==> (lies_on(edges, path, target, c) <==> lies_beyond(
            edges,
            path,
            target,
            edges.len() as int,
            c,
        )),
{
    let n = path.len() as int;
    if lies_on(edges, path, target, c) {
        let nodes = choose|nodes: Seq<(u8, usize)>| #[trigger]
            leads_to(edges, path, target, nodes) && threads_of(nodes).len() > 0 && c == normalized(
                threads_of(nodes),
            );
        assert(nodes.take(n)[n - 1] == nodes[n - 1]);
        if path.last() == target {
            assert(nodes[n - 1] == nodes[nodes.len() - 1]);
            assert(nodes.take(n) == nodes);
        } else {
            let y = nodes[n];
            assert(edge_at(edges, nodes, n - 1));
            let j = choose|j: int| 0 <= j < edges.len() && edges[j] == (nodes[n - 1], nodes[n]);
            if path.contains(y) {
                let i = choose|i: int| 0 <= i < path.len() && path[i] == y;
                assert(nodes.take(n)[i] == nodes[i]);
            }
            assert(nodes.take(n + 1) == path.push(y));
            assert(leads_to(edges, path.push(y), target, nodes));
            assert(edges[j].1 == y);
            assert(lies_beyond(edges, path, target, edges.len() as int, c));
        }
    }
    if path.last() == target && threads_of(path).len() > 0 && c == normalized(threads_of(path)) {
        assert(path.take(n) == path);
        assert(leads_to(edges, path, target, path));
    }
    if lies_beyond(edges, path, target, edges.len() as int, c) {
        let j = choose|j: int|
            0 <= j < edges.len() && (#[trigger] edges[j]).0 == path.last() && !path.contains(
                edges[j].1,
            ) && lies_on(edges, path.push(edges[j].1), target, c);
        let longer = path.push(edges[j].1);
        let nodes = choose|nodes: Seq<(u8, usize)>| #[trigger]
            leads_to(edges, longer, target, nodes) && threads_of(nodes).len() > 0 && c
                == normalized(threads_of(nodes));
        assert(nodes.take(n) == longer.take(n)) by {
            assert(nodes.take(n + 1).take(n) == nodes.take(n));
        }
        assert(longer.take(n) == path);
        assert(leads_to(edges, path, target, nodes));
    }
}

/// A path goes on with an edge to a node that it has not visited.
proof fn lemma_longer_path(
    edges: Seq<((u8, usize), (u8, usize))>,
    path: Seq<(u8, usize)>,
    k: int,
)
    requires
        is_path(edges, path),
        0 <= k < edges.len(),
        edges[k].0 == path.last(),
        !path.contains(edges[k].1),
    ensures
        is_path(edges, path.push(edges[k].1)),
{
    let longer = path.push(edges[k].1);
    assert(edges.contains(edges[k]));
    assert forall|i: int| 0 <= i < longer.len() - 1 implies #[trigger] edge_at(edges, longer, i) by {
        if i < path.len() - 1 {
            assert(edge_at(edges, path, i));
        }
    }
    assert forall|i: int, j: int|
        0 <= i < longer.len() && 0 <= j < longer.len() && i != j implies longer[i]
        != longer[j] by {
        if i < path.len() {
            assert(path.contains(path[i]));
        }
        if j < path.len() {
            assert(path.contains(path[j]));
        }
    }
}

/// Adds the thread cycle of each path that begins with `path` and ends at `target`.
fn list_cycles(
    edges: &Vec<((u8, usize), (u8, usize))>,
    path: &mut Vec<(u8, usize)>,
    target: (u8, usize),
    cycles: &mut Vec<Vec<usize>>,
)
    requires
        is_path(edges@, old(path)@),
        cycle_list(old(cycles)@).no_duplicates(),
    ensures
        final(path)@ == old(path)@,
        cycle_list(final(cycles)@).no_duplicates(),
        forall|c: Seq<usize>| #[trigger]
            cycle_list(final(cycles)@).contains(c) <==> cycle_list(old(cycles)@).contains(c)
                || lies_on(edges@, old(path)@, target, c),
    decreases edges@.len() + 1 - old(path)@.len(),
{
    let ghost begun = path@;
    let ghost before = cycle_list(cycles@);
    let last = path[path.len() - 1];
    proof {
        lemma_path_len(edges@, begun);
        assert forall|c: Seq<usize>| true implies #[trigger] lies_on(edges@, begun, target, c) == (
        if begun.last() == target {
            threads_of(begun).len() > 0 && c == normalized(threads_of(begun))
        } else {
            lies_beyond(edges@, begun, target, edges@.len() as int, c)
        }) by {
            lemma_lies_on(edges@, begun, target, c);
        }
    }
    if same_node(last, target) {
        let threads = path_threads(path);
        if threads.len() > 0 {
            let cycle = normalize_cycle(threads.as_slice());
            proof {
                lemma_usize_ordered();
                assert forall|c: Seq<usize>| #[trigger]
                    with_item(before, cycle@).contains(c) <==> before.contains(c) || c
                        == cycle@ by {
                    lemma_with_item(before, cycle@, c);
                }
            }
            insert_cycle(cycles, cycle);
        }
        return;
    }
    let mut k: usize = 0;
    while k < edges.len()
        invariant
            k <= edges@.len(),
            path@ == begun,
            begun == old(path)@,
            is_path(edges@, begun),
            last == begun.last(),
            cycle_list(cycles@).no_duplicates(),
            forall|c: Seq<usize>| #[trigger]
                cycle_list(cycles@).contains(c) <==> before.contains(c) || lies_beyond(
                    edges@,
                    begun,
                    target,
                    k as int,
                    c,
                ),
        decreases edges@.len() - k,
    {
        let ghost listed = cycle_list(cycles@);
        let (from, to) = edges[k];
        if same_node(from, last) && !on_path(path, to) {
            proof {
                lemma_longer_path(edges@, begun, k as int);
                lemma_path_len(edges@, begun.push(to));
            }
            path.push(to);
            list_cycles(edges, path, target, cycles);
            path.pop();
            assert(path@ == begun);
        }
        proof {
            assert forall|c: Seq<usize>| #[trigger]
                cycle_list(cycles@).contains(c) <==> before.contains(c) || lies_beyond(
                    edges@,
                    begun,
                    target,
                    k as int + 1,
                    c,
                ) by {
                lemma_lies_beyond(edges@, begun, target, k as int, c);
                assert(listed.contains(c) <==> before.contains(c) || lies_beyond(
                    edges@,
                    begun,
                    target,
                    k as int,
                    c,
                ));
            }
        }
        k = k + 1;
    }
}

/// The thread cycles that the back edges of a depth first search close in a graph with the given
/// edges: for each back edge, those of all paths from its end to its beginning. No cycle is listed
/// twice.
pub fn cycles_of_steps(
    steps: &Vec<DfsStep>,
    edges: &Vec<((u8, usize), (u8, usize))>,
) -> (r: Vec<Vec<usize>>)
    ensures
        cycle_list(r@).no_duplicates(),
        forall|c: Seq<usize>| #[trigger]
            cycle_list(r@).contains(c) <==> gives_cycle(steps@, edges@, steps@.len() as int, c),
{
    let mut cycles: Vec<Vec<usize>> = Vec::new();
    let mut k: usize = 0;
    while k < steps.len()
        invariant
            k <= steps@.len(),
            cycle_list(cycles@).no_duplicates(),
            forall|c: Seq<usize>| #[trigger]
                cycle_list(cycles@).contains(c) <==> gives_cycle(steps@, edges@, k as int, c),
        decreases steps@.len() - k,
    {
        let ghost listed = cycle_list(cycles@);
        if let DfsStep::BackEdge(u, v) = steps[k] {
            let mut path: Vec<(u8, usize)> = Vec::new();
            path.push(v);
            assert(path@ == seq![v]);
            list_cycles(edges, &mut path, u, &mut cycles);
        }
        proof {
            assert forall|c: Seq<usize>| #[trigger]
                cycle_list(cycles@).contains(c) <==> gives_cycle(
                    steps@,
                    edges@,
                    k as int + 1,
                    c,
                ) by {
                lemma_gives_cycle(steps@, edges@, k as int, c);
                assert(listed.contains(c) <==> gives_cycle(steps@, edges@, k as int, c));
            }
        }
        k = k + 1;
    }
    cycles
}

/// What one more step adds to the cycles.
proof fn lemma_gives_cycle(
    steps: Seq<DfsStep>,
    edges: Seq<((u8, usize), (u8, usize))>,
    k: int,
    c: Seq<usize>,
)
    requires
        0 <= k < steps.len(),
    ensures
        gives_cycle(steps, edges, k + 1, c) <==> gives_cycle(steps, edges, k, c) || closed_by(
            edges,
            steps[k],
            c,
        ),
{
    if gives_cycle(steps, edges, k + 1, c) {
        let j = choose|j: int| 0 <= j < k + 1 && closed_by(edges, #[trigger] steps[j], c);
        assert(j == k || j < k);
    }
}

/// Returns all thread cycles in the wait graph: the threads of each elementary cycle, from the
/// smallest on. No cycle is listed twice.
///
/// Each cycle has an edge that a depth first search, started from each thread, reports as a back
/// edge; so all paths are followed that such an edge closes. Where resources have many owners,
/// there can be many.
pub fn graph_cycles(g: &WaitGraph) -> (r: Vec<Vec<usize>>)
    requires
        g.wf(),
    ensures
        cycle_list(r@).no_duplicates(),
        forall|c: Seq<usize>| #[trigger]
            cycle_list(r@).contains(c) <==> is_thread_cycle(g@, c),
        joins_threads_and_resources(g@) ==> (r@.len() > 0 <==> has_cycle(g@)),
{
    // start from threads to get the correct threads cycle
    let starts = thread_starts(&graph_nodes(&g.graph));
    let steps = graph_dfs(&g.graph, &starts);
    let edges = graph_all_edges(&g.graph);
    let cycles = cycles_of_steps(&steps, &edges);
    proof {
        let list = cycle_list(cycles@);
        assert forall|c: Seq<usize>| #[trigger] list.contains(c) <==> is_thread_cycle(g@, c) by {
            lemma_closed_cycles(steps@, g@, c);
        }
        if joins_threads_and_resources(g@) {
            lemma_thread_cycle_exists(g@);
            if cycles@.len() > 0 {
                assert(list.contains(list[0]));
                assert(is_thread_cycle(g@, list[0]));
            }
            if has_cycle(g@) {
                let c = choose|c: Seq<usize>| is_thread_cycle(g@, c);
                assert(list.contains(c));
            }
        }
    }
    cycles
}

} // verus!
