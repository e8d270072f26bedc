use parking_lot_core::dfs::DfsStep;
use parking_lot_core::wait_graph::{cycles_of_steps, graph_cycles, WaitGraph, WaitGraphNode};
use WaitGraphNode::{Resource, Thread};

/// A graph with the given edges.
fn graph_of(edges: &[(WaitGraphNode, WaitGraphNode)]) -> WaitGraph {
    let mut graph = WaitGraph::with_capacity(2, 2);
    for &(a, b) in edges {
        graph.add_edge(a, b);
    }
    graph
}

#[test]
fn a_graph_without_edges_has_no_cycle() {
    let graph = graph_of(&[]);
    assert!(!graph.is_cyclic());
    assert!(graph_cycles(&graph).is_empty());
}

#[test]
fn a_cycle_in_the_graph_is_found() {
    let graph = graph_of(&[
        (Thread(4), Resource(1)),
        (Resource(1), Thread(2)),
        (Thread(2), Resource(3)),
        (Resource(3), Thread(4)),
    ]);
    assert!(graph.is_cyclic());
    assert_eq!(graph_cycles(&graph), vec![vec![2, 4]]);
}

#[test]
fn an_edge_the_other_way_is_no_cycle() {
    let graph = graph_of(&[(Thread(0), Resource(1)), (Thread(2), Resource(1))]);
    assert!(!graph.is_cyclic());
    assert!(graph_cycles(&graph).is_empty());
}

#[test]
fn an_edge_that_is_added_twice_counts_once() {
    let graph = graph_of(&[
        (Thread(0), Resource(1)),
        (Resource(1), Thread(0)),
        (Thread(0), Resource(1)),
        (Resource(1), Thread(0)),
    ]);
    assert_eq!(graph_cycles(&graph), vec![vec![0]]);
}

#[test]
fn two_cycles_through_one_thread_are_both_found() {
    let graph = graph_of(&[
        (Thread(0), Resource(1)),
        (Resource(1), Thread(1)),
        (Resource(1), Thread(2)),
        (Thread(1), Resource(2)),
        (Thread(2), Resource(3)),
        (Resource(2), Thread(0)),
        (Resource(3), Thread(0)),
    ]);
    let mut cycles = graph_cycles(&graph);
    cycles.sort();
    assert_eq!(cycles, vec![vec![0, 1], vec![0, 2]]);
}

#[test]
fn a_cycle_that_is_entered_at_a_resource_is_found() {
    let graph = graph_of(&[
        (Thread(0x10), Resource(1)),
        (Resource(1), Thread(0x20)),
        (Thread(0x20), Resource(1)),
    ]);
    assert!(graph.is_cyclic());
    assert_eq!(graph_cycles(&graph), vec![vec![0x20]]);
}

#[test]
fn a_cycle_that_a_search_does_not_go_along_is_found() {
    // two ways lead from the first thread to the second resource, and one leads back
    let graph = graph_of(&[
        (Thread(0), Resource(1)),
        (Resource(1), Thread(1)),
        (Resource(1), Thread(2)),
        (Thread(1), Resource(2)),
        (Thread(2), Resource(2)),
        (Resource(2), Thread(0)),
    ]);
    let mut cycles = graph_cycles(&graph);
    cycles.sort();
    assert_eq!(cycles, vec![vec![0, 1], vec![0, 2]]);
}

#[test]
fn a_cycle_of_resources_alone_has_no_threads_to_list() {
    let graph = graph_of(&[(Resource(1), Resource(2)), (Resource(2), Resource(1))]);
    assert!(graph.is_cyclic());
    assert!(graph_cycles(&graph).is_empty());
}

#[test]
fn the_back_edges_of_a_search_give_the_cycles() {
    let edges = vec![
        ((0, 5), (1, 1)),
        ((1, 1), (0, 3)),
        ((0, 3), (1, 2)),
        ((0, 3), (1, 1)),
        ((1, 2), (0, 5)),
    ];
    let steps = vec![
        DfsStep::Discover((0, 5)),
        DfsStep::TreeEdge((0, 5), (1, 1)),
        DfsStep::Discover((1, 1)),
        DfsStep::TreeEdge((1, 1), (0, 3)),
        DfsStep::Discover((0, 3)),
        DfsStep::TreeEdge((0, 3), (1, 2)),
        DfsStep::Discover((1, 2)),
        DfsStep::BackEdge((1, 2), (0, 5)),
        DfsStep::Finish((1, 2)),
        DfsStep::BackEdge((0, 3), (1, 1)),
        DfsStep::Finish((0, 3)),
        DfsStep::Finish((1, 1)),
        DfsStep::Finish((0, 5)),
    ];
    let mut cycles = cycles_of_steps(&steps, &edges);
    cycles.sort();
    assert_eq!(cycles, vec![vec![3], vec![3, 5]]);
}

#[test]
fn a_cycle_that_is_met_twice_is_listed_once() {
    let edges = vec![
        ((0, 5), (1, 1)),
        ((1, 1), (0, 5)),
        ((0, 5), (1, 2)),
        ((1, 2), (0, 5)),
    ];
    let steps = vec![
        DfsStep::Discover((0, 5)),
        DfsStep::Discover((1, 1)),
        DfsStep::BackEdge((1, 1), (0, 5)),
        DfsStep::Finish((1, 1)),
        DfsStep::Discover((1, 2)),
        DfsStep::BackEdge((1, 2), (0, 5)),
        DfsStep::Finish((1, 2)),
        DfsStep::Finish((0, 5)),
    ];
    assert_eq!(cycles_of_steps(&steps, &edges), vec![vec![5]]);
    assert!(cycles_of_steps(&Vec::new(), &edges).is_empty());
    assert!(cycles_of_steps(&steps, &Vec::new()).is_empty());
}
