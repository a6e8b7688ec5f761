//! Ready-made example graphs.

use crate::apsp::Graph;
use vstd::prelude::*;

verus! {

/// The adjacency matrix of the four-vertex example graph.
pub open spec fn sample_adj(i: int, j: int) -> Option<int> {
    if i == 0 && j == 1 {
        Some(3)
    } else if i == 0 && j == 2 {
        Some(6)
    } else if i == 0 && j == 3 {
        Some(15)
    } else if i == 1 && j == 2 {
        Some(-2)
    } else if i == 2 && j == 3 {
        Some(2)
    } else if i == 3 && j == 0 {
        Some(1)
    } else if i == j {
        Some(0)
    } else {
        None
    }
}

/// The adjacency matrix of the three-vertex graph whose one cycle has
/// total weight `-1`.
pub open spec fn negative_cycle_adj(i: int, j: int) -> Option<int> {
    if i == 0 && j == 1 {
        Some(1)
    } else if i == 1 && j == 2 {
        Some(-3)
    } else if i == 2 && j == 0 {
        Some(1)
    } else if i == j {
        Some(0)
    } else {
        None
    }
}

/// A four-vertex directed example graph with one negative edge and no
/// negative cycle.
pub fn create_sample_graph() -> (g: Graph)
    ensures
        g.wf(),
        g.verts() == 4,
        forall|i: int, j: int| 0 <= i < 4 && 0 <= j < 4 ==> g.adj()[i][j] == sample_adj(i, j),
{
    let mut graph = Graph::new(4);
    graph.add_edge(0, 1, 3);
    graph.add_edge(0, 2, 6);
    graph.add_edge(0, 3, 15);
    graph.add_edge(1, 2, -2);
    graph.add_edge(2, 3, 2);
    graph.add_edge(3, 0, 1);
    graph
}

/// A three-vertex directed graph whose single cycle has total weight `-1`.
pub fn create_negative_cycle_graph() -> (g: Graph)
    ensures
        g.wf(),
        g.verts() == 3,
        forall|i: int, j: int|
            0 <= i < 3 && 0 <= j < 3 ==> g.adj()[i][j] == negative_cycle_adj(i, j),
{
    let mut graph = Graph::new(3);
    graph.add_edge(0, 1, 1);
    graph.add_edge(1, 2, -3);
    graph.add_edge(2, 0, 1);
    graph
}

} // verus!
