//! Shortest paths in a graph, found by `fast_paths`.
//!
//! A [`PathGraph`] holds a list of edges and the graph that `fast_paths`
//! prepared from it. Only [`PathGraph::prepare`] makes one, so the two always
//! belong together; what is stated of a search rests on that.

use fast_paths::FastGraph;
use fast_paths::InputGraph;
use vstd::prelude::*;

verus! {

#[verifier::external_type_specification]
#[verifier::external_body]
pub struct ExFastGraph(FastGraph);

/// The nodes of the path that the path search finds from `source` to
/// `target` in the graph prepared from the given edges `(from, to, weight)`;
/// `None` where it finds none.
pub uninterp spec fn shortest_path(edges: Seq<(usize, usize, usize)>, source: usize, target: usize)
    -> Option<Seq<usize>>;

/// The number of nodes of the graph with the given edges: one more than the
/// greatest node of an edge that is no loop and has a weight.
pub open spec fn node_count(edges: Seq<(usize, usize, usize)>) -> nat
    decreases edges.len(),
{
    if edges.len() == 0 {
        0
    } else {
        let rest = node_count(edges.drop_last());
        let edge = edges.last();
        let top = if edge.0 >= edge.1 {
            edge.0
        } else {
            edge.1
        };
        if edge.0 == edge.1 || edge.2 < 1 || top < rest {
            rest
        } else {
            (top + 1) as nat
        }
    }
}

/// Every edge has the weight one, and its nodes can be counted.
pub open spec fn is_unit_graph(edges: Seq<(usize, usize, usize)>) -> bool {
    forall|i: int|
        0 <= i < edges.len() ==> (#[trigger] edges[i]).0 < usize::MAX && edges[i].1 < usize::MAX
            && edges[i].2 == 1
}

/// A list of edges with the graph prepared from it.
pub struct PathGraph {
    edges: Vec<(usize, usize, usize)>,
    graph: FastGraph,
}

impl PathGraph {
    /// The edges, as `(from, to, weight)`, that the graph was prepared from.
    pub closed spec fn edges(&self) -> Seq<(usize, usize, usize)> {
        self.edges@
    }

    /// `InputGraph::add_edge` for every edge, `freeze` and
    /// `fast_paths::prepare`: the graph of the given edges, prepared for path
    /// searches, kept with the edges. With edges of weight one no sum of
    /// weights overflows.
    #[verifier::external_body]
    pub(crate) fn prepare(edges: Vec<(usize, usize, usize)>) -> (r: PathGraph)
        requires
            is_unit_graph(edges@),
        ensures
            r.edges() == edges@,
    {
        let mut input_graph = InputGraph::new();
        for edge in &edges {
            input_graph.add_edge(edge.0, edge.1, edge.2);
        }
        input_graph.freeze();
        let graph = fast_paths::prepare(&input_graph);
        PathGraph { edges, graph }
    }

    /// `fast_paths::calc_path`: the nodes of the shortest path from `source`
    /// to `target`, a function of the edges that the graph was prepared from
    /// and of the two nodes. It panics on a node that the graph has not.
    #[verifier::external_body]
    pub(crate) fn find_path(&self, source: usize, target: usize) -> (r: Option<Vec<usize>>)
        requires
            source < node_count(self.edges()),
            target < node_count(self.edges()),
        ensures
            (r is Some) == (shortest_path(self.edges(), source, target) is Some),
            r is Some ==> r.unwrap()@ == shortest_path(self.edges(), source, target).unwrap(),
    {
        match fast_paths::calc_path(&self.graph, source, target) {
            Some(path) => Some(path.get_nodes().clone()),
            None => None,
        }
    }

    /// `FastGraph::get_num_nodes`: one more than the greatest node of an edge
    /// that was added, where loops and edges without weight are not added.
    #[verifier::external_body]
    pub(crate) fn node_count(&self) -> (r: usize)
        ensures
            r == node_count(self.edges()),
    {
        self.graph.get_num_nodes()
    }
}

} // verus!
