//! The lane graph: `petgraph`'s undirected `Graph`, with what this library
//! relies on of it stated as contracts that are taken on trust.

use vstd::prelude::*;
use petgraph::graph::{Graph, NodeIndex};
use petgraph::visit::EdgeRef;
use petgraph::Undirected;
use crate::lane::LaneType;

verus! {

/// `petgraph::graph::Graph`, carried as a value whose inside only the
/// functions below speak of.
#[verifier::external_type_specification]
#[verifier::external_body]
#[verifier::reject_recursive_types(N)]
#[verifier::reject_recursive_types(E)]
#[verifier::reject_recursive_types(Ty)]
#[verifier::reject_recursive_types(Ix)]
pub struct ExGraph<N, E, Ty, Ix>(Graph<N, E, Ty, Ix>);

/// `petgraph::Undirected`, the marker of graphs whose edges have no direction.
#[verifier::external_type_specification]
#[verifier::external_body]
pub struct ExUndirected(Undirected);

/// The number of nodes of a graph. Its nodes are numbered from zero in the
/// order in which they were added.
pub uninterp spec fn graph_node_count(graph: Graph<(), LaneType, Undirected>) -> nat;

/// The edges of a graph in the order in which they were added: for each, the
/// two nodes it was added between and its weight.
pub uninterp spec fn graph_edges(graph: Graph<(), LaneType, Undirected>) -> Seq<(usize, usize, LaneType)>;

/// Whether an edge runs between nodes `a` and `b`, in either direction.
pub open spec fn edge_joins(edge: (usize, usize, LaneType), a: usize, b: usize) -> bool {
    (edge.0 == a && edge.1 == b) || (edge.0 == b && edge.1 == a)
}

/// Whether node `a` is one end of an edge.
pub open spec fn edge_touches(edge: (usize, usize, LaneType), a: usize) -> bool {
    edge.0 == a || edge.1 == a
}

/// The end of an edge that is not `a` (`a` itself for a loop at `a`).
pub open spec fn edge_other_end(edge: (usize, usize, LaneType), a: usize) -> usize {
    if edge.0 == a {
        edge.1
    } else {
        edge.0
    }
}

/// `Graph::new_undirected`: a graph without nodes or edges.
#[verifier::external_body]
pub(crate) fn graph_new() -> (graph: Graph<(), LaneType, Undirected>)
    ensures
        graph_node_count(graph) == 0,
        graph_edges(graph) == Seq::<(usize, usize, LaneType)>::empty(),
{
    Graph::new_undirected()
}

/// `Graph::add_node`: the new node takes the next free number, and the edges
/// stay as they are. The call panics on a graph that is full for its 32-bit
/// indices, which `requires` leaves out.
#[verifier::external_body]
pub(crate) fn graph_add_node(graph: &mut Graph<(), LaneType, Undirected>) -> (node: usize)
    requires
        graph_node_count(*old(graph)) < u32::MAX,
    ensures
        node == graph_node_count(*old(graph)),
        graph_node_count(*final(graph)) == graph_node_count(*old(graph)) + 1,
        graph_edges(*final(graph)) == graph_edges(*old(graph)),
{
    graph.add_node(()).index()
}

/// `Graph::add_edge`: the edge is added behind those already there, parallel
/// edges included, and the nodes stay as they are. The call panics when an
/// end does not exist or the graph is full for its 32-bit indices, which
/// `requires` leaves out.
#[verifier::external_body]
pub(crate) fn graph_add_edge(
    graph: &mut Graph<(), LaneType, Undirected>,
    a: usize,
    b: usize,
    lane_type: LaneType,
)
    requires
        a < graph_node_count(*old(graph)) <= u32::MAX,
        b < graph_node_count(*old(graph)),
        graph_edges(*old(graph)).len() < u32::MAX,
    ensures
        graph_node_count(*final(graph)) == graph_node_count(*old(graph)),
        graph_edges(*final(graph)) == graph_edges(*old(graph)).push((a, b, lane_type)),
{
    graph.add_edge(NodeIndex::new(a), NodeIndex::new(b), lane_type);
}

/// Whether some edge of `edges` runs between nodes `a` and `b`.
pub open spec fn edges_join(edges: Seq<(usize, usize, LaneType)>, a: usize, b: usize) -> bool {
    exists|k: int| 0 <= k < edges.len() && edge_joins(#[trigger] edges[k], a, b)
}

/// Whether some edge of `edges` with weight `lane_type` runs between nodes `a` and `b`.
pub open spec fn edges_join_as(
    edges: Seq<(usize, usize, LaneType)>,
    a: usize,
    b: usize,
    lane_type: LaneType,
) -> bool {
    exists|k: int|
        0 <= k < edges.len() && edge_joins(#[trigger] edges[k], a, b) && edges[k].2 == lane_type
}

/// Whether `around` names the other end of every edge at node `a`, and
/// nothing else.
pub open spec fn lists_neighbors(
    edges: Seq<(usize, usize, LaneType)>,
    a: usize,
    around: Seq<usize>,
) -> bool {
    &&& forall|i: int| 0 <= i < around.len() ==> edges_join(edges, a, #[trigger] around[i])
    &&& forall|k: int|
        0 <= k < edges.len() && edge_touches(#[trigger] edges[k], a) ==> around.contains(
            edge_other_end(edges[k], a),
        )
}

/// Whether `around` names the other end and the weight of every edge at
/// node `a`, and nothing else.
pub open spec fn lists_edges(
    edges: Seq<(usize, usize, LaneType)>,
    a: usize,
    around: Seq<(usize, LaneType)>,
) -> bool {
    &&& forall|i: int|
        0 <= i < around.len() ==> edges_join_as(edges, a, (#[trigger] around[i]).0, around[i].1)
    &&& forall|k: int|
        0 <= k < edges.len() && edge_touches(#[trigger] edges[k], a) ==> around.contains(
            (edge_other_end(edges[k], a), edges[k].2),
        )
}

/// `Graph::contains_edge` on an undirected graph: whether some edge runs
/// between the two nodes, whichever way round it was added.
#[verifier::external_body]
pub(crate) fn graph_contains_edge(
    graph: &Graph<(), LaneType, Undirected>,
    a: usize,
    b: usize,
) -> (found: bool)
    requires
        a < graph_node_count(*graph) <= u32::MAX,
        b < graph_node_count(*graph),
    ensures
        found == edges_join(graph_edges(*graph), a, b),
{
    graph.contains_edge(NodeIndex::new(a), NodeIndex::new(b))
}

/// `Graph::neighbors` on an undirected graph: the other end of every edge at
/// node `a`, and nothing else. The order is left open.
#[verifier::external_body]
pub(crate) fn graph_neighbors(
    graph: &Graph<(), LaneType, Undirected>,
    a: usize,
) -> (around: Vec<usize>)
    requires
        a < graph_node_count(*graph) <= u32::MAX,
    ensures
        lists_neighbors(graph_edges(*graph), a, around@),
{
    graph.neighbors(NodeIndex::new(a)).map(|n| n.index()).collect()
}

/// `Graph::edges` on an undirected graph: for every edge at node `a`, its
/// other end (the edge's `target`) and its weight, and nothing else. The
/// order is left open.
#[verifier::external_body]
pub(crate) fn graph_edges_at(
    graph: &Graph<(), LaneType, Undirected>,
    a: usize,
) -> (around: Vec<(usize, LaneType)>)
    requires
        a < graph_node_count(*graph) <= u32::MAX,
    ensures
        lists_edges(graph_edges(*graph), a, around@),
{
    graph.edges(NodeIndex::new(a)).map(|e| (e.target().index(), *e.weight())).collect()
}

} // verus!
