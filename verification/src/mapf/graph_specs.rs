//! Contracts for the `petgraph` graphs that back the library's graphs.
//!
//! Nothing in this file is proved: each contract restates what the
//! `petgraph` source does, over the two sequences that a graph holds.

use vstd::prelude::*;
use petgraph::graph::{Graph, NodeIndex};
use petgraph::visit::EdgeRef;
use petgraph::{Directed, Undirected};

verus! {

#[verifier::external_type_specification]
#[verifier::external_body]
#[verifier::reject_recursive_types(N)]
#[verifier::reject_recursive_types(E)]
#[verifier::reject_recursive_types(Ty)]
#[verifier::reject_recursive_types(Ix)]
pub struct ExGraph<N, E, Ty, Ix>(Graph<N, E, Ty, Ix>);

#[verifier::external_type_specification]
#[verifier::external_body]
pub struct ExUndirected(Undirected);

#[verifier::external_type_specification]
#[verifier::external_body]
pub struct ExDirected(Directed);

/// The node payloads of an undirected coordinate graph, in the order in
/// which the nodes were added.
pub uninterp spec fn coord_nodes(g: Graph<(usize, usize), usize, Undirected, u32>) -> Seq<(usize, usize)>;

/// The edges of an undirected coordinate graph as (endpoint, endpoint,
/// weight), in the order in which they were added.
pub uninterp spec fn coord_edges(g: Graph<(usize, usize), usize, Undirected, u32>) -> Seq<(usize, usize, usize)>;

/// `Graph::new_undirected`: a graph without nodes and without edges.
#[verifier::external_body]
pub(crate) fn coord_graph_new() -> (g: Graph<(usize, usize), usize, Undirected, u32>)
    ensures
        coord_nodes(g) == Seq::<(usize, usize)>::empty(),
        coord_edges(g) == Seq::<(usize, usize, usize)>::empty(),
{
    Graph::new_undirected()
}

/// `Graph::add_node`: appends one node with the given payload and returns
/// its index, which is the number of nodes before the call. The edges stay.
/// `petgraph` panics when the index would be `u32::MAX`.
#[verifier::external_body]
pub(crate) fn coord_graph_add_node(
    g: &mut Graph<(usize, usize), usize, Undirected, u32>,
    payload: (usize, usize),
) -> (index: usize)
    requires
        coord_nodes(*old(g)).len() < u32::MAX,
    ensures
        index == coord_nodes(*old(g)).len(),
        coord_nodes(*final(g)) == coord_nodes(*old(g)).push(payload),
        coord_edges(*final(g)) == coord_edges(*old(g)),
{
    g.add_node(payload).index()
}

/// `Graph::add_edge`: appends one edge between two existing nodes. The
/// nodes stay. `petgraph` panics when an endpoint is missing or when the
/// edge's index would be `u32::MAX`.
#[verifier::external_body]
pub(crate) fn coord_graph_add_edge(
    g: &mut Graph<(usize, usize), usize, Undirected, u32>,
    a: usize,
    b: usize,
    weight: usize,
)
    requires
        a < coord_nodes(*old(g)).len(),
        b < coord_nodes(*old(g)).len(),
        a <= u32::MAX,
        b <= u32::MAX,
        coord_edges(*old(g)).len() < u32::MAX,
    ensures
        coord_nodes(*final(g)) == coord_nodes(*old(g)),
        coord_edges(*final(g)) == coord_edges(*old(g)).push((a, b, weight)),
{
    g.add_edge(NodeIndex::new(a), NodeIndex::new(b), weight);
}

/// `Graph::node_count`: the number of nodes.
#[verifier::external_body]
pub(crate) fn coord_graph_node_count(g: &Graph<(usize, usize), usize, Undirected, u32>) -> (n: usize)
    ensures
        n == coord_nodes(*g).len(),
{
    g.node_count()
}

/// `Graph::edge_count`: the number of edges.
#[verifier::external_body]
pub(crate) fn coord_graph_edge_count(g: &Graph<(usize, usize), usize, Undirected, u32>) -> (n: usize)
    ensures
        n == coord_edges(*g).len(),
{
    g.edge_count()
}

/// `Graph::node_weight`: the payload of node `a`, or `None` when the graph
/// has no such node. The index must fit the graph's 32-bit index type.
#[verifier::external_body]
pub(crate) fn coord_graph_node_weight(
    g: &Graph<(usize, usize), usize, Undirected, u32>,
    a: usize,
) -> (payload: Option<(usize, usize)>)
    requires
        a <= u32::MAX,
    ensures
        a < coord_nodes(*g).len() ==> payload == Some(coord_nodes(*g)[a as int]),
        a >= coord_nodes(*g).len() ==> payload.is_none(),
{
    g.node_weight(NodeIndex::new(a)).copied()
}

/// Whether an undirected edge joins `a` to `b`, in either direction.
pub open spec fn joins(edge: (usize, usize, usize), a: int, b: int) -> bool {
    (edge.0 == a && edge.1 == b) || (edge.0 == b && edge.1 == a)
}

/// Whether some edge of `edges` joins `a` to `b` with weight `w`.
pub open spec fn some_edge_joins(edges: Seq<(usize, usize, usize)>, a: int, b: int, w: int) -> bool {
    exists|e: int| 0 <= e < edges.len() && #[trigger] joins(edges[e], a, b) && edges[e].2 == w
}

/// Whether (`b`, `w`) is an entry of `out`.
pub open spec fn lists_pair(out: Seq<(usize, usize)>, b: int, w: int) -> bool {
    exists|k: int| 0 <= k < out.len() && (#[trigger] out[k]).0 == b && out[k].1 == w
}

/// `Graph::edges` on an undirected graph: every edge that touches `a`,
/// reported as (other endpoint, weight), and nothing else, each edge at
/// most once. The order is that of `petgraph`'s adjacency lists and is not
/// stated here.
#[verifier::external_body]
pub(crate) fn coord_graph_edges_of(
    g: &Graph<(usize, usize), usize, Undirected, u32>,
    a: usize,
) -> (out: Vec<(usize, usize)>)
    requires
        a <= u32::MAX,
    ensures
        forall|k: int|
            0 <= k < out@.len() ==> some_edge_joins(
                coord_edges(*g),
                a as int,
                (#[trigger] out@[k]).0 as int,
                out@[k].1 as int,
            ),
        forall|b: int, w: int| #[trigger]
            some_edge_joins(coord_edges(*g), a as int, b, w) ==> lists_pair(out@, b, w),
        out@.len() <= coord_edges(*g).len(),
{
    g.edges(NodeIndex::new(a)).map(|e| (e.target().index(), *e.weight())).collect()
}

/// The number of nodes of a directed graph without node payloads.
pub uninterp spec fn plain_node_total(g: Graph<(), usize, Directed, u32>) -> nat;

/// The edges of a directed graph without node payloads as (source,
/// target, weight), in the order in which they were added.
pub uninterp spec fn plain_edges(g: Graph<(), usize, Directed, u32>) -> Seq<(usize, usize, usize)>;

/// Whether some edge of `edges` runs from `a` to `b` with weight `w`.
pub open spec fn some_edge_runs(edges: Seq<(usize, usize, usize)>, a: int, b: int, w: int) -> bool {
    exists|e: int| 0 <= e < edges.len() && (#[trigger] edges[e]).0 == a && edges[e].1 == b && edges[e].2 == w
}

/// `Graph::node_count`: the number of nodes.
#[verifier::external_body]
pub(crate) fn plain_graph_node_count(g: &Graph<(), usize, Directed, u32>) -> (n: usize)
    ensures
        n == plain_node_total(*g),
{
    g.node_count()
}

/// `Graph::edges` on a directed graph: every edge that leaves `a`,
/// reported as (target, weight), and nothing else, each edge at most once.
/// The order is that of `petgraph`'s adjacency lists and is not stated
/// here.
#[verifier::external_body]
pub(crate) fn plain_graph_edges_of(g: &Graph<(), usize, Directed, u32>, a: usize) -> (out: Vec<(usize, usize)>)
    requires
        a <= u32::MAX,
    ensures
        forall|k: int|
            0 <= k < out@.len() ==> some_edge_runs(
                plain_edges(*g),
                a as int,
                (#[trigger] out@[k]).0 as int,
                out@[k].1 as int,
            ),
        forall|b: int, w: int| #[trigger] some_edge_runs(plain_edges(*g), a as int, b, w) ==> lists_pair(out@, b, w),
        out@.len() <= plain_edges(*g).len(),
{
    g.edges(NodeIndex::new(a)).map(|e| (e.target().index(), *e.weight())).collect()
}

} // verus!
