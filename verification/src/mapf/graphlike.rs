//! The capability interface through which the solvers read a graph.

use vstd::prelude::*;
use petgraph::graph::Graph;
use petgraph::{Directed, Undirected};
use crate::mapf::graph_specs::{
    coord_edges, coord_graph_edges_of, coord_graph_node_count, coord_graph_node_weight, coord_nodes, lists_pair,
    plain_edges, plain_graph_edges_of, plain_graph_node_count, plain_node_total, some_edge_joins, some_edge_runs,
};
use crate::mapf::{Location, MapfError};

verus! {

/// Whether (`to`, `weight`) is an entry of a neighbour list.
pub open spec fn lists_arc(out: Seq<(Location, usize)>, to: int, weight: int) -> bool {
    exists|k: int| 0 <= k < out.len() && (#[trigger] out[k]).0.index == to && out[k].1 == weight
}

/// A weighted graph as the solvers see it: a number of nodes, an optional
/// coordinate payload per node, and weighted arcs between nodes.
pub trait GraphLike {
    /// The number of nodes; the nodes are `0 .. node_total()`.
    spec fn node_total(&self) -> nat;

    /// The coordinate payload of a node, if it has one.
    spec fn coordinate(&self, node: int) -> Option<(usize, usize)>;

    /// Whether an agent on `from` can move to `to` at cost `weight`.
    spec fn arc(&self, from: int, to: int, weight: int) -> bool;

    /// A number that no node has more arcs than: the number of edges.
    spec fn arc_total(&self) -> nat;

    /// Arcs join existing nodes and carry a weight that fits a machine word.
    proof fn arc_within(&self, from: int, to: int, weight: int)
        requires
            self.arc(from, to, weight),
        ensures
            0 <= from < self.node_total(),
            0 <= to < self.node_total(),
            0 <= weight <= usize::MAX,
    ;

    /// The number of nodes.
    fn node_count(&self) -> (n: usize)
        ensures
            n == self.node_total(),
    ;

    /// The arcs that leave `node`, each as (target, weight), and nothing
    /// else. A location that is not in the graph has none.
    fn neighbors(&self, node: Location) -> (out: Vec<(Location, usize)>)
        ensures
            forall|k: int|
                0 <= k < out@.len() ==> self.arc(
                    node.index as int,
                    (#[trigger] out@[k]).0.index as int,
                    out@[k].1 as int,
                ),
            forall|to: int, weight: int| #[trigger]
                self.arc(node.index as int, to, weight) ==> lists_arc(out@, to, weight),
            out@.len() <= self.arc_total(),
    ;

    /// The coordinate payload of `node`, or `NodeNotFound` when the node is
    /// not in the graph or carries no coordinate.
    fn payload(&self, node: Location) -> (r: Result<(usize, usize), MapfError>)
        ensures
            r == match self.coordinate(node.index as int) {
                Some(c) => Ok::<(usize, usize), MapfError>(c),
                None => Err::<(usize, usize), MapfError>(MapfError::NodeNotFound),
            },
    ;
}

/// The entries of `raw` whose target is below `n`, as neighbours.
fn keep_within(raw: &Vec<(usize, usize)>, n: usize) -> (out: Vec<(Location, usize)>)
    ensures
        forall|k: int|
            0 <= k < out@.len() ==> (#[trigger] out@[k]).0.index < n && lists_pair(
                raw@,
                out@[k].0.index as int,
                out@[k].1 as int,
            ),
        forall|j: int| 0 <= j < raw@.len() && (#[trigger] raw@[j]).0 < n ==> lists_arc(
            out@,
            raw@[j].0 as int,
            raw@[j].1 as int,
        ),
        out@.len() <= raw@.len(),
{
    let mut out: Vec<(Location, usize)> = Vec::new();
    let mut i: usize = 0;
    while i < raw.len()
        invariant
            0 <= i <= raw@.len(),
            out@.len() <= i,
            forall|k: int|
                0 <= k < out@.len() ==> (#[trigger] out@[k]).0.index < n && lists_pair(
                    raw@,
                    out@[k].0.index as int,
                    out@[k].1 as int,
                ),
            forall|j: int|
                0 <= j < i && (#[trigger] raw@[j]).0 < n ==> lists_arc(out@, raw@[j].0 as int, raw@[j].1 as int),
        decreases raw@.len() - i,
    {
        let (b, w) = raw[i];
        if b < n {
            let ghost before = out@;
            out.push((Location { index: b }, w));
            proof {
                let last = before.len() as int;
                assert(out@[last] == (Location { index: b }, w));
                assert forall|j: int| 0 <= j < i + 1 && (#[trigger] raw@[j]).0 < n implies lists_arc(
                    out@,
                    raw@[j].0 as int,
                    raw@[j].1 as int,
                ) by {
                    if j < i {
                        assert(lists_arc(before, raw@[j].0 as int, raw@[j].1 as int));
                        let k = choose|k: int|
                            0 <= k < before.len() && (#[trigger] before[k]).0.index == raw@[j].0 as int
                                && before[k].1 == raw@[j].1 as int;
                        assert(out@[k] == before[k]);
                    } else {
                        assert(out@[last].0.index == raw@[j].0);
                    }
                }
                assert forall|k: int| 0 <= k < out@.len() implies (#[trigger] out@[k]).0.index < n && lists_pair(
                    raw@,
                    out@[k].0.index as int,
                    out@[k].1 as int,
                ) by {
                    if k < before.len() {
                        assert(out@[k] == before[k]);
                    } else {
                        assert(raw@[i as int] == (b, w));
                    }
                }
            }
        }
        i += 1;
    }
    out
}

/// What `keep_within` keeps of a node's edges: where `raw` lists exactly
/// the pairs of which `joined` holds, `out` lists exactly those of them
/// whose target is below `n`.
proof fn lemma_kept(raw: Seq<(usize, usize)>, out: Seq<(Location, usize)>, n: int, joined: spec_fn(int, int) -> bool)
    requires
        forall|k: int| 0 <= k < raw.len() ==> joined((#[trigger] raw[k]).0 as int, raw[k].1 as int),
        forall|b: int, w: int| #[trigger] joined(b, w) ==> lists_pair(raw, b, w),
        forall|k: int|
            0 <= k < out.len() ==> (#[trigger] out[k]).0.index < n && lists_pair(
                raw,
                out[k].0.index as int,
                out[k].1 as int,
            ),
        forall|j: int|
            0 <= j < raw.len() && (#[trigger] raw[j]).0 < n ==> lists_arc(out, raw[j].0 as int, raw[j].1 as int),
    ensures
        forall|k: int| 0 <= k < out.len() ==> joined((#[trigger] out[k]).0.index as int, out[k].1 as int),
        forall|b: int, w: int| #[trigger] joined(b, w) && b < n ==> lists_arc(out, b, w),
{
    assert forall|k: int| 0 <= k < out.len() implies joined((#[trigger] out[k]).0.index as int, out[k].1 as int) by {
        let b = out[k].0.index as int;
        let w = out[k].1 as int;
        assert(lists_pair(raw, b, w));
        let j = choose|j: int| 0 <= j < raw.len() && (#[trigger] raw[j]).0 == b && raw[j].1 == w;
        assert(joined(raw[j].0 as int, raw[j].1 as int));
    }
    assert forall|b: int, w: int| #[trigger] joined(b, w) && b < n implies lists_arc(out, b, w) by {
        assert(lists_pair(raw, b, w));
        let j = choose|j: int| 0 <= j < raw.len() && (#[trigger] raw[j]).0 == b && raw[j].1 == w;
        assert(raw[j].0 < n);
    }
}

/// An undirected `petgraph` graph whose nodes carry (row, column)
/// coordinates and whose edges carry their weight. Nodes past the graph's
/// 32-bit index range cannot be addressed and count as absent.
impl GraphLike for Graph<(usize, usize), usize, Undirected, u32> {
    open spec fn node_total(&self) -> nat {
        coord_nodes(*self).len()
    }

    open spec fn coordinate(&self, node: int) -> Option<(usize, usize)> {
        if 0 <= node < coord_nodes(*self).len() && node <= u32::MAX {
            Some(coord_nodes(*self)[node])
        } else {
            None
        }
    }

    open spec fn arc(&self, from: int, to: int, weight: int) -> bool {
        &&& 0 <= from < coord_nodes(*self).len()
        &&& 0 <= to < coord_nodes(*self).len()
        &&& from <= u32::MAX
        &&& some_edge_joins(coord_edges(*self), from, to, weight)
    }

    open spec fn arc_total(&self) -> nat {
        coord_edges(*self).len()
    }

    proof fn arc_within(&self, from: int, to: int, weight: int) {
    }

    fn node_count(&self) -> (n: usize) {
        coord_graph_node_count(self)
    }

    fn neighbors(&self, node: Location) -> (out: Vec<(Location, usize)>) {
        let n = coord_graph_node_count(self);
        let a = node.index;
        if a >= n || a > u32::MAX as usize {
            return Vec::new();
        }
        let raw = coord_graph_edges_of(self, a);
        let out = keep_within(&raw, n);
        proof {
            let joined = |b: int, w: int| some_edge_joins(coord_edges(*self), a as int, b, w);
            lemma_kept(raw@, out@, n as int, joined);
            assert forall|to: int, weight: int| #[trigger] self.arc(a as int, to, weight) implies lists_arc(
                out@,
                to,
                weight,
            ) by {
                assert(joined(to, weight));
            }
        }
        out
    }

    fn payload(&self, node: Location) -> (r: Result<(usize, usize), MapfError>) {
        if node.index > u32::MAX as usize {
            return Err(MapfError::NodeNotFound);
        }
        match coord_graph_node_weight(self, node.index) {
            Some(c) => Ok(c),
            None => Err(MapfError::NodeNotFound),
        }
    }
}

/// A directed `petgraph` graph whose nodes carry nothing and whose edges
/// carry their weight. No node has a coordinate. Nodes past the graph's
/// 32-bit index range cannot be addressed and count as absent.
impl GraphLike for Graph<(), usize, Directed, u32> {
    open spec fn node_total(&self) -> nat {
        plain_node_total(*self)
    }

    open spec fn coordinate(&self, node: int) -> Option<(usize, usize)> {
        None
    }

    open spec fn arc(&self, from: int, to: int, weight: int) -> bool {
        &&& 0 <= from < plain_node_total(*self)
        &&& 0 <= to < plain_node_total(*self)
        &&& from <= u32::MAX
        &&& some_edge_runs(plain_edges(*self), from, to, weight)
    }

    open spec fn arc_total(&self) -> nat {
        plain_edges(*self).len()
    }

    proof fn arc_within(&self, from: int, to: int, weight: int) {
    }

    fn node_count(&self) -> (n: usize) {
        plain_graph_node_count(self)
    }

    fn neighbors(&self, node: Location) -> (out: Vec<(Location, usize)>) {
        let n = plain_graph_node_count(self);
        let a = node.index;
        if a >= n || a > u32::MAX as usize {
            return Vec::new();
        }
        let raw = plain_graph_edges_of(self, a);
        let out = keep_within(&raw, n);
        proof {
            let joined = |b: int, w: int| some_edge_runs(plain_edges(*self), a as int, b, w);
            lemma_kept(raw@, out@, n as int, joined);
            assert forall|to: int, weight: int| #[trigger] self.arc(a as int, to, weight) implies lists_arc(
                out@,
                to,
                weight,
            ) by {
                assert(joined(to, weight));
            }
        }
        out
    }

    fn payload(&self, node: Location) -> (r: Result<(usize, usize), MapfError>) {
        Err(MapfError::NodeNotFound)
    }
}

} // verus!
