//! A four-connected grid with unit edge weights.

use vstd::prelude::*;
use vstd::arithmetic::div_mod::{lemma_fundamental_div_mod, lemma_fundamental_div_mod_converse};
use petgraph::graph::Graph;
use petgraph::Undirected;
use crate::mapf::graph_specs::{
    coord_edges, coord_graph_add_edge, coord_graph_add_node, coord_graph_edge_count, coord_graph_new, coord_nodes,
    joins, some_edge_joins,
};
use crate::mapf::agent::SimpleAgent;
use crate::mapf::graphlike::GraphLike;
use crate::mapf::{Location, MapfError};

verus! {

/// The number of edges of a four-connected grid of `n` rows and `m` columns.
pub open spec fn grid_edge_count(n: nat, m: nat) -> nat {
    if n == 0 || m == 0 {
        0
    } else {
        ((n - 1) * m + (m - 1) * n) as nat
    }
}

/// The (row, column) of the cell that is node `k` of a grid of `m` columns.
pub open spec fn cell_of(k: int, m: int) -> (usize, usize) {
    ((k / m) as usize, (k % m) as usize)
}

/// Whether two cells are orthogonal neighbours.
pub open spec fn adjacent_cells(a: (usize, usize), b: (usize, usize)) -> bool {
    ||| (a.1 == b.1 && (a.0 + 1 == b.0 || b.0 + 1 == a.0))
    ||| (a.0 == b.0 && (a.1 + 1 == b.1 || b.1 + 1 == a.1))
}

/// Whether `edges` holds the unit edge from node `a` to node `b`.
pub open spec fn has_unit_edge(edges: Seq<(usize, usize, usize)>, a: int, b: int) -> bool {
    exists|e: int| 0 <= e < edges.len() && #[trigger] edges[e] == (a as usize, b as usize, 1usize)
}

/// Whether an edge runs from a cell to the cell below it or to its right.
pub open spec fn is_grid_edge(edge: (usize, usize, usize), m: int) -> bool {
    &&& edge.2 == 1
    &&& (edge.1 == edge.0 + m || (edge.1 == edge.0 + 1 && edge.1 as int % m != 0))
}

/// Whether node `x` is joined to the cell above it and to the cell on its
/// left, where it has them.
pub open spec fn linked_back(edges: Seq<(usize, usize, usize)>, x: int, m: int) -> bool {
    &&& x >= m ==> has_unit_edge(edges, x - m, x)
    &&& x % m != 0 ==> has_unit_edge(edges, x - 1, x)
}

/// The number of edges once the cells before (row `i`, column `j`) are in.
pub open spec fn edges_before(i: int, j: int, m: int) -> int {
    (if i > 0 {
        (i - 1) * m + j
    } else {
        0
    }) + i * (m - 1) + (if j > 0 {
        j - 1
    } else {
        0
    })
}

/// What the graph holds once the cells before (row `i`, column `j`) are in,
/// in row-major order.
pub open spec fn built(
    nodes: Seq<(usize, usize)>,
    edges: Seq<(usize, usize, usize)>,
    m: int,
    i: int,
    j: int,
) -> bool {
    &&& nodes.len() == i * m + j
    &&& forall|x: int| 0 <= x < nodes.len() ==> #[trigger] nodes[x] == cell_of(x, m)
    &&& edges.len() == edges_before(i, j, m)
    &&& forall|e: int| 0 <= e < edges.len() ==> is_grid_edge(#[trigger] edges[e], m) && edges[e].1 < nodes.len()
    &&& forall|x: int| 0 <= x < nodes.len() ==> #[trigger] linked_back(edges, x, m)
}

/// The edges after the cell (row `i`, column `j`), which is node `k`, has
/// been joined to the cells above it and on its left.
pub open spec fn with_cell_edges(edges: Seq<(usize, usize, usize)>, k: int, m: int, i: int, j: int) -> Seq<
    (usize, usize, usize),
> {
    let up = if i > 0 {
        edges.push(((k - m) as usize, k as usize, 1usize))
    } else {
        edges
    };
    if j > 0 {
        up.push(((k - 1) as usize, k as usize, 1usize))
    } else {
        up
    }
}

proof fn lemma_cell_index(i: int, j: int, m: int)
    requires
        0 <= i,
        0 <= j < m,
    ensures
        (i * m + j) / m == i,
        (i * m + j) % m == j,
        i * m + j >= 0,
        i > 0 <==> i * m + j >= m,
{
    lemma_fundamental_div_mod_converse(i * m + j, m, i, j);
    assert(i * m >= 0) by (nonlinear_arith)
        requires
            i >= 0,
            m > 0,
    ;
    if i > 0 {
        assert(i * m >= m) by (nonlinear_arith)
            requires
                i >= 1,
                m > 0,
        ;
    }
}

proof fn lemma_edges_fit(n: int, m: int, i: int, j: int)
    requires
        0 <= i < n,
        0 <= j < m,
    ensures
        edges_before(i, j + 1, m) <= grid_edge_count(n as nat, m as nat),
        edges_before(i, j, m) <= edges_before(i, j + 1, m),
{
    let total = (n - 1) * m + (m - 1) * n;
    assert(i * (m - 1) + j <= (n - 1) * (m - 1) + (m - 1)) by (nonlinear_arith)
        requires
            0 <= i < n,
            0 <= j < m,
    ;
    assert((n - 1) * (m - 1) + (m - 1) == (m - 1) * n) by (nonlinear_arith);
    if i > 0 {
        assert((i - 1) * m + j + 1 <= (n - 1) * m) by (nonlinear_arith)
            requires
                0 < i < n,
                0 <= j < m,
        ;
    } else {
        assert(0 <= (n - 1) * m) by (nonlinear_arith)
            requires
                0 < n,
                0 < m,
        ;
    }
}

proof fn lemma_row_done(i: int, m: int)
    requires
        0 <= i,
        0 < m,
    ensures
        i * m + m == (i + 1) * m + 0,
        edges_before(i, m, m) == edges_before(i + 1, 0, m),
{
    assert(i * m + m == (i + 1) * m + 0) by (nonlinear_arith);
    assert((i + 1) * (m - 1) == i * (m - 1) + (m - 1)) by (nonlinear_arith);
    if i > 0 {
        assert((i - 1) * m + m == i * m) by (nonlinear_arith);
    } else {
        assert(i * m == 0) by (nonlinear_arith)
            requires
                i == 0,
        ;
    }
}

proof fn lemma_all_rows_done(n: int, m: int)
    requires
        0 <= n,
        0 < m,
    ensures
        edges_before(n, 0, m) == grid_edge_count(n as nat, m as nat),
{
    if n > 0 {
        assert(n * (m - 1) == (m - 1) * n) by (nonlinear_arith);
        assert((n - 1) * m + (m - 1) * n >= 0) by (nonlinear_arith)
            requires
                n > 0,
                m > 0,
        ;
    } else {
        assert(n * (m - 1) == 0) by (nonlinear_arith)
            requires
                n == 0,
        ;
    }
}

proof fn lemma_built_step(
    nodes: Seq<(usize, usize)>,
    edges: Seq<(usize, usize, usize)>,
    m: int,
    i: int,
    j: int,
)
    requires
        built(nodes, edges, m, i, j),
        0 <= i <= usize::MAX,
        0 <= j < m,
        i * m + j <= usize::MAX,
    ensures
        built(nodes.push((i as usize, j as usize)), with_cell_edges(edges, i * m + j, m, i, j), m, i, j + 1),
{
    let k = i * m + j;
    lemma_cell_index(i, j, m);
    let nodes2 = nodes.push((i as usize, j as usize));
    let edges2 = with_cell_edges(edges, k, m, i, j);
    let up = if i > 0 {
        edges.push(((k - m) as usize, k as usize, 1usize))
    } else {
        edges
    };
    assert(nodes2.len() == i * m + (j + 1));
    assert forall|x: int| 0 <= x < nodes2.len() implies #[trigger] nodes2[x] == cell_of(x, m) by {
        if x < k {
            assert(nodes2[x] == nodes[x]);
        }
    }
    assert(edges2.len() == edges_before(i, j + 1, m));
    assert forall|e: int| 0 <= e < edges2.len() implies is_grid_edge(#[trigger] edges2[e], m) && edges2[e].1
        < nodes2.len() by {
        if e < edges.len() {
            assert(edges2[e] == edges[e]);
        } else if i > 0 && e == edges.len() {
            assert(edges2[e] == ((k - m) as usize, k as usize, 1usize));
        } else {
            assert(edges2[e] == ((k - 1) as usize, k as usize, 1usize));
        }
    }
    assert forall|x: int| 0 <= x < nodes2.len() implies #[trigger] linked_back(edges2, x, m) by {
        if x < k {
            assert(linked_back(edges, x, m));
            if x >= m {
                let e = choose|e: int|
                    0 <= e < edges.len() && #[trigger] edges[e] == ((x - m) as usize, x as usize, 1usize);
                assert(edges2[e] == edges[e]);
            }
            if x % m != 0 {
                let e = choose|e: int|
                    0 <= e < edges.len() && #[trigger] edges[e] == ((x - 1) as usize, x as usize, 1usize);
                assert(edges2[e] == edges[e]);
            }
        } else {
            if x >= m {
                assert(edges2[edges.len() as int] == ((k - m) as usize, k as usize, 1usize));
            }
            if x % m != 0 {
                assert(edges2[up.len() as int] == ((k - 1) as usize, k as usize, 1usize));
            }
        }
    }
}

/// A grid of `n` rows and `m` columns. The cell in row `i` and column `j`
/// is node `i * m + j`; orthogonal neighbours are joined by an edge of
/// weight 1.
pub struct Grid {
    graph: Graph<(usize, usize), usize, Undirected, u32>,
    n: usize,
    m: usize,
}

impl Grid {
    /// The `petgraph` graph that holds the grid.
    pub closed spec fn graph_view(&self) -> Graph<(usize, usize), usize, Undirected, u32> {
        self.graph
    }

    /// The number of rows.
    pub closed spec fn rows(&self) -> nat {
        self.n as nat
    }

    /// The number of columns.
    pub closed spec fn columns(&self) -> nat {
        self.m as nat
    }

    /// The number of edges.
    pub open spec fn edge_total(&self) -> nat {
        coord_edges(self.graph_view()).len()
    }

    /// The grid holds exactly its cells, in row-major order, and exactly
    /// the edges between orthogonal neighbours.
    pub open spec fn wf(&self) -> bool {
        &&& self.rows() * self.columns() <= u32::MAX
        &&& if self.columns() == 0 {
            coord_nodes(self.graph_view()).len() == 0 && coord_edges(self.graph_view()).len() == 0
        } else {
            built(
                coord_nodes(self.graph_view()),
                coord_edges(self.graph_view()),
                self.columns() as int,
                self.rows() as int,
                0,
            )
        }
    }

    #[verifier::type_invariant]
    spec fn inv(self) -> bool {
        self.wf()
    }

    /// Builds the grid of `n` rows and `m` columns. The node and edge
    /// counts must fit `petgraph`'s 32-bit indices.
    pub fn new(n: usize, m: usize) -> (g: Grid)
        requires
            n * m <= u32::MAX,
            grid_edge_count(n as nat, m as nat) <= u32::MAX,
        ensures
            g.wf(),
            g.rows() == n,
            g.columns() == m,
            g.node_total() == n * m,
            g.edge_total() == grid_edge_count(n as nat, m as nat),
    {
        let mut graph = coord_graph_new();
        if m == 0 {
            assert(n * m == 0) by (nonlinear_arith)
                requires
                    m == 0,
            ;
            return Grid { graph, n, m };
        }
        let mut i: usize = 0;
        let mut k: usize = 0;
        while i < n
            invariant
                0 <= i <= n,
                m > 0,
                k == i * m,
                n * m <= u32::MAX,
                grid_edge_count(n as nat, m as nat) <= u32::MAX,
                built(coord_nodes(graph), coord_edges(graph), m as int, i as int, 0),
            decreases n - i,
        {
            let mut j: usize = 0;
            while j < m
                invariant
                    0 <= j <= m,
                    0 <= i < n,
                    m > 0,
                    k == i * m + j,
                    n * m <= u32::MAX,
                    grid_edge_count(n as nat, m as nat) <= u32::MAX,
                    built(coord_nodes(graph), coord_edges(graph), m as int, i as int, j as int),
                decreases m - j,
            {
                proof {
                    lemma_cell_index(i as int, j as int, m as int);
                    assert(i * m + j < n * m) by (nonlinear_arith)
                        requires
                            0 <= i < n,
                            0 <= j < m,
                    ;
                    lemma_edges_fit(n as int, m as int, i as int, j as int);
                    lemma_built_step(coord_nodes(graph), coord_edges(graph), m as int, i as int, j as int);
                }
                let ghost edges0 = coord_edges(graph);
                let index = coord_graph_add_node(&mut graph, (i, j));
                if i > 0 {
                    coord_graph_add_edge(&mut graph, k - m, k, 1);
                }
                if j > 0 {
                    coord_graph_add_edge(&mut graph, k - 1, k, 1);
                }
                assert(coord_edges(graph) == with_cell_edges(edges0, k as int, m as int, i as int, j as int));
                j += 1;
                k += 1;
            }
            proof {
                lemma_row_done(i as int, m as int);
            }
            i += 1;
        }
        proof {
            lemma_all_rows_done(n as int, m as int);
        }
        Grid { graph, n, m }
    }

    /// The graph that holds the grid, for reading.
    pub fn graph(&self) -> (g: &Graph<(usize, usize), usize, Undirected, u32>)
        ensures
            *g == self.graph_view(),
    {
        &self.graph
    }

    /// The number of edges.
    pub fn edge_count(&self) -> (c: usize)
        ensures
            c == self.edge_total(),
    {
        coord_graph_edge_count(&self.graph)
    }

    /// Whether the cell (row, column) is on the grid.
    pub open spec fn has_cell(&self, cell: (usize, usize)) -> bool {
        cell.0 < self.rows() && cell.1 < self.columns()
    }

    /// The agent `identifier` that stands on the cell `start` and wants to
    /// reach the cell `goal`, or `InvalidProblem` when either cell is not
    /// on the grid.
    pub fn agent_at(&self, start: (usize, usize), goal: (usize, usize), identifier: usize) -> (r: Result<
        SimpleAgent,
        MapfError,
    >)
        ensures
            match r {
                Ok(agent) => {
                    &&& self.has_cell(start)
                    &&& self.has_cell(goal)
                    &&& agent.identifier == identifier
                    &&& agent.location.index == start.0 * self.columns() + start.1
                    &&& agent.goal.index == goal.0 * self.columns() + goal.1
                    &&& self.coordinate(agent.location.index as int) == Some(start)
                    &&& self.coordinate(agent.goal.index as int) == Some(goal)
                },
                Err(e) => e == MapfError::InvalidProblem && !(self.has_cell(start) && self.has_cell(goal)),
            },
    {
        match (self.node_at(start.0, start.1), self.node_at(goal.0, goal.1)) {
            (Some(from), Some(to)) => Ok(SimpleAgent::new(from, to, identifier)),
            _ => Err(MapfError::InvalidProblem),
        }
    }

    /// The location of the cell in row `i` and column `j`, or `None` when
    /// the grid has no such cell.
    pub fn node_at(&self, i: usize, j: usize) -> (l: Option<Location>)
        ensures
            self.wf(),
            i < self.rows() && j < self.columns() <==> l.is_some(),
            l.is_some() ==> l.unwrap().index == i * self.columns() + j && self.coordinate(l.unwrap().index as int)
                == Some((i, j)),
    {
        proof {
            use_type_invariant(self);
        }
        if i < self.n && j < self.m {
            proof {
                lemma_cell_index(i as int, j as int, self.m as int);
                assert(i * self.m + j < self.n * self.m) by (nonlinear_arith)
                    requires
                        0 <= i < self.n,
                        0 <= j < self.m,
                ;
                assert(i * self.m <= i * self.m + j);
            }
            let index = i * self.m + j;
            Some(Location { index })
        } else {
            None
        }
    }
}

/// The cell one row below is `m` nodes on; the cell one column to the
/// right is the next node, unless the row ends.
proof fn lemma_cell_steps(k: int, m: int)
    requires
        0 <= k,
        0 < m,
    ensures
        (k + m) / m == k / m + 1,
        (k + m) % m == k % m,
        (k + 1) % m != 0 ==> (k + 1) / m == k / m && (k + 1) % m == k % m + 1,
        (k + 1) % m == 0 ==> (k + 1) / m == k / m + 1 && k % m == m - 1,
        0 <= k / m,
        0 <= k % m < m,
{
    lemma_fundamental_div_mod(k, m);
    let q = k / m;
    let r = k % m;
    assert(0 <= r < m) by {
        vstd::arithmetic::div_mod::lemma_mod_bound(k, m);
    }
    assert(q >= 0) by {
        vstd::arithmetic::div_mod::lemma_div_pos_is_pos(k, m);
    }
    assert(k + m == (q + 1) * m + r) by (nonlinear_arith)
        requires
            k == m * q + r,
    ;
    lemma_fundamental_div_mod_converse(k + m, m, q + 1, r);
    if r + 1 < m {
        assert(k + 1 == q * m + (r + 1)) by (nonlinear_arith)
            requires
                k == m * q + r,
        ;
        lemma_fundamental_div_mod_converse(k + 1, m, q, r + 1);
    } else {
        assert(k + 1 == (q + 1) * m + 0) by (nonlinear_arith)
            requires
                k == m * q + r,
                r + 1 == m,
        ;
        lemma_fundamental_div_mod_converse(k + 1, m, q + 1, 0);
    }
}

impl Grid {
    /// The arcs of a grid are the steps of weight 1 between orthogonal
    /// neighbours, and every node carries its cell as payload.
    pub proof fn lemma_arcs(&self, a: int, b: int, w: int)
        requires
            self.wf(),
        ensures
            self.node_total() == self.rows() * self.columns(),
            0 <= a < self.node_total() ==> self.coordinate(a) == Some(cell_of(a, self.columns() as int)),
            self.arc(a, b, w) <==> (0 <= a < self.node_total() && 0 <= b < self.node_total() && w == 1
                && adjacent_cells(cell_of(a, self.columns() as int), cell_of(b, self.columns() as int))),
    {
        let m = self.columns() as int;
        let nodes = coord_nodes(self.graph_view());
        let edges = coord_edges(self.graph_view());
        if m > 0 {
            assert(self.rows() * self.columns() + 0 == self.rows() * self.columns());
            if 0 <= a < nodes.len() {
                assert(nodes[a] == cell_of(a, m));
            }
            if self.arc(a, b, w) {
                let e = choose|e: int| 0 <= e < edges.len() && #[trigger] joins(edges[e], a, b) && edges[e].2 == w;
                assert(is_grid_edge(edges[e], m));
                let lo = edges[e].0 as int;
                lemma_cell_steps(lo, m);
            }
            if 0 <= a < nodes.len() && 0 <= b < nodes.len() && w == 1 && adjacent_cells(cell_of(a, m), cell_of(b, m)) {
                lemma_fundamental_div_mod(a, m);
                lemma_fundamental_div_mod(b, m);
                lemma_cell_steps(a, m);
                lemma_cell_steps(b, m);
                let ca = cell_of(a, m);
                let cb = cell_of(b, m);
                assert(a / m <= a) by (nonlinear_arith)
                    requires
                        a == m * (a / m) + (a % m),
                        0 <= a % m,
                        0 <= a / m,
                        m >= 1,
                ;
                assert(b / m <= b) by (nonlinear_arith)
                    requires
                        b == m * (b / m) + (b % m),
                        0 <= b % m,
                        0 <= b / m,
                        m >= 1,
                ;
                let (lo, hi) = if a < b {
                    (a, b)
                } else {
                    (b, a)
                };
                assert(hi == lo + m || (hi == lo + 1 && hi % m != 0)) by (nonlinear_arith)
                    requires
                        a == m * (a / m) + (a % m),
                        b == m * (b / m) + (b % m),
                        0 <= a % m < m,
                        0 <= b % m < m,
                        (a % m == b % m && (a / m + 1 == b / m || b / m + 1 == a / m)) || (a / m == b / m && (a % m
                            + 1 == b % m || b % m + 1 == a % m)),
                        (lo == a && hi == b && a < b) || (lo == b && hi == a && b <= a),
                ;
                assert(linked_back(edges, hi, m));
                if hi == lo + m {
                    assert(has_unit_edge(edges, hi - m, hi));
                    let e = choose|e: int|
                        0 <= e < edges.len() && #[trigger] edges[e] == ((hi - m) as usize, hi as usize, 1usize);
                    assert(joins(edges[e], a, b));
                } else {
                    assert(has_unit_edge(edges, hi - 1, hi));
                    let e = choose|e: int|
                        0 <= e < edges.len() && #[trigger] edges[e] == ((hi - 1) as usize, hi as usize, 1usize);
                    assert(joins(edges[e], a, b));
                }
                assert(some_edge_joins(edges, a, b, w));
            }
        } else {
            assert(self.rows() * self.columns() == 0) by (nonlinear_arith)
                requires
                    self.columns() == 0,
            ;
        }
    }
}

impl GraphLike for Grid {
    open spec fn node_total(&self) -> nat {
        self.graph_view().node_total()
    }

    open spec fn coordinate(&self, node: int) -> Option<(usize, usize)> {
        self.graph_view().coordinate(node)
    }

    open spec fn arc(&self, from: int, to: int, weight: int) -> bool {
        self.graph_view().arc(from, to, weight)
    }

    open spec fn arc_total(&self) -> nat {
        self.graph_view().arc_total()
    }

    proof fn arc_within(&self, from: int, to: int, weight: int) {
    }

    fn node_count(&self) -> (n: usize) {
        GraphLike::node_count(&self.graph)
    }

    fn neighbors(&self, node: Location) -> (out: Vec<(Location, usize)>) {
        GraphLike::neighbors(&self.graph, node)
    }

    fn payload(&self, node: Location) -> (r: Result<(usize, usize), MapfError>) {
        GraphLike::payload(&self.graph, node)
    }
}

} // verus!
