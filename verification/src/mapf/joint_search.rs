//! Best-first search over the joint configurations of a group of agents,
//! with one timestep decomposed into one decision per agent.
//!
//! A search node records the configuration at the start of a timestep
//! (`from`), the configuration that the decisions taken so far lead to
//! (`pos`), and how many agents have decided (`k`). A node in which every
//! agent has decided is standard: its `pos` is a full configuration, and
//! its successors begin the next timestep.

use vstd::prelude::*;
use crate::mapf::bound::{lemma_exhausted, lemma_goal_is_cheapest, tables_admissible};
use crate::mapf::heap::{heap_ok, not_after};
use crate::mapf::index::{mix, mixed, Index, FEW, MANY};
use crate::mapf::plan::{
    at, collide, connected, is_optimal, is_route, is_solution, legal_step, lemma_step_cost_bounds, step_cost,
};
use crate::mapf::trace::trace;
use crate::mapf::MapfError;
use crate::mapf::roadmap::Roadmap;
use crate::mapf::counting::{code_of, lemma_code_bound, lemma_code_one_to_one, lemma_few, shaped, state_total};
use crate::mapf::sums::{lemma_sum_bounded, lemma_sum_change, lemma_sum_eq, sum_over};

verus! {

/// A search node. Nodes are never changed once they are in the arena.
pub struct Node {
    /// The configuration at the start of the node's timestep.
    pub from: Vec<usize>,
    /// The configuration after the decisions of the first `k` agents.
    pub pos: Vec<usize>,
    /// How many agents have decided in this timestep, from 1 to all.
    pub k: usize,
    /// The cost of the decisions that led here.
    pub g: u128,
    /// The estimate of the cost still to come.
    pub h: u128,
    /// The priority: `g + h`, cut off at the largest value.
    pub f: u128,
    /// The standard node whose configuration is `from`.
    pub origin: usize,
}

/// A search node as mathematics.
pub ghost struct NodeView {
    pub from: Seq<usize>,
    pub pos: Seq<usize>,
    pub k: int,
    pub g: int,
    pub h: int,
    pub f: int,
    pub origin: int,
}

impl View for Node {
    type V = NodeView;

    open spec fn view(&self) -> NodeView {
        NodeView {
            from: self.from@,
            pos: self.pos@,
            k: self.k as int,
            g: self.g as int,
            h: self.h as int,
            f: self.f as int,
            origin: self.origin as int,
        }
    }
}

/// The arena as mathematics.
pub open spec fn views(nodes: Seq<Node>) -> Seq<NodeView> {
    Seq::new(nodes.len(), |i: int| nodes[i]@)
}

/// What a search is given: the graph, and for each agent of the group its
/// start, its goal and its table of estimates.
pub ghost struct Ctx {
    pub road: Roadmap,
    pub starts: Seq<usize>,
    pub goals: Seq<usize>,
    pub h: Seq<Seq<u128>>,
}

impl Ctx {
    /// The number of agents.
    pub open spec fn n(self) -> int {
        self.starts.len() as int
    }

    /// The arcs of the graph.
    pub open spec fn arcs(self) -> Set<(int, int, int)> {
        self.road.arcs()
    }

    /// The graph is well formed, there is an agent, and every start, goal
    /// and table fits the graph.
    pub open spec fn wf(self) -> bool {
        self.fits() && self.starts.len() >= 1
    }

    /// The graph is well formed, and every start, goal and table fits it.
    pub open spec fn fits(self) -> bool {
        &&& self.road.wf()
        &&& self.goals.len() == self.starts.len()
        &&& self.h.len() == self.starts.len()
        &&& forall|j: int| 0 <= j < self.starts.len() ==> #[trigger] self.starts[j] < self.road.size()
        &&& forall|j: int| 0 <= j < self.goals.len() ==> #[trigger] self.goals[j] < self.road.size()
        &&& forall|j: int| 0 <= j < self.h.len() ==> (#[trigger] self.h[j]).len() == self.road.size()
    }
}

/// Whether the entries of a configuration are pairwise distinct.
pub open spec fn distinct(c: Seq<usize>) -> bool {
    forall|i: int, j: int| 0 <= i < j < c.len() ==> c[i] != c[j]
}

/// The cost of agent `j`'s step, as a function of `j`.
pub open spec fn step_costs(arcs: Set<(int, int, int)>, from: Seq<usize>, pos: Seq<usize>) -> spec_fn(int) -> int {
    |j: int| step_cost(arcs, from[j] as int, pos[j] as int)
}

/// The cost of the steps of the first `k` agents.
pub open spec fn moved_cost(arcs: Set<(int, int, int)>, from: Seq<usize>, pos: Seq<usize>, k: int) -> int {
    sum_over(step_costs(arcs, from, pos), k)
}

/// The estimate for agent `j`, as a function of `j`.
pub open spec fn h_terms(h: Seq<Seq<u128>>, pos: Seq<usize>) -> spec_fn(int) -> int {
    |j: int| h[j][pos[j] as int] as int
}

/// The sum of the agents' estimates at a configuration.
pub open spec fn joint_h(h: Seq<Seq<u128>>, pos: Seq<usize>) -> int {
    sum_over(h_terms(h, pos), pos.len() as int)
}

/// Whether agents `i` and `j` end the timestep on one node or swap nodes.
pub open spec fn clash(from: Seq<usize>, pos: Seq<usize>, i: int, j: int) -> bool {
    pos[i] == pos[j] || (pos[i] == from[j] && pos[j] == from[i])
}

/// Whether `pos` arises from `from` by legal, collision-free steps of the
/// first `k` agents, the others staying.
pub open spec fn moved(ctx: Ctx, from: Seq<usize>, pos: Seq<usize>, k: int) -> bool {
    &&& from.len() == ctx.n()
    &&& pos.len() == ctx.n()
    &&& 1 <= k <= ctx.n()
    &&& forall|j: int| 0 <= j < from.len() ==> #[trigger] from[j] < ctx.road.size()
    &&& forall|j: int| 0 <= j < pos.len() ==> #[trigger] pos[j] < ctx.road.size()
    &&& forall|j: int| k <= j < pos.len() ==> #[trigger] pos[j] == from[j]
    &&& distinct(from)
    &&& forall|j: int| 0 <= j < k ==> legal_step(ctx.arcs(), #[trigger] from[j] as int, pos[j] as int)
    &&& forall|i: int, j: int| 0 <= i < j < k ==> !#[trigger] clash(from, pos, i, j)
}

/// Whether a node is standard: every agent has decided.
pub open spec fn is_standard(ctx: Ctx, v: NodeView) -> bool {
    v.k == ctx.n()
}

/// Whether a node is standard and has every agent on its goal.
pub open spec fn is_goal(ctx: Ctx, v: NodeView) -> bool {
    v.k == ctx.n() && v.pos == ctx.goals
}

/// Whether node `i` of the arena is well formed and its cost is within
/// what a search with one decision per node can reach.
pub open spec fn node_ok(ctx: Ctx, nodes: Seq<NodeView>, i: int) -> bool {
    node_wf(ctx, nodes, i) && nodes[i].g <= i * usize::MAX
}

/// Whether node `i` of the arena is well formed.
pub open spec fn node_wf(ctx: Ctx, nodes: Seq<NodeView>, i: int) -> bool {
    let v = nodes[i];
    &&& moved(ctx, v.from, v.pos, v.k)
    &&& 0 <= v.origin <= i
    &&& is_standard(ctx, nodes[v.origin])
    &&& nodes[v.origin].pos == v.from
    &&& if i == 0 {
        v.pos == ctx.starts && v.from == ctx.starts && v.k == ctx.n() && v.g == 0
    } else {
        v.origin < i && v.g >= nodes[v.origin].g + moved_cost(ctx.arcs(), v.from, v.pos, v.k)
    }
    &&& 0 <= v.g
    &&& 0 <= v.h <= joint_h(ctx.h, v.pos)
    &&& v.g <= v.f <= v.g + v.h
}

/// Whether two vectors hold the same values.
pub fn same(a: &Vec<usize>, b: &Vec<usize>) -> (r: bool)
    ensures
        r == (a@ == b@),
{
    if a.len() != b.len() {
        return false;
    }
    let mut i: usize = 0;
    while i < a.len()
        invariant
            0 <= i <= a@.len(),
            a@.len() == b@.len(),
            forall|j: int| 0 <= j < i ==> a@[j] == b@[j],
        decreases a@.len() - i,
    {
        if a[i] != b[i] {
            return false;
        }
        i += 1;
    }
    assert(a@ =~= b@);
    true
}

/// A copy of a vector.
pub fn copy_of(a: &Vec<usize>) -> (r: Vec<usize>)
    ensures
        r@ == a@,
{
    let mut r: Vec<usize> = Vec::new();
    let mut i: usize = 0;
    while i < a.len()
        invariant
            0 <= i <= a@.len(),
            r@.len() == i,
            forall|j: int| 0 <= j < i ==> r@[j] == a@[j],
        decreases a@.len() - i,
    {
        r.push(a[i]);
        i += 1;
    }
    assert(r@ =~= a@);
    r
}

/// The sum of the agents' estimates at `pos`, cut off at the largest value.
pub fn estimate_at(htab: &Vec<Vec<u128>>, pos: &Vec<usize>) -> (r: u128)
    requires
        htab@.len() == pos@.len(),
        forall|j: int| 0 <= j < pos@.len() ==> (#[trigger] pos@[j]) < htab@[j]@.len(),
    ensures
        r == if joint_h(htab.deep_view(), pos@) <= u128::MAX {
            joint_h(htab.deep_view(), pos@)
        } else {
            u128::MAX as int
        },
        0 <= joint_h(htab.deep_view(), pos@),
{
    let ghost terms = h_terms(htab.deep_view(), pos@);
    let mut acc: u128 = 0;
    let mut j: usize = 0;
    while j < pos.len()
        invariant
            0 <= j <= pos@.len(),
            htab@.len() == pos@.len(),
            forall|i: int| 0 <= i < pos@.len() ==> (#[trigger] pos@[i]) < htab@[i]@.len(),
            terms == h_terms(htab.deep_view(), pos@),
            0 <= sum_over(terms, j as int),
            acc == if sum_over(terms, j as int) <= u128::MAX {
                sum_over(terms, j as int)
            } else {
                u128::MAX as int
            },
        decreases pos@.len() - j,
    {
        let x = pos[j];
        let term = htab[j][x];
        assert(terms(j as int) == term) by {
            assert(htab.deep_view()[j as int] == htab@[j as int].deep_view());
            assert(htab@[j as int].deep_view()[x as int] == htab@[j as int]@[x as int]);
        }
        acc = acc.saturating_add(term);
        j += 1;
    }
    acc
}

/// Whether the estimate of agent `j` does not drop by more than the weight
/// along arc `k` of node `a`.
pub open spec fn steady(ctx: Ctx, j: int, a: int, k: int) -> bool {
    ctx.h[j][a] <= ctx.road.adj@[a]@[k].1 + ctx.h[j][ctx.road.adj@[a]@[k].0 as int]
}

/// Whether the tables of estimates are consistent: no estimate drops by
/// more than the weight along an arc, the estimate at the goal is 0, and
/// the estimates of all agents together fit a machine word.
pub open spec fn tables_fit(ctx: Ctx) -> bool {
    &&& forall|j: int, a: int, k: int|
        0 <= j < ctx.n() && 0 <= a < ctx.road.size() && 0 <= k < ctx.road.adj@[a]@.len() ==> #[trigger] steady(
            ctx,
            j,
            a,
            k,
        )
    &&& forall|j: int, x: int|
        0 <= j < ctx.n() && 0 <= x < ctx.road.size() ==> (#[trigger] ctx.h[j][x]) * ctx.n() <= usize::MAX
    &&& forall|j: int| 0 <= j < ctx.n() ==> (#[trigger] ctx.h[j])[ctx.goals[j] as int] == 0
}

/// Whether a node's estimate and priority are what they stand for, not
/// cut off.
pub open spec fn exact(ctx: Ctx, v: NodeView) -> bool {
    v.h == joint_h(ctx.h, v.pos) && v.f == v.g + v.h
}

/// The number of nodes that a search with consistent tables takes from its
/// frontier at most: one per state and decision, and the root.
pub open spec fn search_enough(size: int, n: int, widest: int) -> int {
    1 + state_total(size, n) * (widest + 1)
}

/// With more agents, or more arcs at a node, a search takes no fewer
/// nodes at most, and never fewer than one.
pub proof fn lemma_enough_grows(size: int, few: int, many: int, narrow: int, wide: int)
    requires
        size >= 1,
        0 <= few <= many,
        0 <= narrow <= wide,
    ensures
        1 <= search_enough(size, few, narrow) <= search_enough(size, many, wide),
{
    crate::mapf::counting::lemma_total_grows(size, few, many);
    let a = state_total(size, few);
    let b = state_total(size, many);
    assert(0 <= a * (narrow + 1) <= b * (wide + 1)) by (nonlinear_arith)
        requires
            0 <= a <= b,
            0 <= narrow <= wide,
    ;
}

/// Whether every node is filed under the number of its state.
pub open spec fn filed(nodes: Seq<Node>, index: Index, n: usize) -> bool {
    &&& index.lists@.len() > 0
    &&& forall|i: int|
        0 <= i < nodes.len() ==> index.list(
            state_number_of((#[trigger] nodes[i]).from@, nodes[i].pos@, nodes[i].k, n),
        ).contains(i as usize)
}

/// Whether node `i` waits, is exact and has a priority no smaller than
/// that of node `u`.
pub open spec fn newcomer(ctx: Ctx, nodes: Seq<Node>, status: Seq<u8>, u: int, i: int) -> bool {
    status[i] == 0 && exact(ctx, nodes[i]@) && nodes[u]@.f <= nodes[i]@.f
}

/// How an arena grows while node `u` is expanded: the nodes that were
/// there stay, the others keep their status, and every new node waits,
/// is exact and has a priority no smaller than that of `u`; the frontier
/// grows by as much as the arena.
pub open spec fn extended(
    ctx: Ctx,
    nodes0: Seq<Node>,
    status0: Seq<u8>,
    waiting0: int,
    nodes: Seq<Node>,
    status: Seq<u8>,
    waiting: int,
    u: int,
) -> bool {
    &&& nodes.len() >= nodes0.len()
    &&& status.len() == nodes.len()
    &&& status0.len() == nodes0.len()
    &&& forall|i: int| 0 <= i < nodes0.len() ==> #[trigger] nodes[i] == nodes0[i]
    &&& forall|i: int| 0 <= i < nodes0.len() && i != u ==> #[trigger] status[i] == status0[i]
    &&& forall|i: int| nodes0.len() <= i < nodes.len() ==> #[trigger] newcomer(ctx, nodes, status, u, i)
    &&& waiting - waiting0 == nodes.len() - nodes0.len()
}

/// What a search with consistent tables keeps count of: every node is
/// exact, no expanded node has a larger priority than a waiting one, and
/// `codes` holds the numbers of the states of the expanded nodes, of which
/// no two stand for the same state.
pub open spec fn tally(ctx: Ctx, nodes: Seq<NodeView>, status: Seq<u8>, codes: Set<int>) -> bool {
    &&& forall|i: int| 0 <= i < nodes.len() ==> #[trigger] exact(ctx, nodes[i])
    &&& forall|c: int, v: int|
        0 <= c < nodes.len() && 0 <= v < nodes.len() && #[trigger] status[c] == 1 && #[trigger] status[v] == 0
            ==> nodes[c].f <= nodes[v].f
    &&& forall|x: int|
        codes.contains(x) ==> exists|c: int|
            0 <= c < nodes.len() && status[c] == 1 && #[trigger] code_of(nodes[c], ctx.road.size(), ctx.n()) == x
    &&& forall|c: int|
        0 <= c < nodes.len() && #[trigger] status[c] == 1 ==> codes.contains(
            code_of(nodes[c], ctx.road.size(), ctx.n()),
        )
    &&& codes.finite()
    &&& nodes.len() <= 1 + codes.len() * (ctx.road.widest() + 1)
}

/// With consistent tables the estimate at a configuration fits a machine
/// word.
pub proof fn lemma_joint_fits(ctx: Ctx, pos: Seq<usize>)
    requires
        ctx.wf(),
        tables_fit(ctx),
        pos.len() == ctx.n(),
        forall|j: int| 0 <= j < pos.len() ==> #[trigger] pos[j] < ctx.road.size(),
    ensures
        0 <= joint_h(ctx.h, pos) <= usize::MAX,
{
    let n = ctx.n();
    let terms = h_terms(ctx.h, pos);
    let cap = (usize::MAX as int) / n;
    assert forall|j: int| 0 <= j < n implies 0 <= #[trigger] terms(j) <= cap by {
        let t = ctx.h[j][pos[j] as int] as int;
        assert(t * n <= usize::MAX);
        assert(t <= (usize::MAX as int) / n) by (nonlinear_arith)
            requires
                t * n <= usize::MAX,
                n >= 1,
                t >= 0,
        ;
    }
    lemma_sum_bounded(terms, n, cap);
    crate::mapf::sums::lemma_sum_nonnegative(terms, n);
    assert(n * cap <= usize::MAX) by (nonlinear_arith)
        requires
            n >= 1,
            cap == (usize::MAX as int) / n,
    ;
}

/// With consistent tables a decision lowers the estimate by no more than
/// it costs.
pub proof fn lemma_steady_step(ctx: Ctx, pos: Seq<usize>, a: int, m: int)
    requires
        ctx.wf(),
        tables_fit(ctx),
        pos.len() == ctx.n(),
        0 <= a < ctx.n(),
        pos[a] < ctx.road.size(),
        0 <= m <= degree(ctx, pos[a] as int),
    ensures
        joint_h(ctx.h, pos) <= move_weight(ctx, pos[a] as int, m) + joint_h(
            ctx.h,
            pos.update(a, move_target(ctx, pos[a] as int, m)),
        ),
{
    let x = pos[a] as int;
    let target = move_target(ctx, x, m);
    let later = pos.update(a, target);
    let before = h_terms(ctx.h, pos);
    let after = h_terms(ctx.h, later);
    assert forall|j: int| 0 <= j < ctx.n() && j != a implies #[trigger] before(j) == after(j) by {
    }
    lemma_sum_change(before, after, ctx.n(), a);
    if m < degree(ctx, x) {
        assert(steady(ctx, a, x, m));
    }
}

/// Growing twice is growing.
pub proof fn lemma_extended_twice(
    ctx: Ctx,
    nodes0: Seq<Node>,
    status0: Seq<u8>,
    waiting0: int,
    nodes1: Seq<Node>,
    status1: Seq<u8>,
    waiting1: int,
    nodes2: Seq<Node>,
    status2: Seq<u8>,
    waiting2: int,
    u: int,
)
    requires
        0 <= u < nodes0.len(),
        extended(ctx, nodes0, status0, waiting0, nodes1, status1, waiting1, u),
        extended(ctx, nodes1, status1, waiting1, nodes2, status2, waiting2, u),
    ensures
        extended(ctx, nodes0, status0, waiting0, nodes2, status2, waiting2, u),
{
    assert forall|i: int| 0 <= i < nodes0.len() implies #[trigger] nodes2[i] == nodes0[i] by {
        assert(nodes1[i] == nodes0[i]);
    }
    assert forall|i: int| 0 <= i < nodes0.len() && i != u implies #[trigger] status2[i] == status0[i] by {
        assert(status1[i] == status0[i]);
    }
    assert(nodes2[u] == nodes1[u]);
    assert forall|i: int| nodes0.len() <= i < nodes2.len() implies #[trigger] newcomer(
        ctx,
        nodes2,
        status2,
        u,
        i,
    ) by {
        if i < nodes1.len() {
            assert(nodes2[i] == nodes1[i]);
            assert(status2[i] == status1[i]);
            assert(newcomer(ctx, nodes1, status1, u, i));
        } else {
            assert(newcomer(ctx, nodes2, status2, u, i));
        }
    }
}

/// The agent that decides next at a node.
pub open spec fn agent_of(ctx: Ctx, v: NodeView) -> int {
    if v.k == ctx.n() {
        0
    } else {
        v.k
    }
}

/// The configuration at the start of the timestep of a node's successors.
pub open spec fn base_of(ctx: Ctx, v: NodeView) -> Seq<usize> {
    if v.k == ctx.n() {
        v.pos
    } else {
        v.from
    }
}

/// The number of arcs that leave node `x`.
pub open spec fn degree(ctx: Ctx, x: int) -> int {
    ctx.road.adj@[x]@.len() as int
}

/// Where decision `m` takes an agent that stands on `x`: along arc `m`, or
/// nowhere when `m` is the number of arcs.
pub open spec fn move_target(ctx: Ctx, x: int, m: int) -> usize {
    if m < degree(ctx, x) {
        ctx.road.adj@[x]@[m].0
    } else {
        x as usize
    }
}

/// What decision `m` costs an agent that stands on `x`.
pub open spec fn move_weight(ctx: Ctx, x: int, m: int) -> int {
    if m < degree(ctx, x) {
        ctx.road.adj@[x]@[m].1 as int
    } else {
        0
    }
}

/// Whether agent `j`, which has decided, keeps agent `a` from `target`:
/// it is there, or the two would swap.
pub open spec fn blocks(base: Seq<usize>, cur: Seq<usize>, a: int, target: usize, j: int) -> bool {
    cur[j] == target || (cur[j] == base[a] && base[j] == target)
}

/// Whether no agent that has decided keeps agent `a` from `target`.
pub open spec fn allowed(base: Seq<usize>, cur: Seq<usize>, a: int, target: usize) -> bool {
    forall|j: int| 0 <= j < a ==> !#[trigger] blocks(base, cur, a, target, j)
}

/// Whether a node stands for the search state (`from`, `pos`, `k`).
pub open spec fn matches_state(n: int, v: NodeView, from: Seq<usize>, pos: Seq<usize>, k: int) -> bool {
    v.k == k && v.pos == pos && (k == n || v.from == from)
}

/// Whether the arena holds a node that was not dropped, stands for the
/// state (`from`, `pos`, `k`) and has cost at most `bound`.
pub open spec fn has_live(
    ctx: Ctx,
    nodes: Seq<NodeView>,
    status: Seq<u8>,
    from: Seq<usize>,
    pos: Seq<usize>,
    k: int,
    bound: int,
) -> bool {
    exists|w: int|
        0 <= w < nodes.len() && status[w] != 2 && #[trigger] matches_state(ctx.n(), nodes[w], from, pos, k)
            && nodes[w].g <= bound
}

/// Whether decision `m` at node `u` is accounted for: it is not allowed,
/// or the arena holds its result at no more than its cost.
pub open spec fn covered(ctx: Ctx, nodes: Seq<NodeView>, status: Seq<u8>, u: int, m: int) -> bool {
    let v = nodes[u];
    let a = agent_of(ctx, v);
    let base = base_of(ctx, v);
    let x = base[a] as int;
    let target = move_target(ctx, x, m);
    allowed(base, v.pos, a, target) ==> has_live(
        ctx,
        nodes,
        status,
        base,
        v.pos.update(a, target),
        a + 1,
        v.g + move_weight(ctx, x, m),
    )
}

/// Whether the first `upto` decisions at node `u` are accounted for.
pub open spec fn expanded(ctx: Ctx, nodes: Seq<NodeView>, status: Seq<u8>, u: int, upto: int) -> bool {
    forall|m: int| 0 <= m < upto ==> #[trigger] covered(ctx, nodes, status, u, m)
}

/// The number of decisions at a node: one per arc, and waiting.
pub open spec fn moves_of(ctx: Ctx, v: NodeView) -> int {
    degree(ctx, base_of(ctx, v)[agent_of(ctx, v)] as int) + 1
}

/// What holds of the arena between two steps of the search. A node's
/// status is 0 while it waits in the frontier, 1 once it was expanded, and
/// 2 once it was dropped for a node of the same state that costs no more.
pub open spec fn search_inv(ctx: Ctx, nodes: Seq<NodeView>, status: Seq<u8>) -> bool {
    &&& nodes.len() == status.len()
    &&& nodes.len() >= 1
    &&& forall|i: int| 0 <= i < status.len() ==> #[trigger] status[i] <= 2
    &&& forall|i: int| 0 <= i < nodes.len() ==> #[trigger] node_ok(ctx, nodes, i)
    &&& has_live(ctx, nodes, status, ctx.starts, ctx.starts, ctx.n(), 0)
    &&& forall|u: int|
        0 <= u < nodes.len() && #[trigger] status[u] == 1 ==> expanded(
            ctx,
            nodes,
            status,
            u,
            moves_of(ctx, nodes[u]),
        ) && !is_goal(ctx, nodes[u])
}

/// Whether every waiting node but `skip` is in the frontier, and the
/// frontier is a heap.
pub open spec fn frontier_ok(nodes: Seq<Node>, status: Seq<u8>, frontier: Seq<usize>, skip: int) -> bool {
    &&& forall|i: int|
        0 <= i < status.len() && #[trigger] status[i] == 0 && i != skip ==> frontier.contains(i as usize)
    &&& heap_ok(nodes, frontier)
}

/// A heap stays a heap when the arena grows.
pub proof fn lemma_heap_grows(nodes: Seq<Node>, more: Seq<Node>, heap: Seq<usize>)
    requires
        heap_ok(nodes, heap),
        more.len() >= nodes.len(),
        forall|i: int| 0 <= i < nodes.len() ==> more[i] == nodes[i],
    ensures
        heap_ok(more, heap),
{
    assert forall|j: int| 0 < j < heap.len() implies not_after(more, heap[(j - 1) / 2], #[trigger] heap[j]) by {
        assert(not_after(nodes, heap[(j - 1) / 2], heap[j]));
    }
}

/// A new waiting node leaves what held of the others as it was.
pub proof fn lemma_push_preserves(ctx: Ctx, nodes: Seq<NodeView>, status: Seq<u8>, v: NodeView)
    requires
        search_inv(ctx, nodes, status),
        node_ok(ctx, nodes.push(v), nodes.len() as int),
    ensures
        search_inv(ctx, nodes.push(v), status.push(0u8)),
        forall|u: int, m: int|
            0 <= u < nodes.len() && covered(ctx, nodes, status, u, m) ==> #[trigger] covered(
                ctx,
                nodes.push(v),
                status.push(0u8),
                u,
                m,
            ),
{
    let nodes2 = nodes.push(v);
    let status2 = status.push(0u8);
    assert forall|from: Seq<usize>, pos: Seq<usize>, k: int, bound: int|
        has_live(ctx, nodes, status, from, pos, k, bound) implies #[trigger] has_live(
        ctx,
        nodes2,
        status2,
        from,
        pos,
        k,
        bound,
    ) by {
        let w = choose|w: int|
            0 <= w < nodes.len() && status[w] != 2 && #[trigger] matches_state(ctx.n(), nodes[w], from, pos, k)
                && nodes[w].g <= bound;
        assert(nodes2[w] == nodes[w]);
        assert(status2[w] == status[w]);
        assert(matches_state(ctx.n(), nodes2[w], from, pos, k));
    }
    assert forall|u: int, m: int| 0 <= u < nodes.len() && covered(ctx, nodes, status, u, m) implies #[trigger] covered(
        ctx,
        nodes2,
        status2,
        u,
        m,
    ) by {
        assert(nodes2[u] == nodes[u]);
    }
    assert forall|i: int| 0 <= i < nodes2.len() implies #[trigger] node_ok(ctx, nodes2, i) by {
        if i < nodes.len() {
            assert(node_ok(ctx, nodes, i));
            assert(nodes2[i] == nodes[i]);
            assert(nodes2[nodes[i].origin] == nodes[nodes[i].origin]);
        }
    }
    assert forall|u: int| 0 <= u < nodes2.len() && #[trigger] status2[u] == 1 implies expanded(
        ctx,
        nodes2,
        status2,
        u,
        moves_of(ctx, nodes2[u]),
    ) && !is_goal(ctx, nodes2[u]) by {
        assert(status[u] == 1);
        assert(nodes2[u] == nodes[u]);
        assert(expanded(ctx, nodes, status, u, moves_of(ctx, nodes[u])));
        assert forall|m: int| 0 <= m < moves_of(ctx, nodes2[u]) implies #[trigger] covered(
            ctx,
            nodes2,
            status2,
            u,
            m,
        ) by {
            assert(covered(ctx, nodes, status, u, m));
        }
    }
}

/// A node whose decisions are all accounted for may count as expanded.
pub proof fn lemma_close_preserves(ctx: Ctx, nodes: Seq<NodeView>, status: Seq<u8>, u: int)
    requires
        search_inv(ctx, nodes, status),
        0 <= u < nodes.len(),
        status[u] == 0,
        expanded(ctx, nodes, status, u, moves_of(ctx, nodes[u])),
        !is_goal(ctx, nodes[u]),
    ensures
        search_inv(ctx, nodes, status.update(u, 1u8)),
{
    let status2 = status.update(u, 1u8);
    assert forall|from: Seq<usize>, pos: Seq<usize>, k: int, bound: int|
        has_live(ctx, nodes, status, from, pos, k, bound) implies #[trigger] has_live(
        ctx,
        nodes,
        status2,
        from,
        pos,
        k,
        bound,
    ) by {
        let w = choose|w: int|
            0 <= w < nodes.len() && status[w] != 2 && #[trigger] matches_state(ctx.n(), nodes[w], from, pos, k)
                && nodes[w].g <= bound;
        assert(status2[w] != 2);
        assert(matches_state(ctx.n(), nodes[w], from, pos, k));
    }
    assert forall|v: int| 0 <= v < nodes.len() && #[trigger] status2[v] == 1 implies expanded(
        ctx,
        nodes,
        status2,
        v,
        moves_of(ctx, nodes[v]),
    ) && !is_goal(ctx, nodes[v]) by {
        if v != u {
            assert(status[v] == 1);
        }
        assert(expanded(ctx, nodes, status, v, moves_of(ctx, nodes[v])));
        assert forall|m: int| 0 <= m < moves_of(ctx, nodes[v]) implies #[trigger] covered(
            ctx,
            nodes,
            status2,
            v,
            m,
        ) by {
            assert(covered(ctx, nodes, status, v, m));
        }
    }
}

/// A waiting node may be dropped when another node of its state, not
/// dropped itself, costs no more.
pub proof fn lemma_drop_preserves(ctx: Ctx, nodes: Seq<NodeView>, status: Seq<u8>, u: int, better: int)
    requires
        search_inv(ctx, nodes, status),
        0 <= u < nodes.len(),
        0 <= better < nodes.len(),
        better != u,
        status[u] == 0,
        status[better] != 2,
        matches_state(ctx.n(), nodes[better], nodes[u].from, nodes[u].pos, nodes[u].k),
        nodes[better].g <= nodes[u].g,
    ensures
        search_inv(ctx, nodes, status.update(u, 2u8)),
{
    let status2 = status.update(u, 2u8);
    assert forall|from: Seq<usize>, pos: Seq<usize>, k: int, bound: int|
        has_live(ctx, nodes, status, from, pos, k, bound) implies #[trigger] has_live(
        ctx,
        nodes,
        status2,
        from,
        pos,
        k,
        bound,
    ) by {
        let w = choose|w: int|
            0 <= w < nodes.len() && status[w] != 2 && #[trigger] matches_state(ctx.n(), nodes[w], from, pos, k)
                && nodes[w].g <= bound;
        if w == u {
            assert(status2[better] != 2);
            assert(matches_state(ctx.n(), nodes[better], from, pos, k));
        } else {
            assert(status2[w] != 2);
            assert(matches_state(ctx.n(), nodes[w], from, pos, k));
        }
    }
    assert forall|v: int| 0 <= v < nodes.len() && #[trigger] status2[v] == 1 implies expanded(
        ctx,
        nodes,
        status2,
        v,
        moves_of(ctx, nodes[v]),
    ) && !is_goal(ctx, nodes[v]) by {
        assert(status[v] == 1);
        assert(expanded(ctx, nodes, status, v, moves_of(ctx, nodes[v])));
        assert forall|m: int| 0 <= m < moves_of(ctx, nodes[v]) implies #[trigger] covered(
            ctx,
            nodes,
            status2,
            v,
            m,
        ) by {
            assert(covered(ctx, nodes, status, v, m));
        }
    }
}

/// The number under which the state (`from`, `pos`, `k`) is filed.
pub open spec fn state_number_of(from: Seq<usize>, pos: Seq<usize>, k: usize, n: usize) -> u64 {
    let seed = 14695981039346656037u64 ^ (k as u64);
    if k == n {
        mixed(pos, seed, pos.len() as int)
    } else {
        mixed(pos, mixed(from, seed, from.len() as int), pos.len() as int)
    }
}

/// The number under which the state (`from`, `pos`, `k`) is filed.
pub fn state_number(from: &Vec<usize>, pos: &Vec<usize>, k: usize, n: usize) -> (h: u64)
    ensures
        h == state_number_of(from@, pos@, k, n),
{
    let seed = 14695981039346656037u64 ^ (k as u64);
    if k == n {
        mix(pos, seed)
    } else {
        mix(pos, mix(from, seed))
    }
}

/// Whether node `w` is another node than `skip`, was not dropped, stands
/// for the state (`from`, `pos`, `k`) and costs at most `bound`.
pub open spec fn is_live_match(
    nodes: Seq<Node>,
    status: Seq<u8>,
    from: Seq<usize>,
    pos: Seq<usize>,
    k: usize,
    n: usize,
    bound: u128,
    skip: usize,
    w: usize,
) -> bool {
    w < nodes.len() && w != skip && status[w as int] != 2 && matches_state(
        n as int,
        nodes[w as int]@,
        from,
        pos,
        k as int,
    ) && nodes[w as int].g <= bound
}

/// The first node filed under the number of the state (`from`, `pos`,
/// `k`) that is another node than `skip`, was not dropped, stands for the
/// state and costs at most `bound`.
pub fn find_live(
    nodes: &Vec<Node>,
    status: &Vec<u8>,
    index: &Index,
    from: &Vec<usize>,
    pos: &Vec<usize>,
    k: usize,
    n: usize,
    bound: u128,
    skip: usize,
) -> (found: Option<usize>)
    requires
        nodes@.len() == status@.len(),
    ensures
        match found {
            Some(w) => is_live_match(nodes@, status@, from@, pos@, k, n, bound, skip, w) && index.list(
                state_number_of(from@, pos@, k, n),
            ).contains(w),
            None => forall|i: int|
                0 <= i < index.list(state_number_of(from@, pos@, k, n)).len() ==> !is_live_match(
                    nodes@,
                    status@,
                    from@,
                    pos@,
                    k,
                    n,
                    bound,
                    skip,
                    #[trigger] index.list(state_number_of(from@, pos@, k, n))[i],
                ),
        },
{
    let h = state_number(from, pos, k, n);
    let count = index.count(h);
    let mut i: usize = 0;
    while i < count
        invariant
            0 <= i <= count,
            nodes@.len() == status@.len(),
            h == state_number_of(from@, pos@, k, n),
            count == index.list(h).len(),
            forall|j: int|
                0 <= j < i ==> !is_live_match(
                    nodes@,
                    status@,
                    from@,
                    pos@,
                    k,
                    n,
                    bound,
                    skip,
                    #[trigger] index.list(h)[j],
                ),
        decreases count - i,
    {
        let w = index.filed(h, i);
        if w < nodes.len() && w != skip && status[w] != 2 && nodes[w].k == k && nodes[w].g <= bound {
            if same(&nodes[w].pos, pos) {
                if k == n || same(&nodes[w].from, from) {
                    assert(index.list(h)[i as int] == w);
                    return Some(w);
                }
            }
        }
        i += 1;
    }
    None
}

/// Whether a node comes before another in the frontier: by priority, then
/// by estimate, then by age.
pub open spec fn comes_before(a: NodeView, ia: int, b: NodeView, ib: int) -> bool {
    a.f < b.f || (a.f == b.f && (a.h < b.h || (a.h == b.h && ia < ib)))
}

/// Whether agent `a` may go to `target`, given what the agents before it
/// have decided.
pub fn may_go(base: &Vec<usize>, cur: &Vec<usize>, a: usize, target: usize) -> (ok: bool)
    requires
        a < base@.len(),
        base@.len() == cur@.len(),
    ensures
        ok == allowed(base@, cur@, a as int, target),
{
    let mut j: usize = 0;
    while j < a
        invariant
            0 <= j <= a,
            a < base@.len(),
            base@.len() == cur@.len(),
            forall|i: int| 0 <= i < j ==> !#[trigger] blocks(base@, cur@, a as int, target, i),
        decreases a - j,
    {
        if cur[j] == target || (cur[j] == base[a] && base[j] == target) {
            assert(blocks(base@, cur@, a as int, target, j as int));
            return false;
        }
        j += 1;
    }
    true
}

/// The node that decision `m` at node `u` leads to.
pub open spec fn child_of(ctx: Ctx, nodes: Seq<NodeView>, u: int, m: int, h: int, f: int) -> NodeView {
    let v = nodes[u];
    let a = agent_of(ctx, v);
    let x = base_of(ctx, v)[a] as int;
    NodeView {
        from: base_of(ctx, v),
        pos: v.pos.update(a, move_target(ctx, x, m)),
        k: a + 1,
        g: v.g + move_weight(ctx, x, m),
        h,
        f,
        origin: if v.k == ctx.n() {
            u
        } else {
            v.origin
        },
    }
}

/// In a standard node no two agents share a node.
pub proof fn lemma_standard_distinct(ctx: Ctx, v: NodeView)
    requires
        moved(ctx, v.from, v.pos, v.k),
        v.k == ctx.n(),
    ensures
        distinct(v.pos),
{
    assert forall|i: int, j: int| 0 <= i < j < v.pos.len() implies v.pos[i] != v.pos[j] by {
        assert(!clash(v.from, v.pos, i, j));
    }
}

/// The node that an allowed decision leads to is well formed.
pub proof fn lemma_child_wf(ctx: Ctx, nodes: Seq<NodeView>, u: int, m: int, h: int, f: int)
    requires
        ctx.wf(),
        0 <= u < nodes.len(),
        nodes.len() <= usize::MAX,
        forall|i: int| 0 <= i < nodes.len() ==> #[trigger] node_ok(ctx, nodes, i),
        0 <= m < moves_of(ctx, nodes[u]),
        allowed(
            base_of(ctx, nodes[u]),
            nodes[u].pos,
            agent_of(ctx, nodes[u]),
            move_target(ctx, base_of(ctx, nodes[u])[agent_of(ctx, nodes[u])] as int, m),
        ),
        0 <= h <= joint_h(ctx.h, child_of(ctx, nodes, u, m, h, f).pos),
        child_of(ctx, nodes, u, m, h, f).g <= f <= child_of(ctx, nodes, u, m, h, f).g + h,
    ensures
        node_ok(ctx, nodes.push(child_of(ctx, nodes, u, m, h, f)), nodes.len() as int),
{
    let v = nodes[u];
    let c = child_of(ctx, nodes, u, m, h, f);
    let a = agent_of(ctx, v);
    let base = base_of(ctx, v);
    let x = base[a] as int;
    let target = move_target(ctx, x, m);
    let weight = move_weight(ctx, x, m);
    let nodes2 = nodes.push(c);
    let arcs = ctx.arcs();
    assert(node_ok(ctx, nodes, u));
    assert(node_ok(ctx, nodes, v.origin));
    ctx.road.lemma_arcs_within();
    if v.k == ctx.n() {
        lemma_standard_distinct(ctx, v);
    }
    assert(base[a] < ctx.road.size());
    if m < degree(ctx, x) {
        ctx.road.lemma_entry_is_arc(x, m);
        assert(arcs.contains((x, target as int, weight)));
        assert(connected(arcs, x, target as int));
        lemma_step_cost_bounds(arcs, ctx.road.size(), x, target as int, weight);
    }
    assert(0 <= step_cost(arcs, x, target as int) <= weight <= usize::MAX);
    assert(legal_step(arcs, x, target as int));
    assert forall|j: int| 0 <= j < c.pos.len() implies #[trigger] c.pos[j] < ctx.road.size() by {
        if j != a {
            assert(c.pos[j] == v.pos[j]);
        }
    }
    assert forall|j: int| c.k <= j < c.pos.len() implies #[trigger] c.pos[j] == c.from[j] by {
        assert(c.pos[j] == v.pos[j]);
    }
    assert forall|j: int| 0 <= j < c.k implies legal_step(arcs, #[trigger] c.from[j] as int, c.pos[j] as int) by {
        if j < a {
            assert(c.pos[j] == v.pos[j]);
            assert(legal_step(arcs, v.from[j] as int, v.pos[j] as int));
        }
    }
    assert forall|i: int, j: int| 0 <= i < j < c.k implies !#[trigger] clash(c.from, c.pos, i, j) by {
        if j < a {
            assert(!clash(v.from, v.pos, i, j));
        } else {
            assert(!blocks(base, v.pos, a, target, i));
        }
    }
    assert(moved(ctx, c.from, c.pos, c.k));
    assert(nodes2[c.origin] == nodes[c.origin]);
    // cost
    let before = step_costs(arcs, v.from, v.pos);
    let after = step_costs(arcs, c.from, c.pos);
    if v.k != ctx.n() {
        assert forall|j: int| 0 <= j < a implies #[trigger] before(j) == after(j) by {
            assert(c.pos[j] == v.pos[j]);
        }
        lemma_sum_eq(before, after, a);
        assert(u != 0);
    } else {
        assert(sum_over(after, 0) == 0);
    }
    assert(after(a) == step_cost(arcs, x, target as int));
    assert(moved_cost(arcs, c.from, c.pos, c.k) == sum_over(after, a) + after(a));
    assert(c.g <= nodes.len() * usize::MAX) by (nonlinear_arith)
        requires
            c.g <= u * usize::MAX + usize::MAX,
            u + 1 <= nodes.len(),
    ;
}

/// With consistent tables the node that a decision leads to is exact when
/// its estimate and priority are computed without cutting off, and its
/// priority is no smaller than that of the node decided at.
pub proof fn lemma_child_exact(ctx: Ctx, nodes: Seq<NodeView>, u: int, m: int, h: int, f: int, total: int)
    requires
        ctx.wf(),
        tables_fit(ctx),
        0 <= u < nodes.len(),
        nodes.len() == total <= usize::MAX,
        node_ok(ctx, nodes, u),
        exact(ctx, nodes[u]),
        0 <= m < moves_of(ctx, nodes[u]),
        move_target(ctx, base_of(ctx, nodes[u])[agent_of(ctx, nodes[u])] as int, m) < ctx.road.size(),
        h == (if joint_h(ctx.h, child_of(ctx, nodes, u, m, h, f).pos) <= u128::MAX {
            joint_h(ctx.h, child_of(ctx, nodes, u, m, h, f).pos)
        } else {
            u128::MAX as int
        }),
        f == (if child_of(ctx, nodes, u, m, h, f).g + h > u128::MAX {
            u128::MAX as int
        } else {
            child_of(ctx, nodes, u, m, h, f).g + h
        }),
    ensures
        exact(ctx, child_of(ctx, nodes, u, m, h, f)),
        nodes[u].f <= f,
{
    let v = nodes[u];
    let c = child_of(ctx, nodes, u, m, h, f);
    let a = agent_of(ctx, v);
    let x = base_of(ctx, v)[a] as int;
    assert forall|j: int| 0 <= j < c.pos.len() implies #[trigger] c.pos[j] < ctx.road.size() by {
        if j != a {
            assert(c.pos[j] == v.pos[j]);
        }
    }
    lemma_joint_fits(ctx, c.pos);
    lemma_joint_fits(ctx, v.pos);
    assert(v.pos[a] == base_of(ctx, v)[a]);
    lemma_steady_step(ctx, v.pos, a, m);
    let weight = move_weight(ctx, x, m);
    if m < degree(ctx, x) {
    }
    assert(0 <= weight <= usize::MAX);
    assert(c.g + h <= u128::MAX) by (nonlinear_arith)
        requires
            c.g <= u * usize::MAX + usize::MAX,
            h <= usize::MAX,
            0 <= u < total <= usize::MAX,
            usize::MAX <= 0xffff_ffff_ffff_ffff,
            u128::MAX == 0xffff_ffff_ffff_ffff_ffff_ffff_ffff_ffff,
    ;
}

/// Puts a new node into the arena, files it and lets it wait in the
/// frontier.
pub(crate) fn enrol(
    nodes: &mut Vec<Node>,
    status: &mut Vec<u8>,
    frontier: &mut Vec<usize>,
    index: &mut Index,
    node: Node,
    n: usize,
    u: usize,
    Ghost(ctx): Ghost<Ctx>,
)
    requires
        old(nodes)@.len() == old(status)@.len(),
        u < old(nodes)@.len(),
        heap_ok(old(nodes)@, old(frontier)@),
        filed(old(nodes)@, *old(index), n),
        exact(ctx, node@),
        old(nodes)@[u as int]@.f <= node.f,
    ensures
        final(nodes)@ == old(nodes)@.push(node),
        final(status)@ == old(status)@.push(0u8),
        heap_ok(final(nodes)@, final(frontier)@),
        forall|y: usize| final(frontier)@.contains(y) <==> (old(frontier)@.contains(y) || y == old(nodes)@.len()),
        filed(final(nodes)@, *final(index), n),
        extended(
            ctx,
            old(nodes)@,
            old(status)@,
            old(frontier)@.len() as int,
            final(nodes)@,
            final(status)@,
            final(frontier)@.len() as int,
            u as int,
        ),
{
    let number = state_number(&node.from, &node.pos, node.k, n);
    let ghost arena0 = nodes@;
    let ghost index0 = *index;
    let ghost frontier0 = frontier@;
    let fresh = nodes.len();
    nodes.push(node);
    status.push(0u8);
    index.file(number, fresh);
    proof {
        lemma_heap_grows(arena0, nodes@, frontier0);
    }
    crate::mapf::heap::push(frontier, nodes, fresh);
    proof {
        assert(nodes@[u as int] == arena0[u as int]);
        assert(newcomer(ctx, nodes@, status@, u as int, fresh as int));
        assert forall|i: int| 0 <= i < nodes@.len() implies index.list(
            state_number_of((#[trigger] nodes@[i]).from@, nodes@[i].pos@, nodes@[i].k, n),
        ).contains(i as usize) by {
            let mine = state_number_of(nodes@[i].from@, nodes@[i].pos@, nodes@[i].k, n);
            if i < arena0.len() {
                assert(nodes@[i] == arena0[i]);
                assert(index0.list(mine).contains(i as usize));
                let at = choose|at: int| 0 <= at < index0.list(mine).len() && index0.list(mine)[at] == i as usize;
                assert(index.list(mine)[at] == i as usize);
            } else {
                assert(index.list(number)[index0.list(number).len() as int] == fresh);
            }
        }
    }
}

/// Accounts for decision `m` at node `u`: where it is allowed and the arena
/// holds no node of the resulting state at no more than its cost, such a
/// node joins the arena and the frontier.
pub(crate) fn offer(
    htab: &Vec<Vec<u128>>,
    nodes: &mut Vec<Node>,
    status: &mut Vec<u8>,
    frontier: &mut Vec<usize>,
    index: &mut Index,
    u: usize,
    m: usize,
    base: &Vec<usize>,
    target: usize,
    weight: usize,
    Ghost(ctx): Ghost<Ctx>,
)
    requires
        ctx.wf(),
        ctx.h == htab.deep_view(),
        search_inv(ctx, views(old(nodes)@), old(status)@),
        frontier_ok(old(nodes)@, old(status)@, old(frontier)@, u as int),
        u < old(nodes)@.len(),
        old(status)@[u as int] == 0,
        m < moves_of(ctx, old(nodes)@[u as int]@),
        base@ == base_of(ctx, old(nodes)@[u as int]@),
        agent_of(ctx, old(nodes)@[u as int]@) < base@.len(),
        target == move_target(ctx, base@[agent_of(ctx, old(nodes)@[u as int]@)] as int, m as int),
        weight == move_weight(ctx, base@[agent_of(ctx, old(nodes)@[u as int]@)] as int, m as int),
        tables_fit(ctx),
        exact(ctx, old(nodes)@[u as int]@),
        filed(old(nodes)@, *old(index), base@.len() as usize),
    ensures
        search_inv(ctx, views(final(nodes)@), final(status)@),
        frontier_ok(final(nodes)@, final(status)@, final(frontier)@, u as int),
        extended(
            ctx,
            old(nodes)@,
            old(status)@,
            old(frontier)@.len() as int,
            final(nodes)@,
            final(status)@,
            final(frontier)@.len() as int,
            u as int,
        ),
        final(nodes)@.len() <= old(nodes)@.len() + 1,
        filed(final(nodes)@, *final(index), base@.len() as usize),
        final(nodes)@.len() >= old(nodes)@.len(),
        final(nodes)@[u as int] == old(nodes)@[u as int],
        final(status)@[u as int] == 0,
        covered(ctx, views(final(nodes)@), final(status)@, u as int, m as int),
        forall|i: int|
            covered(ctx, views(old(nodes)@), old(status)@, u as int, i) ==> #[trigger] covered(
                ctx,
                views(final(nodes)@),
                final(status)@,
                u as int,
                i,
            ),
{
    let ghost nodes0 = views(nodes@);
    let ghost status0 = status@;
    let ghost v = nodes0[u as int];
    proof {
        assert(node_ok(ctx, nodes0, u as int));
        assert(nodes0[u as int] == nodes@[u as int]@);
    }
    let n = base.len();
    let standard = nodes[u].k == n;
    let a = if standard {
        0
    } else {
        nodes[u].k
    };
    if !may_go(base, &nodes[u].pos, a, target) {
        return ;
    }
    let mut pos = copy_of(&nodes[u].pos);
    pos.set(a, target);
    let total = nodes.len();
    proof {
        assert(nodes@[u as int].g <= u * usize::MAX);
        assert(u * usize::MAX + usize::MAX <= u128::MAX) by (nonlinear_arith)
            requires
                u < total <= usize::MAX,
                usize::MAX <= 0xffff_ffff_ffff_ffff,
                u128::MAX == 0xffff_ffff_ffff_ffff_ffff_ffff_ffff_ffff,
        ;
    }
    let g = nodes[u].g + weight as u128;
    let found = find_live(nodes, status, index, base, &pos, a + 1, n, g, usize::MAX);
    if found.is_some() {
        proof {
            let w = found.unwrap() as int;
            assert(nodes0[w] == nodes@[w]@);
            assert(matches_state(ctx.n(), nodes0[w], base@, pos@, a + 1));
        }
        return ;
    }
    let origin = if standard {
        u
    } else {
        nodes[u].origin
    };
    proof {
        assert(node_ok(ctx, nodes0, u as int));
        assert forall|j: int| 0 <= j < pos@.len() implies (#[trigger] pos@[j]) < htab@[j]@.len() by {
            assert(htab.deep_view()[j] == htab@[j].deep_view());
            assert(ctx.h[j].len() == ctx.road.size());
            if j != a {
                assert(pos@[j] == v.pos[j]);
            } else {
                let x = base@[a as int] as int;
                if (m as int) < degree(ctx, x) {
                    assert(ctx.road.adj@[x]@[m as int].0 < ctx.road.adj@.len());
                }
            }
        }
    }
    let h = estimate_at(htab, &pos);
    let f = g.saturating_add(h);
    let ghost c = child_of(ctx, nodes0, u as int, m as int, h as int, f as int);
    proof {
        assert(c.pos == pos@);
        assert(nodes0.len() == total);
        lemma_child_wf(ctx, nodes0, u as int, m as int, h as int, f as int);
        lemma_push_preserves(ctx, nodes0, status0, c);
    }
    proof {
        lemma_child_exact(ctx, nodes0, u as int, m as int, h as int, f as int, total as int);
    }
    let node = Node { from: copy_of(base), pos, k: a + 1, g, h, f, origin };
    assert(node@ == c);
    let ghost frontier0 = frontier@;
    enrol(nodes, status, frontier, index, node, n, u, Ghost(ctx));
    proof {
        assert(views(nodes@) =~= nodes0.push(c));
        assert forall|i: int| 0 <= i < status@.len() && #[trigger] status@[i] == 0 && i != u implies frontier@.contains(
            i as usize,
        ) by {
            if i < status0.len() {
                assert(status0[i] == 0);
                assert(frontier0.contains(i as usize));
            }
        }
        assert(matches_state(ctx.n(), views(nodes@)[total as int], base@, c.pos, a + 1));
    }
}

/// Accounts for every decision at the waiting node `u` and marks the node
/// as expanded.
pub(crate) fn expand(
    road: &Roadmap,
    htab: &Vec<Vec<u128>>,
    nodes: &mut Vec<Node>,
    status: &mut Vec<u8>,
    frontier: &mut Vec<usize>,
    index: &mut Index,
    u: usize,
    Ghost(ctx): Ghost<Ctx>,
)
    requires
        ctx.wf(),
        ctx.road == *road,
        ctx.h == htab.deep_view(),
        search_inv(ctx, views(old(nodes)@), old(status)@),
        frontier_ok(old(nodes)@, old(status)@, old(frontier)@, u as int),
        u < old(nodes)@.len(),
        old(status)@[u as int] == 0,
        !is_goal(ctx, old(nodes)@[u as int]@),
        tables_fit(ctx),
        exact(ctx, old(nodes)@[u as int]@),
        filed(old(nodes)@, *old(index), ctx.n() as usize),
    ensures
        search_inv(ctx, views(final(nodes)@), final(status)@),
        frontier_ok(final(nodes)@, final(status)@, final(frontier)@, -1),
        final(status)@[u as int] == 1,
        extended(
            ctx,
            old(nodes)@,
            old(status)@,
            old(frontier)@.len() as int,
            final(nodes)@,
            final(status)@,
            final(frontier)@.len() as int,
            u as int,
        ),
        final(nodes)@.len() <= old(nodes)@.len() + moves_of(ctx, old(nodes)@[u as int]@),
        filed(final(nodes)@, *final(index), ctx.n() as usize),
{
    let ghost arena0 = nodes@;
    let ghost state0 = status@;
    let ghost waiting0 = frontier@.len() as int;
    let ghost v = nodes@[u as int]@;
    proof {
        assert(views(nodes@)[u as int] == v);
        assert(node_ok(ctx, views(nodes@), u as int));
    }
    let n = nodes[u].pos.len();
    let standard = nodes[u].k == n;
    let a = if standard {
        0
    } else {
        nodes[u].k
    };
    let base = if standard {
        copy_of(&nodes[u].pos)
    } else {
        copy_of(&nodes[u].from)
    };
    let x = base[a];
    let deg = road.adj[x].len();
    let mut m: usize = 0;
    while m < deg
        invariant
            ctx.wf(),
            ctx.road == *road,
            ctx.h == htab.deep_view(),
            search_inv(ctx, views(nodes@), status@),
            frontier_ok(nodes@, status@, frontier@, u as int),
            u < nodes@.len(),
            status@[u as int] == 0,
            nodes@[u as int]@ == v,
            base@ == base_of(ctx, v),
            a == agent_of(ctx, v),
            a < base@.len(),
            x == base@[a as int],
            x < road.adj@.len(),
            deg == degree(ctx, x as int),
            0 <= m <= deg,
            expanded(ctx, views(nodes@), status@, u as int, m as int),
            tables_fit(ctx),
            base@.len() == ctx.n(),
            filed(nodes@, *index, ctx.n() as usize),
            u < arena0.len(),
            extended(ctx, arena0, state0, waiting0, nodes@, status@, frontier@.len() as int, u as int),
            nodes@.len() <= arena0.len() + m,
            exact(ctx, v),
        decreases deg - m,
    {
        let (target, weight) = road.adj[x][m];
        let ghost nodes1 = views(nodes@);
        let ghost status1 = status@;
        let ghost arena1 = nodes@;
        let ghost waiting1 = frontier@.len() as int;
        offer(htab, nodes, status, frontier, index, u, m, &base, target, weight, Ghost(ctx));
        proof {
            lemma_extended_twice(
                ctx,
                arena0,
                state0,
                waiting0,
                arena1,
                status1,
                waiting1,
                nodes@,
                status@,
                frontier@.len() as int,
                u as int,
            );
            assert forall|i: int| 0 <= i < m + 1 implies #[trigger] covered(
                ctx,
                views(nodes@),
                status@,
                u as int,
                i,
            ) by {
                if i < m {
                    assert(covered(ctx, nodes1, status1, u as int, i));
                }
            }
        }
        m += 1;
    }
    let ghost nodes1 = views(nodes@);
    let ghost status1 = status@;
    let ghost arena1 = nodes@;
    let ghost waiting1 = frontier@.len() as int;
    offer(htab, nodes, status, frontier, index, u, deg, &base, x, 0, Ghost(ctx));
    proof {
        lemma_extended_twice(
            ctx,
            arena0,
            state0,
            waiting0,
            arena1,
            status1,
            waiting1,
            nodes@,
            status@,
            frontier@.len() as int,
            u as int,
        );
        assert forall|i: int| 0 <= i < deg + 1 implies #[trigger] covered(ctx, views(nodes@), status@, u as int, i) by {
            if i < deg {
                assert(covered(ctx, nodes1, status1, u as int, i));
            }
        }
        assert(views(nodes@)[u as int] == v);
        lemma_close_preserves(ctx, views(nodes@), status@, u as int);
    }
    let ghost open_still = status@;
    status.set(u, 1u8);
    proof {
        assert forall|i: int| arena0.len() <= i < nodes@.len() implies #[trigger] newcomer(
            ctx,
            nodes@,
            status@,
            u as int,
            i,
        ) by {
            assert(newcomer(ctx, nodes@, open_still, u as int, i));
        }
    }
}

/// Agents that share a start collide at once, so there is no solution.
pub proof fn lemma_shared_start(arcs: Set<(int, int, int)>, starts: Seq<usize>, goals: Seq<usize>)
    requires
        !distinct(starts),
    ensures
        forall|q: Seq<Seq<usize>>| !is_solution(arcs, starts, goals, q),
{
    assert forall|q: Seq<Seq<usize>>| !is_solution(arcs, starts, goals, q) by {
        if is_solution(arcs, starts, goals, q) {
            let (i, j) = choose|i: int, j: int| 0 <= i < j < starts.len() && starts[i] == starts[j];
            assert(is_route(arcs, q[i], starts[i] as int, goals[i] as int));
            assert(is_route(arcs, q[j], starts[j] as int, goals[j] as int));
            assert(collide(q[i], q[j], 0));
        }
    }
}

/// Whether no value occurs twice.
pub fn all_distinct(c: &Vec<usize>) -> (r: bool)
    ensures
        r == distinct(c@),
{
    let mut j: usize = 0;
    while j < c.len()
        invariant
            0 <= j <= c@.len(),
            forall|a: int, b: int| 0 <= a < b < j ==> c@[a] != c@[b],
        decreases c@.len() - j,
    {
        let mut i: usize = 0;
        while i < j
            invariant
                0 <= i <= j < c@.len(),
                forall|a: int| 0 <= a < i ==> c@[a] != c@[j as int],
            decreases j - i,
        {
            if c[i] == c[j] {
                return false;
            }
            i += 1;
        }
        j += 1;
    }
    true
}

/// What a search is given, as one value.
pub open spec fn setting(road: &Roadmap, starts: Seq<usize>, goals: Seq<usize>, h: Seq<Seq<u128>>) -> Ctx {
    Ctx { road: *road, starts, goals, h }
}

/// A node of the arena has the shape that its number is made of.
pub proof fn lemma_shaped(ctx: Ctx, nodes: Seq<NodeView>, i: int)
    requires
        0 <= i < nodes.len(),
        node_ok(ctx, nodes, i),
    ensures
        shaped(nodes[i], ctx.road.size(), ctx.n()),
{
}

/// The arena of a search with consistent tables never holds more nodes
/// than the search may take from its frontier.
pub proof fn lemma_tally_bound(ctx: Ctx, nodes: Seq<NodeView>, status: Seq<u8>, codes: Set<int>)
    requires
        ctx.wf(),
        search_inv(ctx, nodes, status),
        tally(ctx, nodes, status, codes),
    ensures
        nodes.len() <= search_enough(ctx.road.size(), ctx.n(), ctx.road.widest()),
{
    let size = ctx.road.size();
    let n = ctx.n();
    let bound = state_total(size, n);
    assert(size >= 1) by {
        assert(ctx.starts[0] < size);
    }
    crate::mapf::counting::lemma_power_positive(size, n as nat);
    let p = crate::mapf::counting::power(size, n as nat);
    assert(bound >= 0) by (nonlinear_arith)
        requires
            bound == (n + 1) * p * p,
            n >= 1,
            p >= 1,
    ;
    assert forall|x: int| codes.contains(x) implies 0 <= x < bound by {
        let c = choose|c: int| 0 <= c < nodes.len() && status[c] == 1 && #[trigger] code_of(nodes[c], size, n) == x;
        assert(node_ok(ctx, nodes, c));
        lemma_shaped(ctx, nodes, c);
        lemma_code_bound(nodes[c], size, n);
    }
    lemma_few(codes, bound);
    let w = ctx.road.widest();
    assert(w >= 0) by {
        if size > 0 {
            ctx.road.lemma_widest(size, 0);
        }
    }
    assert(codes.len() * (w + 1) <= bound * (w + 1)) by (nonlinear_arith)
        requires
            codes.len() <= bound,
            w >= 0,
    ;
}

/// Dropping a waiting node leaves the count as it is.
pub proof fn lemma_tally_drop(ctx: Ctx, nodes: Seq<NodeView>, status: Seq<u8>, codes: Set<int>, u: int)
    requires
        tally(ctx, nodes, status, codes),
        nodes.len() == status.len(),
        0 <= u < nodes.len(),
        status[u] == 0,
    ensures
        tally(ctx, nodes, status.update(u, 2u8), codes),
{
    let later = status.update(u, 2u8);
    assert forall|x: int| codes.contains(x) implies exists|c: int|
        0 <= c < nodes.len() && later[c] == 1 && #[trigger] code_of(nodes[c], ctx.road.size(), ctx.n()) == x by {
        let c = choose|c: int|
            0 <= c < nodes.len() && status[c] == 1 && #[trigger] code_of(nodes[c], ctx.road.size(), ctx.n()) == x;
        assert(later[c] == 1);
    }
    assert forall|c: int, v: int|
        0 <= c < nodes.len() && 0 <= v < nodes.len() && #[trigger] later[c] == 1 && #[trigger] later[v] == 0 implies nodes[c].f
        <= nodes[v].f by {
        assert(status[c] == 1 && status[v] == 0);
    }
    assert forall|c: int| 0 <= c < nodes.len() && #[trigger] later[c] == 1 implies codes.contains(
        code_of(nodes[c], ctx.road.size(), ctx.n()),
    ) by {
        assert(status[c] == 1);
    }
}

/// A waiting node for which the index holds no other node of its state at
/// no more than its cost stands for a state that no expanded node stands
/// for.
pub proof fn lemma_new_state(
    ctx: Ctx,
    nodes: Seq<Node>,
    status: Seq<u8>,
    codes: Set<int>,
    index: Index,
    u: int,
)
    requires
        ctx.wf(),
        ctx.n() <= usize::MAX,
        search_inv(ctx, views(nodes), status),
        tally(ctx, views(nodes), status, codes),
        filed(nodes, index, ctx.n() as usize),
        0 <= u < nodes.len() <= usize::MAX,
        status[u] == 0,
        forall|i: int|
            0 <= i < index.list(
                state_number_of(nodes[u].from@, nodes[u].pos@, nodes[u].k, ctx.n() as usize),
            ).len() ==> !is_live_match(
                nodes,
                status,
                nodes[u].from@,
                nodes[u].pos@,
                nodes[u].k,
                ctx.n() as usize,
                nodes[u].g,
                u as usize,
                #[trigger] index.list(
                    state_number_of(nodes[u].from@, nodes[u].pos@, nodes[u].k, ctx.n() as usize),
                )[i],
            ),
    ensures
        !codes.contains(code_of(views(nodes)[u], ctx.road.size(), ctx.n())),
{
    let all = views(nodes);
    let size = ctx.road.size();
    let n = ctx.n();
    let mine = code_of(all[u], size, n);
    if codes.contains(mine) {
        let c = choose|c: int| 0 <= c < all.len() && status[c] == 1 && #[trigger] code_of(all[c], size, n) == mine;
        assert(node_ok(ctx, all, c));
        assert(node_ok(ctx, all, u));
        assert(size >= 1) by {
            assert(ctx.starts[0] < size);
        }
        lemma_code_one_to_one(all[c], all[u], size, n);
        assert(exact(ctx, all[c]));
        assert(exact(ctx, all[u]));
        assert(all[c].f <= all[u].f);
        assert(all[c] == nodes[c]@);
        assert(all[u] == nodes[u]@);
        let number = state_number_of(nodes[u].from@, nodes[u].pos@, nodes[u].k, n as usize);
        assert(state_number_of(nodes[c].from@, nodes[c].pos@, nodes[c].k, n as usize) == number);
        assert(index.list(number).contains(c as usize));
        let at = choose|at: int| 0 <= at < index.list(number).len() && index.list(number)[at] == c as usize;
        assert(is_live_match(
            nodes,
            status,
            nodes[u].from@,
            nodes[u].pos@,
            nodes[u].k,
            n as usize,
            nodes[u].g,
            u as usize,
            index.list(number)[at],
        ));
    }
}

/// Expanding a node of a new state keeps the count, with one state more.
pub proof fn lemma_tally_close(
    ctx: Ctx,
    nodes0: Seq<Node>,
    status0: Seq<u8>,
    waiting0: int,
    nodes: Seq<Node>,
    status: Seq<u8>,
    waiting: int,
    codes: Set<int>,
    u: int,
)
    requires
        ctx.wf(),
        tally(ctx, views(nodes0), status0, codes),
        0 <= u < nodes0.len(),
        status0[u] == 0,
        status[u] == 1,
        extended(ctx, nodes0, status0, waiting0, nodes, status, waiting, u),
        nodes.len() <= nodes0.len() + moves_of(ctx, nodes0[u]@),
        node_ok(ctx, views(nodes0), u),
        forall|v: int| 0 <= v < nodes0.len() && #[trigger] status0[v] == 0 ==> nodes0[u]@.f <= nodes0[v]@.f,
        !codes.contains(code_of(nodes0[u]@, ctx.road.size(), ctx.n())),
    ensures
        tally(ctx, views(nodes), status, codes.insert(code_of(nodes0[u]@, ctx.road.size(), ctx.n()))),
{
    let all0 = views(nodes0);
    let all = views(nodes);
    let size = ctx.road.size();
    let n = ctx.n();
    let mine = code_of(nodes0[u]@, size, n);
    let more = codes.insert(mine);
    assert forall|i: int| 0 <= i < all.len() implies #[trigger] exact(ctx, all[i]) by {
        if i < nodes0.len() {
            assert(nodes[i] == nodes0[i]);
            assert(exact(ctx, all0[i]));
        } else {
            assert(newcomer(ctx, nodes, status, u, i));
        }
    }
    assert(nodes[u] == nodes0[u]);
    assert forall|c: int, v: int|
        0 <= c < all.len() && 0 <= v < all.len() && #[trigger] status[c] == 1 && #[trigger] status[v] == 0 implies all[c].f
        <= all[v].f by {
        if c >= nodes0.len() {
            assert(newcomer(ctx, nodes, status, u, c));
        } else {
            assert(nodes[c] == nodes0[c]);
            if c != u {
                assert(status[c] == status0[c]);
                assert(all0[c].f <= all0[u].f);
            }
            if v < nodes0.len() {
                assert(nodes[v] == nodes0[v]);
                assert(status[v] == status0[v]);
                assert(all0[u].f <= all0[v].f);
            } else {
                assert(newcomer(ctx, nodes, status, u, v));
            }
        }
    }
    assert forall|x: int| more.contains(x) implies exists|c: int|
        0 <= c < all.len() && status[c] == 1 && #[trigger] code_of(all[c], size, n) == x by {
        if x == mine {
            assert(code_of(all[u], size, n) == x);
        } else {
            let c = choose|c: int| 0 <= c < all0.len() && status0[c] == 1 && #[trigger] code_of(all0[c], size, n) == x;
            assert(nodes[c] == nodes0[c]);
            assert(status[c] == status0[c]);
            assert(code_of(all[c], size, n) == x);
        }
    }
    assert forall|c: int| 0 <= c < all.len() && #[trigger] status[c] == 1 implies more.contains(
        code_of(all[c], size, n),
    ) by {
        if c >= nodes0.len() {
            assert(newcomer(ctx, nodes, status, u, c));
        } else if c != u {
            assert(nodes[c] == nodes0[c]);
            assert(status[c] == status0[c]);
            assert(codes.contains(code_of(all0[c], size, n)));
        }
    }
    let x = base_of(ctx, nodes0[u]@)[agent_of(ctx, nodes0[u]@)] as int;
    ctx.road.lemma_widest(size, x);
    let w = ctx.road.widest();
    assert(all.len() <= 1 + more.len() * (w + 1)) by (nonlinear_arith)
        requires
            all.len() <= all0.len() + w + 1,
            all0.len() <= 1 + codes.len() * (w + 1),
            more.len() == codes.len() + 1,
    ;
}

/// Searches for the cheapest collision-free routes of a group of agents.
///
/// The search spends one unit of `fuel` per node that it takes from the
/// frontier, and gives up with `Timeout` when none is left. It never takes
/// more than `search_enough` nodes, so with that much fuel it does not give
/// up. The routes found all have the same length.
pub fn search(
    road: &Roadmap,
    starts: &Vec<usize>,
    goals: &Vec<usize>,
    htab: &Vec<Vec<u128>>,
    fuel: &mut usize,
) -> (r: Result<Vec<Vec<usize>>, MapfError>)
    requires
        setting(road, starts@, goals@, htab.deep_view()).wf(),
        tables_fit(setting(road, starts@, goals@, htab.deep_view())),
    ensures
        *final(fuel) <= *old(fuel),
        r.is_ok() ==> *final(fuel) < *old(fuel),
        *old(fuel) - *final(fuel) <= search_enough(road.size(), starts@.len() as int, road.widest()),
        match r {
            Ok(paths) => {
                &&& is_solution(road.arcs(), starts@, goals@, paths.deep_view())
                &&& tables_admissible(setting(road, starts@, goals@, htab.deep_view())) ==> is_optimal(
                    road.arcs(),
                    starts@,
                    goals@,
                    paths.deep_view(),
                )
            },
            Err(MapfError::NoSolution) => forall|q: Seq<Seq<usize>>| !is_solution(road.arcs(), starts@, goals@, q),
            Err(MapfError::Timeout) => *final(fuel) == 0 && *old(fuel) < search_enough(
                road.size(),
                starts@.len() as int,
                road.widest(),
            ),
            Err(_) => false,
        },
{
    let ghost ctx = setting(road, starts@, goals@, htab.deep_view());
    let n = starts.len();
    proof {
        assert(ctx.starts[0] < road.size());
        road.lemma_widest(road.size(), 0);
        lemma_enough_grows(road.size(), n as int, n as int, road.widest(), road.widest());
    }
    if !all_distinct(starts) {
        proof {
            lemma_shared_start(road.arcs(), starts@, goals@);
        }
        return Err(MapfError::NoSolution);
    }
    proof {
        assert forall|j: int| 0 <= j < starts@.len() implies (#[trigger] starts@[j]) < htab@[j]@.len() by {
            assert(htab.deep_view()[j] == htab@[j].deep_view());
            assert(ctx.h[j].len() == ctx.road.size());
        }
        lemma_joint_fits(ctx, starts@);
    }
    let h0 = estimate_at(htab, starts);
    let root = Node { from: copy_of(starts), pos: copy_of(starts), k: n, g: 0, h: h0, f: h0, origin: 0 };
    let mut nodes: Vec<Node> = Vec::new();
    let mut status: Vec<u8> = Vec::new();
    let mut frontier: Vec<usize> = Vec::new();
    let mut index = Index::new(
        if n == 1 {
            FEW
        } else {
            MANY
        },
    );
    let ghost index0 = index;
    let number = state_number(&root.from, &root.pos, n, n);
    index.file(number, 0);
    nodes.push(root);
    status.push(0u8);
    frontier.push(0);
    let ghost mut codes: Set<int> = Set::empty();
    proof {
        let all = views(nodes@);
        let v = all[0];
        assert(v.from == starts@ && v.pos == starts@);
        assert forall|i: int, j: int| 0 <= i < j < v.k implies !#[trigger] clash(v.from, v.pos, i, j) by {
        }
        assert(moved(ctx, v.from, v.pos, v.k));
        assert(sum_over(step_costs(ctx.arcs(), v.from, v.pos), 0) == 0);
        assert(node_ok(ctx, all, 0));
        assert(matches_state(ctx.n(), all[0], ctx.starts, ctx.starts, ctx.n()));
        assert(has_live(ctx, all, status@, ctx.starts, ctx.starts, ctx.n(), 0));
        assert(frontier@[0] == 0);
        assert(search_inv(ctx, all, status@));
        assert(frontier_ok(nodes@, status@, frontier@, -1));
        assert(index.list(number)[index0.list(number).len() as int] == 0);
        assert(filed(nodes@, index, n));
        assert(exact(ctx, all[0]));
        assert(codes.len() == 0);
        assert(codes.len() * (ctx.road.widest() + 1) == 0) by (nonlinear_arith)
            requires
                codes.len() == 0,
        ;
        assert(tally(ctx, all, status@, codes));
    }
    loop
        invariant
            ctx == setting(road, starts@, goals@, htab.deep_view()),
            ctx.wf(),
            tables_fit(ctx),
            n == ctx.n(),
            search_inv(ctx, views(nodes@), status@),
            frontier_ok(nodes@, status@, frontier@, -1),
            tally(ctx, views(nodes@), status@, codes),
            filed(nodes@, index, n),
            *fuel <= *old(fuel),
            *old(fuel) - *fuel + frontier@.len() == nodes@.len(),
        decreases *fuel,
    {
        if frontier.len() == 0 {
            proof {
                assert forall|q: Seq<Seq<usize>>| !is_solution(road.arcs(), starts@, goals@, q) by {
                    assert forall|v: int| 0 <= v < nodes@.len() implies #[trigger] status@[v] != 0 by {
                        if status@[v] == 0 {
                            assert(frontier@.contains(v as usize));
                        }
                    }
                    lemma_exhausted(ctx, views(nodes@), status@, q);
                }
                lemma_tally_bound(ctx, views(nodes@), status@, codes);
            }
            return Err(MapfError::NoSolution);
        }
        proof {
            lemma_tally_bound(ctx, views(nodes@), status@, codes);
        }
        if *fuel == 0 {
            return Err(MapfError::Timeout);
        }
        assert(*old(fuel) - *fuel + 1 <= search_enough(road.size(), n as int, road.widest()));
        *fuel = *fuel - 1;
        let ghost frontier0 = frontier@;
        let u = crate::mapf::heap::pop(&mut frontier, &nodes);
        let arena = status.len();
        proof {
            assert(status@.len() == arena);
            assert forall|i: int| 0 <= i < status@.len() && #[trigger] status@[i] == 0 && i != u implies frontier@.contains(
                i as usize,
            ) by {
                assert(frontier0.contains(i as usize));
            }
            assert forall|v: int| 0 <= v < nodes@.len() && #[trigger] status@[v] == 0 implies nodes@[u as int]@.f
                <= nodes@[v]@.f by {
                assert(frontier0.contains(v as usize));
                assert(not_after(nodes@, u, v as usize));
            }
        }
        if status[u] == 0 {
            proof {
                assert(views(nodes@)[u as int] == nodes@[u as int]@);
                assert(node_ok(ctx, views(nodes@), u as int));
                assert(exact(ctx, views(nodes@)[u as int]));
            }
            if nodes[u].k == n && same(&nodes[u].pos, goals) {
                proof {
                    assert forall|i: int| 0 <= i < nodes@.len() implies #[trigger] node_wf(ctx, views(nodes@), i) by {
                        assert(node_ok(ctx, views(nodes@), i));
                    }
                }
                let paths = trace(&nodes, u, n, Ghost(ctx));
                proof {
                    let all = views(nodes@);
                    assert forall|v: int| 0 <= v < all.len() && #[trigger] status@[v] == 0 implies all[u as int].f
                        <= all[v].f by {
                        assert(all[v] == nodes@[v]@);
                    }
                    if tables_admissible(ctx) {
                        assert forall|other: Seq<Seq<usize>>| #[trigger]
                            is_solution(road.arcs(), starts@, goals@, other) implies crate::mapf::plan::total_cost(
                            road.arcs(),
                            paths.deep_view(),
                        ) <= crate::mapf::plan::total_cost(road.arcs(), other) by {
                            lemma_goal_is_cheapest(ctx, all, status@, u as int, other);
                        }
                    }
                }
                return Ok(paths);
            }
            let better = find_live(
                &nodes,
                &status,
                &index,
                &nodes[u].from,
                &nodes[u].pos,
                nodes[u].k,
                n,
                nodes[u].g,
                u,
            );
            match better {
                Some(w) => {
                    proof {
                        assert(views(nodes@)[w as int] == nodes@[w as int]@);
                        lemma_drop_preserves(ctx, views(nodes@), status@, u as int, w as int);
                        lemma_tally_drop(ctx, views(nodes@), status@, codes, u as int);
                    }
                    let ghost status0 = status@;
                    status.set(u, 2u8);
                    proof {
                        assert forall|i: int|
                            0 <= i < status@.len() && #[trigger] status@[i] == 0 && i != -1 implies frontier@.contains(
                            i as usize,
                        ) by {
                            assert(status0[i] == 0);
                        }
                    }
                },
                None => {
                    let ghost arena0 = nodes@;
                    let ghost status0 = status@;
                    let ghost waiting0 = frontier@.len() as int;
                    proof {
                        lemma_new_state(ctx, nodes@, status@, codes, index, u as int);
                    }
                    expand(road, htab, &mut nodes, &mut status, &mut frontier, &mut index, u, Ghost(ctx));
                    proof {
                        lemma_tally_close(
                            ctx,
                            arena0,
                            status0,
                            waiting0,
                            nodes@,
                            status@,
                            frontier@.len() as int,
                            codes,
                            u as int,
                        );
                        codes = codes.insert(code_of(arena0[u as int]@, ctx.road.size(), ctx.n()));
                    }
                },
            }
        }
    }
}

} // verus!
