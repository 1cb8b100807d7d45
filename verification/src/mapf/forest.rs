//! The state of a subdimensional search: the configurations met, how they
//! were reached, which agents must be planned together at each, and what
//! is accounted for.

use vstd::prelude::*;
use crate::mapf::heap::heap_ok;
use crate::mapf::index::{mix, mixed, Index};
use crate::mapf::joint_search::{
    clash, copy_of, degree, estimate_at, lemma_heap_grows, lemma_standard_distinct, move_target, move_weight,
    moved, node_wf, same, step_costs, views, Ctx, Node, NodeView,
};
use crate::mapf::plan::{legal_step, lemma_step_cost_bounds};
use crate::mapf::policy::Policy;
use crate::mapf::roadmap::Roadmap;
use crate::mapf::sums::sum_over;
use crate::mapf::MapfError;

verus! {

/// Whether `m` has `n` rows of `n` entries.
pub open spec fn square(m: Seq<Vec<bool>>, n: int) -> bool {
    m.len() == n && forall|i: int| 0 <= i < n ==> (#[trigger] m[i])@.len() == n
}

/// The entry in row `i` and column `j`.
pub open spec fn entry(m: Seq<Vec<bool>>, i: int, j: int) -> bool {
    m[i]@[j]
}

/// Whether row `i` has an entry that is set: agent `i` is free.
pub open spec fn row_set(m: Seq<Vec<bool>>, i: int) -> bool {
    exists|k: int| 0 <= k < m[i]@.len() && #[trigger] entry(m, i, k)
}

/// Whether every entry that is set in `a` is set in `b`.
pub open spec fn within(a: Seq<Vec<bool>>, b: Seq<Vec<bool>>, n: int) -> bool {
    forall|i: int, j: int| 0 <= i < n && 0 <= j < n && #[trigger] entry(a, i, j) ==> entry(b, i, j)
}

/// The state of a search. A cell is a configuration that the search has
/// met; its records say how it was reached, the last one the cheapest way
/// known. `collision[c][i][j]` says that at cell `c` agent `i` must be
/// planned together with agent `j`; `back[c]` lists the cells from which
/// cell `c` was reached. A cell waits while it is in the frontier, and is
/// settled once all its successors are accounted for. The frontier holds
/// records, each for the cell that owns it. The forest is broken when the
/// fuel ran out while collision sets were handed on.
pub struct Forest {
    pub records: Vec<Node>,
    pub pos: Vec<Vec<usize>>,
    pub collision: Vec<Vec<Vec<bool>>>,
    pub back: Vec<Vec<usize>>,
    pub best: Vec<usize>,
    pub waiting: Vec<bool>,
    pub settled: Vec<bool>,
    pub open: Vec<usize>,
    pub owner: Vec<usize>,
    pub index: Index,
    pub broken: bool,
}

impl Forest {
    /// The number of cells.
    pub open spec fn cells(&self) -> int {
        self.pos@.len() as int
    }

    /// Every record is a well-formed standard node, and every cell knows
    /// the record that reached it last.
    pub open spec fn inv(&self, ctx: Ctx) -> bool {
        &&& self.records@.len() >= 1
        &&& 1 <= self.cells() <= usize::MAX
        &&& forall|i: int| 0 <= i < self.records@.len() ==> #[trigger] node_wf(ctx, views(self.records@), i)
        &&& forall|i: int| 0 <= i < self.records@.len() ==> (#[trigger] self.records@[i]).k == ctx.n()
        &&& self.collision@.len() == self.cells()
        &&& self.back@.len() == self.cells()
        &&& self.best@.len() == self.cells()
        &&& self.waiting@.len() == self.cells()
        &&& self.settled@.len() == self.cells()
        &&& forall|c: int|
            0 <= c < self.cells() ==> (#[trigger] self.best@[c]) < self.records@.len() && self.records@[self.best@[c] as int].pos@
                == self.pos@[c]@
        &&& forall|c: int| 0 <= c < self.cells() ==> square((#[trigger] self.collision@[c])@, ctx.n())
        &&& forall|c: int, k: int|
            0 <= c < self.cells() && 0 <= k < self.back@[c]@.len() ==> (#[trigger] self.back@[c]@[k]) < self.cells()
        &&& heap_ok(self.records@, self.open@)
        &&& self.index.lists@.len() > 0
        &&& self.owner@.len() == self.records@.len()
        &&& forall|r: int| 0 <= r < self.owner@.len() ==> (#[trigger] self.owner@[r]) < self.cells()
        &&& forall|c: int| 0 <= c < self.cells() ==> self.owner@[(#[trigger] self.best@[c]) as int] == c
    }
}

/// An `n` by `n` matrix of `false`.
pub(crate) fn no_collisions(n: usize) -> (m: Vec<Vec<bool>>)
    ensures
        square(m@, n as int),
        forall|i: int, j: int| 0 <= i < n && 0 <= j < n ==> !#[trigger] entry(m@, i, j),
{
    let mut m: Vec<Vec<bool>> = Vec::new();
    let mut i: usize = 0;
    while i < n
        invariant
            0 <= i <= n,
            m@.len() == i,
            forall|x: int| 0 <= x < i ==> (#[trigger] m@[x])@.len() == n,
            forall|x: int, y: int| 0 <= x < i && 0 <= y < n ==> !#[trigger] entry(m@, x, y),
        decreases n - i,
    {
        let mut row: Vec<bool> = Vec::new();
        let mut j: usize = 0;
        while j < n
            invariant
                0 <= j <= n,
                row@.len() == j,
                forall|y: int| 0 <= y < j ==> !row@[y],
            decreases n - j,
        {
            row.push(false);
            j += 1;
        }
        let ghost before = m@;
        let ghost fresh = row@;
        m.push(row);
        proof {
            assert forall|x: int, y: int| 0 <= x < i + 1 && 0 <= y < n implies !#[trigger] entry(m@, x, y) by {
                if x < i {
                    assert(m@[x] == before[x]);
                    assert(!entry(before, x, y));
                } else {
                    assert(m@[x]@ == fresh);
                }
            }
        }
        i += 1;
    }
    m
}

/// The entrywise "or" of two matrices, and whether it has an entry that
/// the first lacks.
pub(crate) fn merged(a: &Vec<Vec<bool>>, b: &Vec<Vec<bool>>, n: usize) -> (r: (Vec<Vec<bool>>, bool))
    requires
        square(a@, n as int),
        square(b@, n as int),
    ensures
        square(r.0@, n as int),
        forall|i: int, j: int|
            0 <= i < n && 0 <= j < n ==> #[trigger] entry(r.0@, i, j) == (entry(a@, i, j) || entry(b@, i, j)),
        !r.1 ==> within(b@, a@, n as int),
{
    let mut m: Vec<Vec<bool>> = Vec::new();
    let mut grew = false;
    let mut i: usize = 0;
    while i < n
        invariant
            0 <= i <= n,
            square(a@, n as int),
            square(b@, n as int),
            m@.len() == i,
            forall|x: int| 0 <= x < i ==> (#[trigger] m@[x])@.len() == n,
            forall|x: int, y: int|
                0 <= x < i && 0 <= y < n ==> #[trigger] entry(m@, x, y) == (entry(a@, x, y) || entry(b@, x, y)),
            !grew ==> forall|x: int, y: int| 0 <= x < i && 0 <= y < n && #[trigger] entry(b@, x, y) ==> entry(a@, x, y),
        decreases n - i,
    {
        let mut row: Vec<bool> = Vec::new();
        let mut j: usize = 0;
        while j < n
            invariant
                0 <= j <= n,
                i < n,
                square(a@, n as int),
                square(b@, n as int),
                row@.len() == j,
                forall|y: int| 0 <= y < j ==> row@[y] == (entry(a@, i as int, y) || entry(b@, i as int, y)),
                !grew ==> forall|x: int, y: int|
                    0 <= x < i && 0 <= y < n && #[trigger] entry(b@, x, y) ==> entry(a@, x, y),
                !grew ==> forall|y: int| 0 <= y < j && #[trigger] entry(b@, i as int, y) ==> entry(a@, i as int, y),
            decreases n - j,
        {
            assert(a@[i as int]@.len() == n);
            assert(b@[i as int]@.len() == n);
            let x = a[i][j];
            let y = b[i][j];
            if y && !x {
                grew = true;
            }
            row.push(x || y);
            j += 1;
        }
        let ghost before = m@;
        let ghost fresh = row@;
        m.push(row);
        proof {
            assert forall|x: int, y: int| 0 <= x < i + 1 && 0 <= y < n implies #[trigger] entry(m@, x, y) == (entry(
                a@,
                x,
                y,
            ) || entry(b@, x, y)) by {
                if x < i {
                    assert(m@[x] == before[x]);
                    assert(entry(before, x, y) == (entry(a@, x, y) || entry(b@, x, y)));
                } else {
                    assert(m@[x]@ == fresh);
                }
            }
        }
        i += 1;
    }
    (m, grew)
}

/// Whether agent `i` must be planned together with some agent.
pub(crate) fn involved(m: &Vec<Vec<bool>>, i: usize, n: usize) -> (r: bool)
    requires
        square(m@, n as int),
        i < n,
    ensures
        r == row_set(m@, i as int),
{
    let mut j: usize = 0;
    while j < n
        invariant
            0 <= j <= n,
            i < n,
            square(m@, n as int),
            forall|k: int| 0 <= k < j ==> !#[trigger] entry(m@, i as int, k),
        decreases n - j,
    {
        assert(m@[i as int]@.len() == n);
        if m[i][j] {
            assert(entry(m@, i as int, j as int));
            return true;
        }
        j += 1;
    }
    false
}

/// The agents that collide on the step from `from` to `to`, as a matrix:
/// entry (i, j) says that agents `i` and `j` end on one node or swap. The
/// flag says whether there is such a pair.
pub(crate) fn collisions_of(from: &Vec<usize>, to: &Vec<usize>, n: usize) -> (r: (Vec<Vec<bool>>, bool))
    requires
        from@.len() == n,
        to@.len() == n,
    ensures
        square(r.0@, n as int),
        forall|i: int, j: int|
            0 <= i < n && 0 <= j < n ==> #[trigger] entry(r.0@, i, j) == (i != j && clash(from@, to@, i, j)),
        !r.1 ==> forall|i: int, j: int| 0 <= i < j < n ==> !#[trigger] clash(from@, to@, i, j),
        r.1 ==> exists|i: int, j: int| 0 <= i < j < n && #[trigger] clash(from@, to@, i, j),
{
    let mut m: Vec<Vec<bool>> = Vec::new();
    let mut any = false;
    let mut i: usize = 0;
    while i < n
        invariant
            0 <= i <= n,
            from@.len() == n,
            to@.len() == n,
            m@.len() == i,
            forall|x: int| 0 <= x < i ==> (#[trigger] m@[x])@.len() == n,
            forall|x: int, y: int|
                0 <= x < i && 0 <= y < n ==> #[trigger] entry(m@, x, y) == (x != y && clash(from@, to@, x, y)),
            !any ==> forall|a: int, b: int| 0 <= a < i && 0 <= b < n && a != b ==> !#[trigger] clash(from@, to@, a, b),
            any ==> exists|a: int, b: int| 0 <= a < b < n && #[trigger] clash(from@, to@, a, b),
        decreases n - i,
    {
        let mut row: Vec<bool> = Vec::new();
        let mut j: usize = 0;
        while j < n
            invariant
                0 <= j <= n,
                i < n,
                from@.len() == n,
                to@.len() == n,
                row@.len() == j,
                forall|y: int| 0 <= y < j ==> row@[y] == (i != y && clash(from@, to@, i as int, y)),
                !any ==> forall|a: int, b: int|
                    0 <= a < i && 0 <= b < n && a != b ==> !#[trigger] clash(from@, to@, a, b),
                !any ==> forall|b: int| 0 <= b < j && b != i ==> !#[trigger] clash(from@, to@, i as int, b),
                any ==> exists|a: int, b: int| 0 <= a < b < n && #[trigger] clash(from@, to@, a, b),
            decreases n - j,
        {
            let hit = i != j && (to[i] == to[j] || (to[i] == from[j] && to[j] == from[i]));
            if hit {
                any = true;
                proof {
                    if i < j {
                        assert(clash(from@, to@, i as int, j as int));
                    } else {
                        assert(clash(from@, to@, j as int, i as int));
                    }
                }
            }
            row.push(hit);
            j += 1;
        }
        let ghost before = m@;
        let ghost fresh = row@;
        m.push(row);
        proof {
            assert forall|x: int, y: int| 0 <= x < i + 1 && 0 <= y < n implies #[trigger] entry(m@, x, y) == (x != y
                && clash(from@, to@, x, y)) by {
                if x < i {
                    assert(m@[x] == before[x]);
                    assert(entry(before, x, y) == (x != y && clash(from@, to@, x, y)));
                } else {
                    assert(m@[x]@ == fresh);
                }
            }
        }
        i += 1;
    }
    (m, any)
}

/// Whether a step from `from` to `to` at weight `w` is a wait or a move
/// along an arc.
pub open spec fn step_ok(ctx: Ctx, from: usize, to: usize, w: usize) -> bool {
    &&& to < ctx.road.size()
    &&& if to == from {
        w == 0
    } else {
        ctx.arcs().contains((from as int, to as int, w as int))
    }
}

/// The weight of agent `j`'s step, as a function of `j`.
pub open spec fn weights_of(ws: Seq<usize>) -> spec_fn(int) -> int {
    |j: int| ws[j] as int
}

/// A new record joins well-formed records without harm.
pub proof fn lemma_record_joins(ctx: Ctx, records: Seq<NodeView>, v: NodeView)
    requires
        forall|i: int| 0 <= i < records.len() ==> #[trigger] node_wf(ctx, records, i),
        node_wf(ctx, records.push(v), records.len() as int),
    ensures
        forall|i: int| 0 <= i < records.len() + 1 ==> #[trigger] node_wf(ctx, records.push(v), i),
{
    let longer = records.push(v);
    assert forall|i: int| 0 <= i < records.len() + 1 implies #[trigger] node_wf(ctx, longer, i) by {
        if i < records.len() {
            assert(node_wf(ctx, records, i));
            assert(longer[i] == records[i]);
            assert(longer[records[i].origin] == records[records[i].origin]);
        }
    }
}

/// The record of a collision-free joint step is well formed.
pub proof fn lemma_step_record(ctx: Ctx, records: Seq<NodeView>, origin: int, v: NodeView, ws: Seq<usize>, cost: int)
    requires
        ctx.wf(),
        forall|i: int| 0 <= i < records.len() ==> #[trigger] node_wf(ctx, records, i),
        0 <= origin < records.len(),
        records[origin].k == ctx.n(),
        v.from == records[origin].pos,
        v.pos.len() == ctx.n(),
        ws.len() == ctx.n(),
        v.k == ctx.n(),
        v.origin == origin,
        v.from.len() == ctx.n(),
        forall|j: int| 0 <= j < ctx.n() ==> step_ok(ctx, v.from[j], #[trigger] v.pos[j], ws[j]),
        forall|i: int, j: int| 0 <= i < j < ctx.n() ==> !#[trigger] clash(v.from, v.pos, i, j),
        cost == sum_over(weights_of(ws), ctx.n()),
        v.g == records[origin].g + cost,
        0 <= v.h <= crate::mapf::joint_search::joint_h(ctx.h, v.pos),
        v.g <= v.f <= v.g + v.h,
    ensures
        node_wf(ctx, records.push(v), records.len() as int),
{
    let arcs = ctx.arcs();
    let longer = records.push(v);
    let parent = records[origin];
    assert(node_wf(ctx, records, origin));
    lemma_standard_distinct(ctx, parent);
    ctx.road.lemma_arcs_within();
    assert forall|j: int| 0 <= j < v.k implies legal_step(arcs, #[trigger] v.from[j] as int, v.pos[j] as int) by {
        assert(step_ok(ctx, v.from[j], v.pos[j], ws[j]));
    }
    assert forall|j: int| 0 <= j < v.pos.len() implies #[trigger] v.pos[j] < ctx.road.size() by {
        assert(step_ok(ctx, v.from[j], v.pos[j], ws[j]));
    }
    assert(moved(ctx, v.from, v.pos, v.k));
    assert(longer[origin] == records[origin]);
    let paid = weights_of(ws);
    let due = step_costs(arcs, v.from, v.pos);
    assert forall|j: int| 0 <= j < ctx.n() implies 0 <= #[trigger] paid(j) by {
    }
    crate::mapf::sums::lemma_sum_nonnegative(paid, ctx.n());
    assert forall|j: int| 0 <= j < ctx.n() implies #[trigger] due(j) <= paid(j) by {
        assert(step_ok(ctx, v.from[j], v.pos[j], ws[j]));
        if v.pos[j] != v.from[j] {
            lemma_step_cost_bounds(arcs, ctx.road.size(), v.from[j] as int, v.pos[j] as int, ws[j] as int);
        }
    }
    crate::mapf::sums::lemma_sum_le(due, paid, ctx.n());
}

/// Whether the policies of all agents are exact.
pub open spec fn policies_exact(ctx: Ctx, policies: Seq<Policy>) -> bool {
    policies.len() == ctx.n() && forall|j: int|
        0 <= j < ctx.n() ==> (#[trigger] policies[j]).exact(&ctx.road, ctx.goals[j] as int)
}

/// Where agent `j` goes from `x`: where it is free, along arc `m` or
/// nowhere; else as its policy says.
pub open spec fn limited_target(ctx: Ctx, policy: Policy, x: usize, free: bool, m: usize) -> usize {
    if free {
        move_target(ctx, x as int, m as int)
    } else {
        policy.next@[x as int]
    }
}

/// What that step costs.
pub open spec fn limited_weight(ctx: Ctx, policy: Policy, x: usize, free: bool, m: usize) -> usize {
    if free {
        if move_target(ctx, x as int, m as int) == x {
            0
        } else {
            move_weight(ctx, x as int, m as int) as usize
        }
    } else {
        policy.weight@[x as int]
    }
}

/// The configuration that the agents' steps lead to.
pub open spec fn limited_to(
    ctx: Ctx,
    policies: Seq<Policy>,
    from: Seq<usize>,
    free: Seq<bool>,
    choice: Seq<usize>,
) -> Seq<usize> {
    Seq::new(from.len(), |j: int| limited_target(ctx, policies[j], from[j], free[j], choice[j]))
}

/// What the agents' steps cost.
pub open spec fn limited_ws(
    ctx: Ctx,
    policies: Seq<Policy>,
    from: Seq<usize>,
    free: Seq<bool>,
    choice: Seq<usize>,
) -> Seq<usize> {
    Seq::new(from.len(), |j: int| limited_weight(ctx, policies[j], from[j], free[j], choice[j]))
}

/// Whether `choice` names a move for every agent: for a free agent an arc
/// or the number of its arcs, which stands for waiting; for the others 0.
pub open spec fn bounded(ctx: Ctx, from: Seq<usize>, free: Seq<bool>, choice: Seq<usize>) -> bool {
    &&& choice.len() == from.len()
    &&& forall|j: int|
        0 <= j < from.len() ==> #[trigger] choice[j] <= (if free[j] {
            degree(ctx, from[j] as int)
        } else {
            0
        })
}

impl Forest {
    /// The collision sets of cell `c`.
    pub open spec fn coll(&self, c: int) -> Seq<Vec<bool>> {
        self.collision@[c]@
    }

    /// Which agents are free at cell `c`.
    pub open spec fn free_flags(&self, c: int) -> Seq<bool> {
        Seq::new(self.coll(c).len(), |j: int| row_set(self.coll(c), j))
    }

    /// The cost of the cheapest way known to cell `c`.
    pub open spec fn g_of(&self, c: int) -> int {
        self.records@[self.best@[c] as int].g as int
    }

    /// The priority of cell `c`.
    pub open spec fn f_of(&self, c: int) -> int {
        self.records@[self.best@[c] as int].f as int
    }

    /// Whether some cell holds the configuration `to`, was reached from
    /// cell `c`, and costs no more than `bound`.
    pub open spec fn reached_at(&self, c: int, to: Seq<usize>, bound: int) -> bool {
        exists|w: int|
            0 <= w < self.cells() && (#[trigger] self.pos@[w])@ == to && self.g_of(w) <= bound && self.back@[w]@.contains(
                c as usize,
            )
    }

    /// Whether the successor of cell `c` under `choice` is accounted for:
    /// agents that collide on the step are in each other's collision sets
    /// at `c`, and where no agents collide, the successor is a cell that
    /// costs no more than `g0` and the step.
    pub open spec fn covered_choice(
        &self,
        ctx: Ctx,
        policies: Seq<Policy>,
        c: int,
        g0: int,
        free: Seq<bool>,
        choice: Seq<usize>,
    ) -> bool {
        let from = self.pos@[c]@;
        let to = limited_to(ctx, policies, from, free, choice);
        let ws = limited_ws(ctx, policies, from, free, choice);
        &&& forall|i: int, j: int|
            0 <= i < j < ctx.n() && #[trigger] clash(from, to, i, j) ==> entry(self.coll(c), i, j) && entry(
                self.coll(c),
                j,
                i,
            )
        &&& (forall|i: int, j: int| 0 <= i < j < ctx.n() ==> !#[trigger] clash(from, to, i, j)) ==> self.reached_at(
            c,
            to,
            g0 + sum_over(weights_of(ws), ctx.n()),
        )
    }

    /// Whether every successor of cell `c` is accounted for.
    pub open spec fn coverage(&self, ctx: Ctx, policies: Seq<Policy>, c: int) -> bool {
        forall|choice: Seq<usize>|
            bounded(ctx, self.pos@[c]@, self.free_flags(c), choice) ==> #[trigger] self.covered_choice(
                ctx,
                policies,
                c,
                self.g_of(c),
                self.free_flags(c),
                choice,
            )
    }

    /// Whether the collision sets of every cell are within those of the
    /// cells from which it was reached, but for the pairs (from, cell) in
    /// `pending`.
    pub open spec fn handed_back(&self, n: int, pending: Seq<(usize, usize)>) -> bool {
        forall|w: usize, k: int|
            w < self.cells() && 0 <= k < self.back@[w as int]@.len() ==> within(
                self.coll(w as int),
                self.coll(#[trigger] self.back@[w as int]@[k] as int),
                n,
            ) || pending.contains((self.back@[w as int]@[k], w))
    }

    /// What holds of a search in progress. `cur` is the cell whose
    /// successors are being handled, if any; `pending` lists the pairs of
    /// cells between which collision sets are still to be handed on.
    pub open spec fn mid(&self, ctx: Ctx, policies: Seq<Policy>, cur: int, pending: Seq<(usize, usize)>) -> bool {
        &&& self.inv(ctx)
        &&& self.pos@[0]@ == ctx.starts
        &&& self.g_of(0) == 0
        &&& forall|c: int|
            0 <= c < self.cells() && #[trigger] self.settled@[c] ==> c != cur && self.pos@[c]@ != ctx.goals
                && self.coverage(ctx, policies, c)
        &&& forall|c: int| 0 <= c < self.cells() && !self.settled@[c] && c != cur ==> #[trigger] self.waiting@[c]
        &&& forall|c: int| 0 <= c < self.cells() && #[trigger] self.waiting@[c] ==> self.open@.contains(self.best@[c])
        &&& !self.broken ==> self.handed_back(ctx.n(), pending)
    }
}

/// Whether the later forest knows all that the earlier knows: the cells
/// are the same, cost no more, were reached from the same cells and more,
/// and their collision sets hold what they held and more.
pub open spec fn grows(old: Forest, new: Forest, n: int) -> bool {
    &&& new.cells() >= old.cells()
    &&& new.records@.len() >= old.records@.len()
    &&& forall|i: int| 0 <= i < old.records@.len() ==> #[trigger] new.records@[i] == old.records@[i]
    &&& forall|c: int| 0 <= c < old.cells() ==> (#[trigger] new.pos@[c])@ == old.pos@[c]@
    &&& forall|c: int| 0 <= c < old.cells() ==> #[trigger] new.g_of(c) <= old.g_of(c)
    &&& forall|c: int, x: usize|
        0 <= c < old.cells() && old.back@[c]@.contains(x) ==> #[trigger] new.back@[c]@.contains(x)
    &&& forall|c: int| 0 <= c < old.cells() ==> within(old.coll(c), #[trigger] new.coll(c), n)
}

/// What is accounted for stays accounted for while the forest grows.
pub proof fn lemma_choice_stable(
    ctx: Ctx,
    policies: Seq<Policy>,
    old: Forest,
    new: Forest,
    c: int,
    g0: int,
    free: Seq<bool>,
    choice: Seq<usize>,
)
    requires
        grows(old, new, ctx.n()),
        0 <= c < old.cells(),
        old.covered_choice(ctx, policies, c, g0, free, choice),
    ensures
        new.covered_choice(ctx, policies, c, g0, free, choice),
{
    let from = old.pos@[c]@;
    assert(new.pos@[c]@ == from);
    let to = limited_to(ctx, policies, from, free, choice);
    let ws = limited_ws(ctx, policies, from, free, choice);
    let bound = g0 + sum_over(weights_of(ws), ctx.n());
    assert(within(old.coll(c), new.coll(c), ctx.n()));
    assert forall|i: int, j: int| 0 <= i < j < ctx.n() && #[trigger] clash(from, to, i, j) implies entry(
        new.coll(c),
        i,
        j,
    ) && entry(new.coll(c), j, i) by {
        assert(entry(old.coll(c), i, j));
        assert(entry(old.coll(c), j, i));
    }
    if forall|i: int, j: int| 0 <= i < j < ctx.n() ==> !#[trigger] clash(from, to, i, j) {
        let w = choose|w: int|
            0 <= w < old.cells() && (#[trigger] old.pos@[w])@ == to && old.g_of(w) <= bound && old.back@[w]@.contains(
                c as usize,
            );
        assert(new.pos@[w]@ == to);
        assert(new.g_of(w) <= old.g_of(w));
        assert(new.back@[w]@.contains(c as usize));
        assert(new.reached_at(c, to, bound));
    }
}

/// A settled cell stays covered while the forest grows, if its cost and
/// its collision sets stay as they are.
pub proof fn lemma_coverage_stable(ctx: Ctx, policies: Seq<Policy>, old: Forest, new: Forest, c: int)
    requires
        grows(old, new, ctx.n()),
        0 <= c < old.cells(),
        old.coverage(ctx, policies, c),
        new.g_of(c) == old.g_of(c),
        new.coll(c) == old.coll(c),
    ensures
        new.coverage(ctx, policies, c),
{
    assert(new.free_flags(c) == old.free_flags(c));
    assert(new.pos@[c]@ == old.pos@[c]@);
    assert forall|choice: Seq<usize>|
        bounded(ctx, new.pos@[c]@, new.free_flags(c), choice) implies #[trigger] new.covered_choice(
        ctx,
        policies,
        c,
        new.g_of(c),
        new.free_flags(c),
        choice,
    ) by {
        assert(old.covered_choice(ctx, policies, c, old.g_of(c), old.free_flags(c), choice));
        lemma_choice_stable(ctx, policies, old, new, c, old.g_of(c), old.free_flags(c), choice);
    }
}

/// The pairs (from, `t`) for the cells from which cell `t` was reached.
pub open spec fn back_pairs(back: Seq<usize>, t: usize) -> Seq<(usize, usize)> {
    Seq::new(back.len(), |k: int| (back[k], t))
}

impl Forest {
    /// Takes cell `c` out of the settled cells and puts it into the
    /// frontier, unless it waits there already.
    pub(crate) fn reopen(
        &mut self,
        c: usize,
        Ghost(ctx): Ghost<Ctx>,
        Ghost(policies): Ghost<Seq<Policy>>,
        Ghost(cur): Ghost<int>,
        Ghost(pending): Ghost<Seq<(usize, usize)>>,
    )
        requires
            old(self).mid(ctx, policies, cur, pending),
            c < old(self).cells(),
        ensures
            final(self).mid(ctx, policies, cur, pending),
            grows(*old(self), *final(self), ctx.n()),
            final(self).records == old(self).records,
            final(self).pos == old(self).pos,
            final(self).best == old(self).best,
            final(self).back == old(self).back,
            final(self).collision == old(self).collision,
            final(self).broken == old(self).broken,
            final(self).waiting@[c as int],
            !final(self).settled@[c as int],
    {
        let ghost before = *self;
        self.settled.set(c, false);
        if !self.waiting[c] {
            self.waiting.set(c, true);
            let r = self.best[c];
            crate::mapf::heap::push(&mut self.open, &self.records, r);
        }
        proof {
            assert forall|x: int| 0 <= x < self.cells() && #[trigger] self.waiting@[x] implies self.open@.contains(
                self.best@[x],
            ) by {
                if x != c || before.waiting@[c as int] {
                    assert(before.waiting@[x]);
                    assert(before.open@.contains(before.best@[x]));
                }
            }
            assert(grows(before, *self, ctx.n()));
            assert forall|x: int| 0 <= x < self.cells() && #[trigger] self.settled@[x] implies x != cur && self.pos@[x]@
                != ctx.goals && self.coverage(ctx, policies, x) by {
                assert(before.settled@[x]);
                lemma_coverage_stable(ctx, policies, before, *self, x);
            }
            if !self.broken {
                assert forall|w: usize, k: int| w < self.cells() && 0 <= k < self.back@[w as int]@.len() implies within(
                    self.coll(w as int),
                    self.coll(#[trigger] self.back@[w as int]@[k] as int),
                    ctx.n(),
                ) || pending.contains((self.back@[w as int]@[k], w)) by {
                    assert(within(
                        before.coll(w as int),
                        before.coll(before.back@[w as int]@[k] as int),
                        ctx.n(),
                    ) || pending.contains((before.back@[w as int]@[k], w)));
                }
            }
        }
    }

    /// Replaces the collision sets of cell `t` by the larger sets `m`, and
    /// puts the cell into the frontier. What the cells from which `t` was
    /// reached still have to learn is then pending.
    pub(crate) fn widen(
        &mut self,
        t: usize,
        m: Vec<Vec<bool>>,
        Ghost(ctx): Ghost<Ctx>,
        Ghost(policies): Ghost<Seq<Policy>>,
        Ghost(cur): Ghost<int>,
        Ghost(pending): Ghost<Seq<(usize, usize)>>,
    )
        requires
            old(self).mid(ctx, policies, cur, pending),
            t < old(self).cells(),
            square(m@, ctx.n()),
            within(old(self).coll(t as int), m@, ctx.n()),
        ensures
            final(self).mid(ctx, policies, cur, pending + back_pairs(old(self).back@[t as int]@, t)),
            grows(*old(self), *final(self), ctx.n()),
            final(self).records == old(self).records,
            final(self).pos == old(self).pos,
            final(self).best == old(self).best,
            final(self).back == old(self).back,
            final(self).broken == old(self).broken,
            final(self).coll(t as int) == m@,
            forall|c: int|
                0 <= c < old(self).cells() && c != t ==> #[trigger] final(self).collision@[c] == old(
                    self,
                ).collision@[c],
    {
        self.reopen(t, Ghost(ctx), Ghost(policies), Ghost(cur), Ghost(pending));
        let ghost before = *self;
        let ghost later = pending + back_pairs(before.back@[t as int]@, t);
        self.collision.set(t, m);
        proof {
            assert forall|c: int| 0 <= c < self.cells() implies square((#[trigger] self.collision@[c])@, ctx.n()) by {
                if c != t {
                    assert(self.collision@[c] == before.collision@[c]);
                }
            }
            assert forall|c: int| 0 <= c < before.cells() implies within(
                before.coll(c),
                #[trigger] self.coll(c),
                ctx.n(),
            ) by {
                if c != t {
                    assert(self.collision@[c] == before.collision@[c]);
                }
            }
            assert(grows(before, *self, ctx.n()));
            assert forall|x: int| 0 <= x < self.cells() && #[trigger] self.settled@[x] implies x != cur && self.pos@[x]@
                != ctx.goals && self.coverage(ctx, policies, x) by {
                assert(before.settled@[x]);
                assert(x != t);
                assert(self.collision@[x] == before.collision@[x]);
                lemma_coverage_stable(ctx, policies, before, *self, x);
            }
            if !self.broken {
                assert forall|w: usize, k: int| w < self.cells() && 0 <= k < self.back@[w as int]@.len() implies within(
                    self.coll(w as int),
                    self.coll(#[trigger] self.back@[w as int]@[k] as int),
                    ctx.n(),
                ) || later.contains((self.back@[w as int]@[k], w)) by {
                    let b = self.back@[w as int]@[k];
                    if w == t {
                        let pairs = back_pairs(before.back@[t as int]@, t);
                        assert(pairs[k] == (b, t));
                        assert(later[pending.len() + k] == (b, t));
                    } else if pending.contains((b, w)) {
                        let x = choose|x: int| 0 <= x < pending.len() && pending[x] == (b, w);
                        assert(later[x] == (b, w));
                    } else {
                        assert(within(before.coll(w as int), before.coll(before.back@[w as int]@[k] as int), ctx.n()));
                        assert(self.collision@[w as int] == before.collision@[w as int]);
                        assert(within(before.coll(b as int), self.coll(b as int), ctx.n()));
                    }
                }
            }
        }
    }

    /// Hands collision sets on along the pairs of `work`: for a pair
    /// (to, from) the sets of cell `from` join those of cell `to`; where
    /// these grow, the cell goes back into the frontier and the cells from
    /// which it was reached are next. Each pair spends one unit of fuel;
    /// with none left the handing on stops and the forest is broken.
    pub(crate) fn drain(
        &mut self,
        work: Vec<(usize, usize)>,
        n: usize,
        fuel: &mut usize,
        Ghost(ctx): Ghost<Ctx>,
        Ghost(policies): Ghost<Seq<Policy>>,
        Ghost(cur): Ghost<int>,
    )
        requires
            old(self).mid(ctx, policies, cur, work@),
            n == ctx.n(),
            forall|x: int|
                0 <= x < work@.len() ==> (#[trigger] work@[x]).0 < old(self).cells() && work@[x].1 < old(
                    self,
                ).cells(),
        ensures
            final(self).mid(ctx, policies, cur, Seq::<(usize, usize)>::empty()),
            grows(*old(self), *final(self), ctx.n()),
            final(self).records == old(self).records,
            final(self).pos == old(self).pos,
            final(self).best == old(self).best,
            final(self).back == old(self).back,
            *final(fuel) <= *old(fuel),
    {
        let mut work = work;
        let ghost start = *self;
        while work.len() > 0
            invariant
                start == *old(self),
                self.mid(ctx, policies, cur, work@),
                n == ctx.n(),
                grows(start, *self, ctx.n()),
                self.cells() == start.cells(),
                self.records == start.records,
                self.pos == start.pos,
                self.best == start.best,
                self.back == start.back,
                *fuel <= *old(fuel),
                forall|x: int|
                    0 <= x < work@.len() ==> (#[trigger] work@[x]).0 < self.cells() && work@[x].1 < self.cells(),
            decreases *fuel,
        {
            if *fuel == 0 {
                let ghost whole = *self;
                self.broken = true;
                proof {
                    assert(grows(whole, *self, ctx.n()));
                    assert forall|x: int| 0 <= x < self.cells() && #[trigger] self.settled@[x] implies x != cur
                        && self.pos@[x]@ != ctx.goals && self.coverage(ctx, policies, x) by {
                        assert(whole.settled@[x]);
                        lemma_coverage_stable(ctx, policies, whole, *self, x);
                    }
                }
                return ;
            }
            *fuel = *fuel - 1;
            let ghost work0 = work@;
            let ghost before = *self;
            let (t, s) = work.pop().unwrap();
            assert(work0[work0.len() - 1] == (t, s));
            assert(square(self.collision@[t as int]@, n as int));
            assert(square(self.collision@[s as int]@, n as int));
            let (m, grew) = merged(&self.collision[t], &self.collision[s], n);
            if grew {
                proof {
                    assert(within(self.coll(t as int), m@, ctx.n()));
                    assert(within(self.coll(s as int), m@, ctx.n()));
                }
                self.widen(t, m, Ghost(ctx), Ghost(policies), Ghost(cur), Ghost(work0));
                let ghost mid = *self;
                let ghost rest = work@;
                let ghost pairs = back_pairs(self.back@[t as int]@, t);
                let mut k: usize = 0;
                while k < self.back[t].len()
                    invariant
                        0 <= k <= self.back@[t as int]@.len(),
                        *self == mid,
                        t < self.cells(),
                        self.inv(ctx),
                        pairs == back_pairs(self.back@[t as int]@, t),
                        work@ == rest + pairs.take(k as int),
                        forall|x: int|
                            0 <= x < work@.len() ==> (#[trigger] work@[x]).0 < self.cells() && work@[x].1
                                < self.cells(),
                    decreases self.back@[t as int]@.len() - k,
                {
                    let b = self.back[t][k];
                    assert(self.back@[t as int]@[k as int] < self.cells());
                    work.push((b, t));
                    proof {
                        assert(pairs[k as int] == (b, t));
                        assert(pairs.take(k as int + 1) =~= pairs.take(k as int).push((b, t)));
                        assert(work@ =~= rest + pairs.take(k as int + 1));
                    }
                    k += 1;
                }
                proof {
                    assert(pairs.take(pairs.len() as int) =~= pairs);
                    let wide = work0 + pairs;
                    assert(self.coll(t as int) == m@);
                    if s != t {
                        assert(self.collision@[s as int] == before.collision@[s as int]);
                    }
                    assert(within(self.coll(s as int), self.coll(t as int), ctx.n()));
                    if !self.broken {
                        assert forall|w: usize, k: int|
                            w < self.cells() && 0 <= k < self.back@[w as int]@.len() implies within(
                            self.coll(w as int),
                            self.coll(#[trigger] self.back@[w as int]@[k] as int),
                            ctx.n(),
                        ) || work@.contains((self.back@[w as int]@[k], w)) by {
                            let b = self.back@[w as int]@[k];
                            if !within(self.coll(w as int), self.coll(b as int), ctx.n()) {
                                assert(wide.contains((b, w)));
                                let x = choose|x: int| 0 <= x < wide.len() && wide[x] == (b, w);
                                if x < work0.len() - 1 {
                                    assert(rest[x] == work0[x]);
                                    assert(work@[x] == (b, w));
                                } else if x >= work0.len() {
                                    assert(work@[x - 1] == wide[x]);
                                }
                            }
                        }
                    }
                }
            } else {
                proof {
                    assert(within(self.coll(s as int), self.coll(t as int), ctx.n()));
                    if !self.broken {
                        assert forall|w: usize, k: int|
                            w < self.cells() && 0 <= k < self.back@[w as int]@.len() implies within(
                            self.coll(w as int),
                            self.coll(#[trigger] self.back@[w as int]@[k] as int),
                            ctx.n(),
                        ) || work@.contains((self.back@[w as int]@[k], w)) by {
                            let b = self.back@[w as int]@[k];
                            if !within(self.coll(w as int), self.coll(b as int), ctx.n()) {
                                assert(work0.contains((b, w)));
                                let x = choose|x: int| 0 <= x < work0.len() && work0[x] == (b, w);
                                if x < work0.len() - 1 {
                                    assert(work@[x] == (b, w));
                                }
                            }
                        }
                    }
                }
            }
        }
        proof {
            assert(work@ =~= Seq::<(usize, usize)>::empty());
        }
    }
}

impl Forest {
    /// Adds `add` to the collision sets of cell `c` and hands what is new
    /// on to the cells from which `c` was reached, and on from there.
    pub(crate) fn spread(
        &mut self,
        c: usize,
        add: &Vec<Vec<bool>>,
        n: usize,
        fuel: &mut usize,
        Ghost(ctx): Ghost<Ctx>,
        Ghost(policies): Ghost<Seq<Policy>>,
        Ghost(cur): Ghost<int>,
    )
        requires
            old(self).mid(ctx, policies, cur, Seq::<(usize, usize)>::empty()),
            c < old(self).cells(),
            n == ctx.n(),
            square(add@, n as int),
        ensures
            final(self).mid(ctx, policies, cur, Seq::<(usize, usize)>::empty()),
            grows(*old(self), *final(self), ctx.n()),
            final(self).records == old(self).records,
            final(self).pos == old(self).pos,
            final(self).best == old(self).best,
            final(self).back == old(self).back,
            *final(fuel) <= *old(fuel),
            within(add@, final(self).coll(c as int), ctx.n()),
    {
        let ghost start = *self;
        assert(square(self.collision@[c as int]@, n as int));
        let (m, grew) = merged(&self.collision[c], add, n);
        if !grew {
            return ;
        }
        proof {
            assert(within(self.coll(c as int), m@, ctx.n()));
            assert(within(add@, m@, ctx.n()));
        }
        self.widen(c, m, Ghost(ctx), Ghost(policies), Ghost(cur), Ghost(Seq::<(usize, usize)>::empty()));
        let ghost mid = *self;
        let ghost pairs = back_pairs(self.back@[c as int]@, c);
        let mut work: Vec<(usize, usize)> = Vec::new();
        let mut k: usize = 0;
        while k < self.back[c].len()
            invariant
                0 <= k <= self.back@[c as int]@.len(),
                *self == mid,
                c < self.cells(),
                self.inv(ctx),
                pairs == back_pairs(self.back@[c as int]@, c),
                work@ == pairs.take(k as int),
                forall|x: int|
                    0 <= x < work@.len() ==> (#[trigger] work@[x]).0 < self.cells() && work@[x].1 < self.cells(),
            decreases self.back@[c as int]@.len() - k,
        {
            let b = self.back[c][k];
            assert(self.back@[c as int]@[k as int] < self.cells());
            work.push((b, c));
            proof {
                assert(pairs[k as int] == (b, c));
                assert(pairs.take(k as int + 1) =~= pairs.take(k as int).push((b, c)));
            }
            k += 1;
        }
        proof {
            assert(pairs.take(pairs.len() as int) =~= pairs);
            assert(Seq::<(usize, usize)>::empty() + pairs =~= pairs);
        }
        self.drain(work, n, fuel, Ghost(ctx), Ghost(policies), Ghost(cur));
        proof {
            assert(within(mid.coll(c as int), self.coll(c as int), ctx.n()));
        }
    }

    /// The first cell of configuration `pos` among those filed under the
    /// number that `mix` makes of `pos`.
    pub(crate) fn cell_of(&self, pos: &Vec<usize>) -> (found: Option<usize>)
        ensures
            match found {
                Some(c) => c < self.cells() && self.pos@[c as int]@ == pos@,
                None => forall|i: int|
                    0 <= i < self.index.list(mixed(pos@, 0, pos@.len() as int)).len() ==> {
                        let c = #[trigger] self.index.list(mixed(pos@, 0, pos@.len() as int))[i];
                        !(c < self.cells() && self.pos@[c as int]@ == pos@)
                    },
            },
    {
        let number = mix(pos, 0);
        let count = self.index.count(number);
        let mut i: usize = 0;
        while i < count
            invariant
                0 <= i <= count,
                number == mixed(pos@, 0, pos@.len() as int),
                count == self.index.list(number).len(),
                forall|j: int|
                    0 <= j < i ==> {
                        let c = #[trigger] self.index.list(number)[j];
                        !(c < self.cells() && self.pos@[c as int]@ == pos@)
                    },
            decreases count - i,
        {
            let c = self.index.filed(number, i);
            if c < self.pos.len() {
                if same(&self.pos[c], pos) {
                    return Some(c);
                }
            }
            i += 1;
        }
        None
    }

    /// Notes that cell `w` was reached from cell `c`. What `c` has to
    /// learn of the collision sets of `w` is then pending.
    pub(crate) fn note_way_back(
        &mut self,
        w: usize,
        c: usize,
        Ghost(ctx): Ghost<Ctx>,
        Ghost(policies): Ghost<Seq<Policy>>,
        Ghost(cur): Ghost<int>,
    )
        requires
            old(self).mid(ctx, policies, cur, Seq::<(usize, usize)>::empty()),
            w < old(self).cells(),
            c < old(self).cells(),
        ensures
            final(self).mid(ctx, policies, cur, seq![(c, w)]),
            grows(*old(self), *final(self), ctx.n()),
            final(self).records == old(self).records,
            final(self).pos == old(self).pos,
            final(self).best == old(self).best,
            final(self).collision == old(self).collision,
            final(self).back@[w as int]@.contains(c),
    {
        let ghost before = *self;
        let ghost pending = seq![(c, w)];
        let mut k: usize = 0;
        let mut known = false;
        while k < self.back[w].len()
            invariant
                0 <= k <= self.back@[w as int]@.len(),
                w < self.back@.len(),
                *self == before,
                known ==> self.back@[w as int]@.contains(c),
            decreases self.back@[w as int]@.len() - k,
        {
            if self.back[w][k] == c {
                known = true;
            }
            k += 1;
        }
        if !known {
            let mut row = copy_of(&self.back[w]);
            row.push(c);
            self.back.set(w, row);
        }
        proof {
            assert(pending[0] == (c, w));
            if !known {
                let last = before.back@[w as int]@.len() as int;
                assert(self.back@[w as int]@[last] == c);
            }
            assert forall|x: int, k: int| 0 <= x < self.cells() && 0 <= k < self.back@[x]@.len() implies (
            #[trigger] self.back@[x]@[k]) < self.cells() by {
                if x == w && !known {
                    if k < before.back@[x]@.len() {
                        assert(self.back@[x]@[k] == before.back@[x]@[k]);
                    }
                } else {
                    assert(self.back@[x] == before.back@[x]);
                }
            }
            assert forall|x: int, y: usize| 0 <= x < before.cells() && before.back@[x]@.contains(y) implies #[trigger] self.back@[x]@.contains(
                y,
            ) by {
                if x == w && !known {
                    let k = choose|k: int| 0 <= k < before.back@[x]@.len() && before.back@[x]@[k] == y;
                    assert(self.back@[x]@[k] == y);
                } else {
                    assert(self.back@[x] == before.back@[x]);
                }
            }
            assert(grows(before, *self, ctx.n()));
            assert forall|x: int| 0 <= x < self.cells() && #[trigger] self.settled@[x] implies x != cur && self.pos@[x]@
                != ctx.goals && self.coverage(ctx, policies, x) by {
                lemma_coverage_stable(ctx, policies, before, *self, x);
            }
            if !self.broken {
                assert forall|x: usize, k: int| x < self.cells() && 0 <= k < self.back@[x as int]@.len() implies within(
                    self.coll(x as int),
                    self.coll(#[trigger] self.back@[x as int]@[k] as int),
                    ctx.n(),
                ) || pending.contains((self.back@[x as int]@[k], x)) by {
                    if x == w && !known {
                        if k < before.back@[x as int]@.len() {
                            assert(self.back@[x as int]@[k] == before.back@[x as int]@[k]);
                            assert(within(
                                before.coll(x as int),
                                before.coll(before.back@[x as int]@[k] as int),
                                ctx.n(),
                            ) || Seq::<(usize, usize)>::empty().contains((before.back@[x as int]@[k], x)));
                        }
                    } else {
                        assert(self.back@[x as int] == before.back@[x as int]);
                        assert(within(
                            before.coll(x as int),
                            before.coll(before.back@[x as int]@[k] as int),
                            ctx.n(),
                        ) || Seq::<(usize, usize)>::empty().contains((before.back@[x as int]@[k], x)));
                    }
                }
            }
        }
    }
}

impl Forest {
    /// Records a cheaper way to cell `w` and puts the cell into the
    /// frontier.
    pub(crate) fn improve(
        &mut self,
        w: usize,
        node: Node,
        Ghost(ctx): Ghost<Ctx>,
        Ghost(policies): Ghost<Seq<Policy>>,
        Ghost(cur): Ghost<int>,
    )
        requires
            old(self).mid(ctx, policies, cur, Seq::<(usize, usize)>::empty()),
            w < old(self).cells(),
            node_wf(ctx, views(old(self).records@).push(node@), old(self).records@.len() as int),
            node.k == ctx.n(),
            node.pos@ == old(self).pos@[w as int]@,
            node.g < old(self).g_of(w as int),
        ensures
            final(self).mid(ctx, policies, cur, Seq::<(usize, usize)>::empty()),
            grows(*old(self), *final(self), ctx.n()),
            final(self).pos == old(self).pos,
            final(self).back == old(self).back,
            final(self).collision == old(self).collision,
            final(self).g_of(w as int) == node.g,
    {
        let ghost before = *self;
        let ghost recs = views(self.records@);
        let index = self.records.len();
        proof {
            lemma_record_joins(ctx, recs, node@);
        }
        self.records.push(node);
        self.owner.push(w);
        self.best.set(w, index);
        self.settled.set(w, false);
        self.waiting.set(w, true);
        proof {
            lemma_heap_grows(before.records@, self.records@, self.open@);
        }
        crate::mapf::heap::push(&mut self.open, &self.records, index);
        proof {
            assert(views(self.records@) =~= recs.push(node@));
            assert forall|r: int| 0 <= r < self.owner@.len() implies (#[trigger] self.owner@[r]) < self.cells() by {
                if r < before.owner@.len() {
                    assert(self.owner@[r] == before.owner@[r]);
                }
            }
            assert forall|c: int| 0 <= c < self.cells() implies self.owner@[(#[trigger] self.best@[c]) as int] == c by {
                if c != w {
                    assert(self.best@[c] == before.best@[c]);
                    assert(self.owner@[before.best@[c] as int] == before.owner@[before.best@[c] as int]);
                }
            }
            assert forall|x: int| 0 <= x < self.cells() && #[trigger] self.waiting@[x] implies self.open@.contains(
                self.best@[x],
            ) by {
                if x != w {
                    assert(before.waiting@[x]);
                    assert(before.open@.contains(before.best@[x]));
                }
            }
            assert forall|c: int| 0 <= c < self.cells() implies (#[trigger] self.best@[c]) < self.records@.len()
                && self.records@[self.best@[c] as int].pos@ == self.pos@[c]@ by {
                if c != w {
                    assert(self.best@[c] == before.best@[c]);
                    assert(self.records@[self.best@[c] as int] == before.records@[before.best@[c] as int]);
                }
            }
            assert forall|i: int| 0 <= i < self.records@.len() implies (#[trigger] self.records@[i]).k == ctx.n() by {
                if i < before.records@.len() {
                    assert(self.records@[i] == before.records@[i]);
                }
            }
            assert(self.inv(ctx));
            assert forall|c: int| 0 <= c < before.cells() implies #[trigger] self.g_of(c) <= before.g_of(c) by {
                if c != w {
                    assert(self.best@[c] == before.best@[c]);
                    assert(self.records@[self.best@[c] as int] == before.records@[before.best@[c] as int]);
                }
            }
            assert(grows(before, *self, ctx.n()));
            assert(w != 0);
            assert(self.records@[self.best@[0] as int] == before.records@[before.best@[0] as int]);
            assert forall|x: int| 0 <= x < self.cells() && !self.settled@[x] && x != cur implies #[trigger] self.waiting@[x] by {
                if x != w {
                    assert(!before.settled@[x]);
                }
            }
            assert forall|x: int| 0 <= x < self.cells() && #[trigger] self.settled@[x] implies x != cur && self.pos@[x]@
                != ctx.goals && self.coverage(ctx, policies, x) by {
                assert(x != w);
                assert(before.settled@[x]);
                assert(self.records@[self.best@[x] as int] == before.records@[before.best@[x] as int]);
                lemma_coverage_stable(ctx, policies, before, *self, x);
            }
            if !self.broken {
                assert forall|x: usize, k: int| x < self.cells() && 0 <= k < self.back@[x as int]@.len() implies within(
                    self.coll(x as int),
                    self.coll(#[trigger] self.back@[x as int]@[k] as int),
                    ctx.n(),
                ) || Seq::<(usize, usize)>::empty().contains((self.back@[x as int]@[k], x)) by {
                    assert(within(
                        before.coll(x as int),
                        before.coll(before.back@[x as int]@[k] as int),
                        ctx.n(),
                    ) || Seq::<(usize, usize)>::empty().contains((before.back@[x as int]@[k], x)));
                }
            }
        }
    }

    /// Makes a cell of a configuration that the search has not met, as
    /// reached from cell `c`, and puts it into the frontier.
    pub(crate) fn found(
        &mut self,
        c: usize,
        to: Vec<usize>,
        node: Node,
        n: usize,
        Ghost(ctx): Ghost<Ctx>,
        Ghost(policies): Ghost<Seq<Policy>>,
        Ghost(cur): Ghost<int>,
    )
        requires
            old(self).mid(ctx, policies, cur, Seq::<(usize, usize)>::empty()),
            c < old(self).cells(),
            n == ctx.n(),
            node_wf(ctx, views(old(self).records@).push(node@), old(self).records@.len() as int),
            node.k == ctx.n(),
            node.pos@ == to@,
        ensures
            final(self).mid(ctx, policies, cur, Seq::<(usize, usize)>::empty()),
            grows(*old(self), *final(self), ctx.n()),
            final(self).reached_at(c as int, to@, node.g as int),
    {
        let ghost before = *self;
        let ghost recs = views(self.records@);
        let index = self.records.len();
        let w = self.pos.len();
        proof {
            lemma_record_joins(ctx, recs, node@);
        }
        let mut way: Vec<usize> = Vec::new();
        way.push(c);
        let fresh = no_collisions(n);
        let ghost blank = fresh@;
        let number = mix(&to, 0);
        self.records.push(node);
        self.owner.push(w);
        self.pos.push(to);
        self.collision.push(fresh);
        self.back.push(way);
        self.best.push(index);
        self.waiting.push(true);
        self.settled.push(false);
        self.index.file(number, w);
        proof {
            lemma_heap_grows(before.records@, self.records@, self.open@);
        }
        crate::mapf::heap::push(&mut self.open, &self.records, index);
        let cells = self.pos.len();
        proof {
            assert(self.cells() == cells);
            assert(views(self.records@) =~= recs.push(node@));
            assert forall|i: int| 0 <= i < self.records@.len() implies (#[trigger] self.records@[i]).k == ctx.n() by {
                if i < before.records@.len() {
                    assert(self.records@[i] == before.records@[i]);
                }
            }
            assert forall|x: int| 0 <= x < self.cells() implies (#[trigger] self.best@[x]) < self.records@.len()
                && self.records@[self.best@[x] as int].pos@ == self.pos@[x]@ by {
                if x < before.cells() {
                    assert(self.best@[x] == before.best@[x]);
                    assert(self.pos@[x] == before.pos@[x]);
                    assert(self.records@[self.best@[x] as int] == before.records@[before.best@[x] as int]);
                }
            }
            assert forall|x: int| 0 <= x < self.cells() implies square((#[trigger] self.collision@[x])@, ctx.n()) by {
                if x < before.cells() {
                    assert(self.collision@[x] == before.collision@[x]);
                }
            }
            assert forall|x: int, k: int| 0 <= x < self.cells() && 0 <= k < self.back@[x]@.len() implies (
            #[trigger] self.back@[x]@[k]) < self.cells() by {
                if x < before.cells() {
                    assert(self.back@[x] == before.back@[x]);
                    assert(before.back@[x]@[k] < before.cells());
                }
            }
            assert forall|r: int| 0 <= r < self.owner@.len() implies (#[trigger] self.owner@[r]) < self.cells() by {
                if r < before.owner@.len() {
                    assert(self.owner@[r] == before.owner@[r]);
                }
            }
            assert forall|x: int| 0 <= x < self.cells() implies self.owner@[(#[trigger] self.best@[x]) as int] == x by {
                if x < before.cells() {
                    assert(self.best@[x] == before.best@[x]);
                    assert(self.owner@[before.best@[x] as int] == before.owner@[before.best@[x] as int]);
                }
            }
            assert(self.inv(ctx));
            assert forall|x: int| 0 <= x < before.cells() implies #[trigger] self.g_of(x) <= before.g_of(x) by {
                assert(self.best@[x] == before.best@[x]);
                assert(self.records@[self.best@[x] as int] == before.records@[before.best@[x] as int]);
            }
            assert forall|x: int| 0 <= x < before.cells() implies (#[trigger] self.pos@[x])@ == before.pos@[x]@ by {
                assert(self.pos@[x] == before.pos@[x]);
            }
            assert forall|x: int, y: usize| 0 <= x < before.cells() && before.back@[x]@.contains(y) implies #[trigger] self.back@[x]@.contains(
                y,
            ) by {
                assert(self.back@[x] == before.back@[x]);
            }
            assert forall|x: int| 0 <= x < before.cells() implies within(
                before.coll(x),
                #[trigger] self.coll(x),
                ctx.n(),
            ) by {
                assert(self.collision@[x] == before.collision@[x]);
            }
            assert(grows(before, *self, ctx.n()));
            assert(self.pos@[0] == before.pos@[0]);
            assert(self.records@[self.best@[0] as int] == before.records@[before.best@[0] as int]);
            assert forall|x: int| 0 <= x < self.cells() && #[trigger] self.settled@[x] implies x != cur && self.pos@[x]@
                != ctx.goals && self.coverage(ctx, policies, x) by {
                assert(x < before.cells());
                assert(self.settled@[x] == before.settled@[x]);
                assert(self.pos@[x] == before.pos@[x]);
                assert(self.collision@[x] == before.collision@[x]);
                assert(self.records@[self.best@[x] as int] == before.records@[before.best@[x] as int]);
                lemma_coverage_stable(ctx, policies, before, *self, x);
            }
            assert forall|x: int| 0 <= x < self.cells() && !self.settled@[x] && x != cur implies #[trigger] self.waiting@[x] by {
                if x < before.cells() {
                    assert(self.settled@[x] == before.settled@[x]);
                    assert(self.waiting@[x] == before.waiting@[x]);
                }
            }
            assert forall|x: int| 0 <= x < self.cells() && #[trigger] self.waiting@[x] implies self.open@.contains(
                self.best@[x],
            ) by {
                if x < before.cells() {
                    assert(self.waiting@[x] == before.waiting@[x]);
                    assert(self.best@[x] == before.best@[x]);
                    assert(before.open@.contains(before.best@[x]));
                }
            }
            if !self.broken {
                assert forall|x: usize, k: int| x < self.cells() && 0 <= k < self.back@[x as int]@.len() implies within(
                    self.coll(x as int),
                    self.coll(#[trigger] self.back@[x as int]@[k] as int),
                    ctx.n(),
                ) || Seq::<(usize, usize)>::empty().contains((self.back@[x as int]@[k], x)) by {
                    if x < before.cells() {
                        assert(self.back@[x as int] == before.back@[x as int]);
                        assert(self.collision@[x as int] == before.collision@[x as int]);
                        let b = before.back@[x as int]@[k];
                        assert(b < before.cells());
                        assert(self.collision@[b as int] == before.collision@[b as int]);
                        assert(within(before.coll(x as int), before.coll(b as int), ctx.n()) || Seq::<
                            (usize, usize),
                        >::empty().contains((b, x)));
                    } else {
                        assert(self.coll(x as int) == blank);
                    }
                }
            }
            assert(self.back@[w as int]@[0] == c);
            assert(self.pos@[w as int]@ == to@);
            assert(self.reached_at(c as int, to@, node.g as int));
        }
    }
}

/// Whether `a` comes before `b` in the order in which the successors are
/// handled: at the last place where the two differ, `a` is smaller.
pub open spec fn precedes(a: Seq<usize>, b: Seq<usize>) -> bool {
    exists|j: int| 0 <= j < a.len() && #[trigger] a[j] < b[j] && forall|k: int| j < k < a.len() ==> a[k] == b[k]
}

/// Where `a` is nowhere larger than `b` below place `m` and the two agree
/// from there on, `a` is `b` or comes before `b`.
pub proof fn lemma_below(a: Seq<usize>, b: Seq<usize>, m: int)
    requires
        a.len() == b.len(),
        0 <= m <= a.len(),
        forall|k: int| 0 <= k < m ==> a[k] <= b[k],
        forall|k: int| m <= k < a.len() ==> a[k] == b[k],
    ensures
        a == b || precedes(a, b),
    decreases m,
{
    if m == 0 {
        assert(a =~= b);
    } else if a[m - 1] == b[m - 1] {
        lemma_below(a, b, m - 1);
    } else {
        assert(a[m - 1] < b[m - 1]);
    }
}

impl Forest {
    /// Handles one successor of cell `c`: agent `j` takes its move number
    /// `choice[j]` where it is free, else the step of its policy. Where the
    /// step makes agents collide, they join the collision sets of `c`, and
    /// these spread. Else the successor's collision sets spread to `c`, and
    /// where the step is the cheapest way known to the successor, it is
    /// recorded and the successor goes into the frontier.
    pub(crate) fn step(
        &mut self,
        road: &Roadmap,
        htab: &Vec<Vec<u128>>,
        policies: &Vec<Policy>,
        c: usize,
        origin: usize,
        free: &Vec<bool>,
        choice: &Vec<usize>,
        fuel: &mut usize,
        Ghost(ctx): Ghost<Ctx>,
    ) -> (r: Result<(), MapfError>)
        requires
            ctx.wf(),
            ctx.road == *road,
            ctx.h == htab.deep_view(),
            policies_exact(ctx, policies@),
            old(self).mid(ctx, policies@, c as int, Seq::<(usize, usize)>::empty()),
            c < old(self).cells(),
            origin < old(self).records@.len(),
            old(self).records@[origin as int].pos@ == old(self).pos@[c as int]@,
            free@.len() == ctx.n(),
            choice@.len() == ctx.n(),
        ensures
            final(self).mid(ctx, policies@, c as int, Seq::<(usize, usize)>::empty()),
            grows(*old(self), *final(self), ctx.n()),
            *final(fuel) <= *old(fuel),
            r.is_err() ==> r == Err::<(), MapfError>(MapfError::Timeout),
            r.is_ok() ==> final(self).covered_choice(
                ctx,
                policies@,
                c as int,
                old(self).records@[origin as int].g as int,
                free@,
                choice@,
            ),
    {
        let n = free.len();
        let ghost start = *self;
        let ghost recs = views(self.records@);
        let ghost parent = recs[origin as int];
        let ghost empty = Seq::<(usize, usize)>::empty();
        proof {
            assert(node_wf(ctx, recs, origin as int));
            assert(recs[origin as int] == self.records@[origin as int]@);
            assert(self.records@[origin as int].k == ctx.n());
        }
        let from = copy_of(&self.records[origin].pos);
        let g0 = self.records[origin].g;
        let mut to: Vec<usize> = Vec::new();
        let mut ws: Vec<usize> = Vec::new();
        let mut j: usize = 0;
        while j < n
            invariant
                0 <= j <= n,
                n == ctx.n(),
                ctx.wf(),
                ctx.road == *road,
                policies_exact(ctx, policies@),
                free@.len() == n,
                choice@.len() == n,
                from@ == parent.pos,
                moved(ctx, parent.from, parent.pos, parent.k),
                to@.len() == j,
                ws@.len() == j,
                forall|i: int| 0 <= i < j ==> step_ok(ctx, from@[i], #[trigger] to@[i], ws@[i]),
                forall|i: int|
                    0 <= i < j ==> #[trigger] to@[i] == limited_target(
                        ctx,
                        policies@[i],
                        from@[i],
                        free@[i],
                        choice@[i],
                    ),
                forall|i: int|
                    0 <= i < j ==> #[trigger] ws@[i] == limited_weight(
                        ctx,
                        policies@[i],
                        from@[i],
                        free@[i],
                        choice@[i],
                    ),
            decreases n - j,
        {
            let x = from[j];
            assert(parent.pos[j as int] < ctx.road.size());
            let mut t = x;
            let mut w: usize = 0;
            if free[j] {
                let m = choice[j];
                if m < road.adj[x].len() {
                    let (b, weight) = road.adj[x][m];
                    if b != x {
                        proof {
                            road.lemma_entry_is_arc(x as int, m as int);
                            assert(road.adj@[x as int]@[m as int].0 < road.adj@.len());
                        }
                        t = b;
                        w = weight;
                    }
                }
            } else {
                proof {
                    assert(policies@[j as int].exact(&ctx.road, ctx.goals[j as int] as int));
                    assert(policies@[j as int].step_fits(&ctx.road, ctx.goals[j as int] as int, x as int));
                }
                let b = policies[j].next[x];
                if b != x {
                    t = b;
                    w = policies[j].weight[x];
                }
            }
            to.push(t);
            ws.push(w);
            j += 1;
        }
        proof {
            assert(to@ =~= limited_to(ctx, policies@, from@, free@, choice@));
            assert(ws@ =~= limited_ws(ctx, policies@, from@, free@, choice@));
            assert(self.pos@[c as int]@ == from@);
        }
        let (psi, any) = collisions_of(&from, &to, n);
        if any {
            self.spread(c, &psi, n, fuel, Ghost(ctx), Ghost(policies@), Ghost(c as int));
            proof {
                assert(self.pos@[c as int]@ == from@);
                assert forall|i: int, j: int| 0 <= i < j < ctx.n() && #[trigger] clash(from@, to@, i, j) implies entry(
                    self.coll(c as int),
                    i,
                    j,
                ) && entry(self.coll(c as int), j, i) by {
                    assert(entry(psi@, i, j));
                    assert(clash(from@, to@, j, i));
                    assert(entry(psi@, j, i));
                }
            }
            return Ok(());
        }
        // what the step costs
        let mut cost: u128 = 0;
        let mut j: usize = 0;
        while j < n
            invariant
                0 <= j <= n,
                ws@.len() == n,
                cost == sum_over(weights_of(ws@), j as int),
                cost <= j * usize::MAX,
            decreases n - j,
        {
            assert((j + 1) * usize::MAX == j * usize::MAX + usize::MAX) by (nonlinear_arith);
            assert(j * usize::MAX + usize::MAX <= u128::MAX) by (nonlinear_arith)
                requires
                    j < usize::MAX,
                    usize::MAX <= 0xffff_ffff_ffff_ffff,
            ;
            cost = cost + ws[j] as u128;
            j += 1;
        }
        let g = match g0.checked_add(cost) {
            Some(g) => g,
            None => {
                return Err(MapfError::Timeout);
            },
        };
        proof {
            assert forall|i: int| 0 <= i < to@.len() implies (#[trigger] to@[i]) < htab@[i]@.len() by {
                assert(step_ok(ctx, from@[i], to@[i], ws@[i]));
                assert(htab.deep_view()[i] == htab@[i].deep_view());
                assert(ctx.h[i].len() == ctx.road.size());
            }
        }
        let h = estimate_at(htab, &to);
        let f = g.saturating_add(h);
        let found = self.cell_of(&to);
        match found {
            Some(w) => {
                self.note_way_back(w, c, Ghost(ctx), Ghost(policies@), Ghost(c as int));
                let mut work: Vec<(usize, usize)> = Vec::new();
                work.push((c, w));
                proof {
                    assert(work@ =~= seq![(c, w)]);
                }
                self.drain(work, n, fuel, Ghost(ctx), Ghost(policies@), Ghost(c as int));
                assert(self.best@[w as int] < self.records@.len());
                if g < self.records[self.best[w]].g {
                    let node = Node { from, pos: to, k: n, g, h, f, origin };
                    proof {
                        assert(views(self.records@) == recs);
                        lemma_step_record(ctx, recs, origin as int, node@, ws@, cost as int);
                    }
                    self.improve(w, node, Ghost(ctx), Ghost(policies@), Ghost(c as int));
                }
                proof {
                    let to_view = limited_to(ctx, policies@, from@, free@, choice@);
                    assert(self.pos@[w as int]@ == to_view);
                    assert(self.back@[w as int]@.contains(c));
                    assert(self.reached_at(c as int, to_view, g as int));
                    assert(self.pos@[c as int]@ == from@);
                }
            },
            None => {
                let node = Node { from, pos: copy_of(&to), k: n, g, h, f, origin };
                proof {
                    lemma_step_record(ctx, recs, origin as int, node@, ws@, cost as int);
                }
                let ghost to_view = to@;
                self.found(c, to, node, n, Ghost(ctx), Ghost(policies@), Ghost(c as int));
                proof {
                    assert(self.pos@[c as int]@ == start.pos@[c as int]@);
                }
            },
        }
        Ok(())
    }
}

/// Once the cell whose successors were being handled waits, no cell is
/// being handled.
pub proof fn lemma_no_current(ctx: Ctx, policies: Seq<Policy>, forest: Forest, c: int)
    requires
        forest.mid(ctx, policies, c, Seq::<(usize, usize)>::empty()),
        0 <= c < forest.cells(),
        forest.waiting@[c],
    ensures
        forest.mid(ctx, policies, -1, Seq::<(usize, usize)>::empty()),
{
    assert forall|x: int| 0 <= x < forest.cells() && !forest.settled@[x] && x != -1 implies #[trigger] forest.waiting@[x] by {
    }
}

/// What precedes the successor that follows `choice` precedes `choice` or
/// is `choice`.
pub proof fn lemma_advance(ch: Seq<usize>, choice: Seq<usize>, next: Seq<usize>, last: Seq<usize>, j: int)
    requires
        ch.len() == choice.len(),
        next.len() == choice.len(),
        last.len() == choice.len(),
        0 <= j < choice.len(),
        forall|k: int| 0 <= k < ch.len() ==> ch[k] <= last[k],
        forall|k: int| 0 <= k < j ==> choice[k] == last[k] && next[k] == 0,
        next[j] == choice[j] + 1,
        forall|k: int| j < k < choice.len() ==> next[k] == choice[k],
        precedes(ch, next),
    ensures
        ch == choice || precedes(ch, choice),
{
    let i = choose|i: int| 0 <= i < ch.len() && #[trigger] ch[i] < next[i] && forall|k: int| i < k < ch.len() ==> ch[k] == next[k];
    if i == j {
        lemma_below(ch, choice, j + 1);
    } else {
        assert(i > j);
        assert(ch[i] < choice[i]);
    }
}

impl Forest {
    /// Handles every successor of cell `c`: the agents that must be planned
    /// together with another try all their moves, in all combinations; the
    /// others follow their policies. Each successor spends one unit of
    /// fuel. In the end the cell is settled, unless its cost or its
    /// collision sets have changed meanwhile.
    pub(crate) fn grow(
        &mut self,
        road: &Roadmap,
        htab: &Vec<Vec<u128>>,
        policies: &Vec<Policy>,
        c: usize,
        fuel: &mut usize,
        Ghost(ctx): Ghost<Ctx>,
    ) -> (r: Result<(), MapfError>)
        requires
            ctx.wf(),
            ctx.road == *road,
            ctx.h == htab.deep_view(),
            policies_exact(ctx, policies@),
            old(self).mid(ctx, policies@, c as int, Seq::<(usize, usize)>::empty()),
            c < old(self).cells(),
            old(self).pos@[c as int]@ != ctx.goals,
        ensures
            final(self).mid(ctx, policies@, -1, Seq::<(usize, usize)>::empty()),
            *final(fuel) <= *old(fuel),
            r.is_err() ==> r == Err::<(), MapfError>(MapfError::Timeout),
    {
        let n = policies.len();
        let origin = self.best[c];
        let ghost start = *self;
        let ghost empty = Seq::<(usize, usize)>::empty();
        let ghost from = self.pos@[c as int]@;
        let ghost g0 = self.records@[origin as int].g as int;
        proof {
            assert(node_wf(ctx, views(self.records@), origin as int));
            assert(views(self.records@)[origin as int] == self.records@[origin as int]@);
        }
        let mut free: Vec<bool> = Vec::new();
        let mut last: Vec<usize> = Vec::new();
        let mut choice: Vec<usize> = Vec::new();
        let mut j: usize = 0;
        while j < n
            invariant
                0 <= j <= n,
                n == ctx.n(),
                ctx.road == *road,
                *self == start,
                self.inv(ctx),
                c < self.cells(),
                origin == self.best@[c as int],
                from == self.pos@[c as int]@,
                from.len() == n,
                moved(
                    ctx,
                    self.records@[origin as int]@.from,
                    self.records@[origin as int]@.pos,
                    self.records@[origin as int]@.k,
                ),
                free@.len() == j,
                last@.len() == j,
                choice@.len() == j,
                forall|i: int| 0 <= i < j ==> #[trigger] choice@[i] == 0,
                forall|i: int| 0 <= i < j ==> #[trigger] free@[i] == row_set(self.coll(c as int), i),
                forall|i: int|
                    0 <= i < j ==> #[trigger] last@[i] == (if free@[i] {
                        degree(ctx, from[i] as int)
                    } else {
                        0
                    }),
            decreases n - j,
        {
            assert(square(self.collision@[c as int]@, n as int));
            let x = self.records[origin].pos[j];
            assert(self.records@[origin as int]@.pos[j as int] < ctx.road.size());
            if involved(&self.collision[c], j, n) {
                free.push(true);
                last.push(road.adj[x].len());
            } else {
                free.push(false);
                last.push(0);
            }
            choice.push(0);
            j += 1;
        }
        let mut finished = false;
        while !finished
            invariant
                ctx.wf(),
                ctx.road == *road,
                ctx.h == htab.deep_view(),
                policies_exact(ctx, policies@),
                n == ctx.n(),
                empty == Seq::<(usize, usize)>::empty(),
                self.mid(ctx, policies@, c as int, empty),
                grows(start, *self, ctx.n()),
                c < start.cells(),
                origin < start.records@.len(),
                from == start.pos@[c as int]@,
                from.len() == n,
                from != ctx.goals,
                start.records@[origin as int].pos@ == from,
                g0 == start.records@[origin as int].g,
                free@.len() == n,
                last@.len() == n,
                choice@.len() == n,
                forall|i: int| 0 <= i < n ==> #[trigger] choice@[i] <= last@[i],
                forall|i: int|
                    0 <= i < n ==> #[trigger] last@[i] == (if free@[i] {
                        degree(ctx, from[i] as int)
                    } else {
                        0
                    }),
                forall|ch: Seq<usize>|
                    bounded(ctx, from, free@, ch) && (finished || precedes(ch, choice@)) ==> #[trigger] self.covered_choice(
                        ctx,
                        policies@,
                        c as int,
                        g0,
                        free@,
                        ch,
                    ),
                *fuel <= *old(fuel),
            decreases *fuel,
        {
            if *fuel == 0 {
                self.reopen(c, Ghost(ctx), Ghost(policies@), Ghost(c as int), Ghost(empty));
                proof {
                    lemma_no_current(ctx, policies@, *self, c as int);
                }
                return Err(MapfError::Timeout);
            }
            *fuel = *fuel - 1;
            let ghost before = *self;
            proof {
                assert(self.records@[origin as int] == start.records@[origin as int]);
                assert(self.pos@[c as int]@ == from);
            }
            match self.step(road, htab, policies, c, origin, &free, &choice, fuel, Ghost(ctx)) {
                Ok(()) => {},
                Err(e) => {
                    self.reopen(c, Ghost(ctx), Ghost(policies@), Ghost(c as int), Ghost(empty));
                    proof {
                        lemma_no_current(ctx, policies@, *self, c as int);
                    }
                    return Err(e);
                },
            }
            let ghost done = choice@;
            proof {
                assert(before.records@[origin as int] == start.records@[origin as int]);
                assert forall|ch: Seq<usize>|
                    bounded(ctx, from, free@, ch) && (precedes(ch, done) || ch == done) implies #[trigger] self.covered_choice(
                    ctx,
                    policies@,
                    c as int,
                    g0,
                    free@,
                    ch,
                ) by {
                    if ch != done {
                        assert(before.covered_choice(ctx, policies@, c as int, g0, free@, ch));
                        lemma_choice_stable(ctx, policies@, before, *self, c as int, g0, free@, ch);
                    }
                }
            }
            let mut j: usize = 0;
            while j < n && choice[j] == last[j]
                invariant
                    0 <= j <= n,
                    last@.len() == n,
                    choice@.len() == n,
                    done.len() == n,
                    forall|i: int| 0 <= i < j ==> #[trigger] done[i] == last@[i],
                    forall|i: int| 0 <= i < j ==> #[trigger] choice@[i] == 0,
                    forall|i: int| j <= i < n ==> #[trigger] choice@[i] == done[i],
                decreases n - j,
            {
                let ghost mid_choice = choice@;
                assert(mid_choice[j as int] == done[j as int]);
                choice.set(j, 0);
                proof {
                    assert forall|i: int| 0 <= i < j + 1 implies #[trigger] choice@[i] == 0 by {
                        if i < j {
                            assert(mid_choice[i] == 0);
                        }
                    }
                    assert forall|i: int| j + 1 <= i < n implies #[trigger] choice@[i] == done[i] by {
                        assert(mid_choice[i] == done[i]);
                    }
                }
                j += 1;
            }
            if j == n {
                proof {
                    assert forall|ch: Seq<usize>| bounded(ctx, from, free@, ch) implies #[trigger] self.covered_choice(
                        ctx,
                        policies@,
                        c as int,
                        g0,
                        free@,
                        ch,
                    ) by {
                        assert forall|k: int| 0 <= k < n implies ch[k] <= done[k] by {
                            assert(ch[k] <= last@[k]);
                            assert(done[k] == last@[k]);
                        }
                        lemma_below(ch, done, n as int);
                    }
                    assert forall|i: int| 0 <= i < n implies #[trigger] choice@[i] <= last@[i] by {
                        assert(choice@[i] == 0);
                    }
                }
                finished = true;
            } else {
                let ghost mid_choice = choice@;
                assert(mid_choice[j as int] == done[j as int]);
                assert(done[j as int] <= last@[j as int]);
                let bumped = choice[j] + 1;
                choice.set(j, bumped);
                proof {
                    assert forall|i: int| 0 <= i < n implies #[trigger] choice@[i] <= last@[i] by {
                        if i < j {
                            assert(mid_choice[i] == 0);
                        } else if i > j {
                            assert(mid_choice[i] == done[i]);
                            assert(done[i] <= last@[i]);
                        }
                    }
                    assert forall|ch: Seq<usize>|
                        bounded(ctx, from, free@, ch) && precedes(ch, choice@) implies #[trigger] self.covered_choice(
                        ctx,
                        policies@,
                        c as int,
                        g0,
                        free@,
                        ch,
                    ) by {
                        assert forall|k: int| 0 <= k < ch.len() implies ch[k] <= last@[k] by {
                            assert(ch[k] <= last@[k]);
                        }
                        assert forall|k: int| 0 <= k < j implies done[k] == last@[k] && choice@[k] == 0 by {
                            assert(mid_choice[k] == 0);
                        }
                        assert forall|k: int| j < k < n implies choice@[k] == done[k] by {
                            assert(mid_choice[k] == done[k]);
                        }
                        lemma_advance(ch, done, choice@, last@, j as int);
                    }
                }
            }
        }
        // settle the cell, if it still is what it was
        let mut same_flags = self.best[c] == origin;
        let mut j: usize = 0;
        while j < n
            invariant
                0 <= j <= n,
                n == ctx.n(),
                self.inv(ctx),
                c < self.cells(),
                free@.len() == n,
                same_flags ==> self.best@[c as int] == origin,
                same_flags ==> forall|i: int| 0 <= i < j ==> #[trigger] free@[i] == row_set(self.coll(c as int), i),
            decreases n - j,
        {
            assert(square(self.collision@[c as int]@, n as int));
            if involved(&self.collision[c], j, n) != free[j] {
                same_flags = false;
            }
            j += 1;
        }
        if same_flags {
            let ghost before = *self;
            self.settled.set(c, true);
            proof {
                assert(grows(before, *self, ctx.n()));
                assert(self.coll(c as int).len() == n);
                assert(self.free_flags(c as int) =~= free@);
                assert(self.records@[origin as int] == start.records@[origin as int]);
                assert(self.pos@[c as int]@ == from);
                assert(self.g_of(c as int) == g0);
                assert forall|ch: Seq<usize>|
                    bounded(ctx, self.pos@[c as int]@, self.free_flags(c as int), ch) implies #[trigger] self.covered_choice(
                    ctx,
                    policies@,
                    c as int,
                    self.g_of(c as int),
                    self.free_flags(c as int),
                    ch,
                ) by {
                    assert(before.covered_choice(ctx, policies@, c as int, g0, free@, ch));
                    lemma_choice_stable(ctx, policies@, before, *self, c as int, g0, free@, ch);
                }
                assert(self.coverage(ctx, policies@, c as int));
                assert forall|x: int| 0 <= x < self.cells() && #[trigger] self.settled@[x] implies x != -1 && self.pos@[x]@
                    != ctx.goals && self.coverage(ctx, policies@, x) by {
                    if x != c {
                        assert(before.settled@[x]);
                        lemma_coverage_stable(ctx, policies@, before, *self, x);
                    }
                }
                if !self.broken {
                    assert forall|x: usize, k: int| x < self.cells() && 0 <= k < self.back@[x as int]@.len() implies within(
                        self.coll(x as int),
                        self.coll(#[trigger] self.back@[x as int]@[k] as int),
                        ctx.n(),
                    ) || empty.contains((self.back@[x as int]@[k], x)) by {
                        assert(within(
                            before.coll(x as int),
                            before.coll(before.back@[x as int]@[k] as int),
                            ctx.n(),
                        ) || empty.contains((before.back@[x as int]@[k], x)));
                    }
                }
            }
        } else {
            self.reopen(c, Ghost(ctx), Ghost(policies@), Ghost(c as int), Ghost(empty));
            proof {
                lemma_no_current(ctx, policies@, *self, c as int);
            }
        }
        Ok(())
    }
}

} // verus!
