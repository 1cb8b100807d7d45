//! Why subdimensional expansion misses no cheaper solution.
//!
//! Walk along any solution, one timestep at a time, but let every agent
//! that is not free at the cell reached follow its policy instead. The
//! walk costs no more than the solution, because a policy is a cheapest
//! way. Where the walk made agents collide, the cell's collision sets would
//! hold them, so they would be free and on the solution, which does not
//! collide. So the walk goes from settled cell to settled cell until every
//! agent stands on its goal, unless it meets a cell that is not settled.

use vstd::prelude::*;
use crate::mapf::bound::tables_admissible;
use crate::mapf::graph_specs::lists_pair;
use crate::mapf::joint_search::{
    clash, degree, h_terms, move_target, move_weight, node_wf, views, Ctx,
};
use crate::mapf::forest::{
    bounded, entry, limited_target, limited_to, limited_weight, limited_ws, policies_exact, row_set, weights_of,
    within, Forest,
};
use crate::mapf::plan::{
    at, collide, cost_upto, horizon, is_route, is_solution, lemma_horizon, lemma_legal_step_cost,
    lemma_route_steps, lemma_total_is_sum, route_cost, route_costs, step_cost, total_cost,
};
use crate::mapf::policy::Policy;
use crate::mapf::sums::{lemma_sum_add, lemma_sum_le, plus, sum_over};

verus! {

/// What agent `j` has spent, as a function of `j`.
pub open spec fn spent_of(spent: Seq<int>) -> spec_fn(int) -> int {
    |j: int| spent[j]
}

/// What agent `j` has before it when it follows its policy, as a function
/// of `j`.
pub open spec fn ahead_of(policies: Seq<Policy>, pos: Seq<usize>) -> spec_fn(int) -> int {
    |j: int| policies[j].dist@[pos[j] as int] as int
}

/// Whether agent `j` is where the solution has it at time `t`, and has
/// spent what the solution has spent.
pub open spec fn on_plan(ctx: Ctx, q: Seq<Seq<usize>>, t: int, pos: Seq<usize>, spent: Seq<int>, j: int) -> bool {
    pos[j] == at(q[j], t) && spent[j] == cost_upto(ctx.arcs(), q[j], t)
}

/// The time by which the walk along solution `q` has every agent on its
/// goal.
pub open spec fn walk_end(ctx: Ctx, q: Seq<Seq<usize>>) -> int {
    horizon(q) + ctx.road.size()
}

/// What holds of agent `j` when the walk along solution `q` is at cell
/// `c` at time `t`.
pub open spec fn agent_ok(
    ctx: Ctx,
    policies: Seq<Policy>,
    forest: Forest,
    q: Seq<Seq<usize>>,
    t: int,
    c: int,
    spent: Seq<int>,
    j: int,
) -> bool {
    let x = forest.pos@[c]@[j] as int;
    &&& row_set(forest.coll(c), j) ==> on_plan(ctx, q, t, forest.pos@[c]@, spent, j)
    &&& policies[j].leads(x)
    &&& 0 <= spent[j]
    &&& spent[j] + policies[j].dist@[x] <= route_cost(ctx.arcs(), q[j])
    &&& !on_plan(ctx, q, t, forest.pos@[c]@, spent, j) ==> policies[j].hops@[x] == 0 || policies[j].hops@[x] + t
        <= walk_end(ctx, q)
}

/// Whether the walk along solution `q` is at cell `c` at time `t`, the
/// agents having spent `spent`.
pub open spec fn walks(
    ctx: Ctx,
    policies: Seq<Policy>,
    forest: Forest,
    q: Seq<Seq<usize>>,
    t: int,
    c: int,
    spent: Seq<int>,
) -> bool {
    &&& 0 <= c < forest.cells()
    &&& spent.len() == ctx.n()
    &&& forest.g_of(c) <= sum_over(spent_of(spent), ctx.n())
    &&& forall|j: int| 0 <= j < ctx.n() ==> #[trigger] agent_ok(ctx, policies, forest, q, t, c, spent, j)
}

/// Whether the walk along solution `q` is at a settled cell at time `t`.
pub open spec fn walking(ctx: Ctx, policies: Seq<Policy>, forest: Forest, q: Seq<Seq<usize>>, t: int) -> bool {
    exists|c: int, spent: Seq<int>| #[trigger]
        walks(ctx, policies, forest, q, t, c, spent) && 0 <= c < forest.cells() && forest.settled@[c]
}

/// Whether a cell is not settled whose priority, if the estimates are
/// admissible, is no more than the cost of solution `q`.
pub open spec fn stuck(ctx: Ctx, forest: Forest, q: Seq<Seq<usize>>) -> bool {
    exists|v: int|
        0 <= v < forest.cells() && !#[trigger] forest.settled@[v] && (tables_admissible(ctx) ==> forest.f_of(v)
            <= total_cost(ctx.arcs(), q))
}

/// What the search is sure of when no collision set is left to hand on.
pub open spec fn sure(ctx: Ctx, policies: Seq<Policy>, forest: Forest) -> bool {
    &&& ctx.wf()
    &&& policies_exact(ctx, policies)
    &&& forest.mid(ctx, policies, -1, Seq::<(usize, usize)>::empty())
    &&& !forest.broken
}

/// Where the walk is at a cell, the cell is settled or the search is
/// stuck.
proof fn lemma_arrive(
    ctx: Ctx,
    policies: Seq<Policy>,
    forest: Forest,
    q: Seq<Seq<usize>>,
    t: int,
    c: int,
    spent: Seq<int>,
)
    requires
        sure(ctx, policies, forest),
        is_solution(ctx.arcs(), ctx.starts, ctx.goals, q),
        walks(ctx, policies, forest, q, t, c, spent),
    ensures
        walking(ctx, policies, forest, q, t) || stuck(ctx, forest, q),
{
    if !forest.settled@[c] {
        if tables_admissible(ctx) {
            let arcs = ctx.arcs();
            let n = ctx.n();
            let pos = forest.pos@[c]@;
            let record = forest.records@[forest.best@[c] as int]@;
            assert(node_wf(ctx, views(forest.records@), forest.best@[c] as int));
            assert(views(forest.records@)[forest.best@[c] as int] == record);
            assert(record.pos == pos);
            let hs = h_terms(ctx.h, pos);
            let ahead = ahead_of(policies, pos);
            let paid = spent_of(spent);
            let both = plus(paid, ahead);
            let whole = route_costs(arcs, q);
            assert forall|j: int| 0 <= j < n implies #[trigger] hs(j) <= ahead(j) by {
                assert(agent_ok(ctx, policies, forest, q, t, c, spent, j));
                assert(policies[j].exact(&ctx.road, ctx.goals[j] as int));
                policies[j].lemma_estimate_below(&ctx.road, ctx.goals[j], ctx.h[j], pos[j]);
            }
            assert forall|j: int| 0 <= j < n implies #[trigger] both(j) <= whole(j) by {
                assert(agent_ok(ctx, policies, forest, q, t, c, spent, j));
            }
            lemma_sum_le(hs, ahead, n);
            lemma_sum_add(paid, ahead, both, n);
            lemma_sum_le(both, whole, n);
            lemma_total_is_sum(arcs, q);
            assert(pos.len() == n);
        }
        assert(stuck(ctx, forest, q));
    }
}

/// The move that a free agent takes to follow the solution: an arc of
/// least weight to where the solution has it next, or waiting.
pub open spec fn plan_move(ctx: Ctx, x: int, y: int) -> usize {
    if x == y {
        degree(ctx, x) as usize
    } else {
        choose|m: usize|
            m < ctx.road.adj@[x]@.len() && (#[trigger] ctx.road.adj@[x]@[m as int]).0 == y && ctx.road.adj@[x]@[m as int].1
                == step_cost(ctx.arcs(), x, y)
    }
}

/// The moves that take the agents along the solution where they are free.
pub open spec fn plan_choice(ctx: Ctx, q: Seq<Seq<usize>>, t: int, free: Seq<bool>) -> Seq<usize> {
    Seq::new(
        q.len(),
        |j: int|
            if free[j] {
                plan_move(ctx, at(q[j], t), at(q[j], t + 1))
            } else {
                0
            },
    )
}

/// The move of a free agent along the solution leads where the solution
/// leads, at the cost of that step.
proof fn lemma_plan_move(ctx: Ctx, policy: Policy, q: Seq<usize>, goal: int, t: int)
    requires
        ctx.road.wf(),
        is_route(ctx.arcs(), q, q[0] as int, goal),
        q[0] < ctx.road.size(),
        ctx.road.size() <= usize::MAX,
        0 <= t,
    ensures
        plan_move(ctx, at(q, t), at(q, t + 1)) <= degree(ctx, at(q, t)),
        limited_target(ctx, policy, at(q, t) as usize, true, plan_move(ctx, at(q, t), at(q, t + 1))) == at(q, t + 1),
        limited_weight(ctx, policy, at(q, t) as usize, true, plan_move(ctx, at(q, t), at(q, t + 1))) == step_cost(
            ctx.arcs(),
            at(q, t),
            at(q, t + 1),
        ),
{
    let arcs = ctx.arcs();
    let x = at(q, t);
    let y = at(q, t + 1);
    ctx.road.lemma_arcs_within();
    crate::mapf::plan::lemma_route_within(arcs, ctx.road.size(), q, t);
    crate::mapf::plan::lemma_route_within(arcs, ctx.road.size(), q, t + 1);
    lemma_route_steps(arcs, q, t);
    lemma_legal_step_cost(arcs, ctx.road.size(), x, y);
    if x != y {
        let cost = step_cost(arcs, x, y);
        assert(ctx.road.has_arc(x, y, cost));
        assert(lists_pair(ctx.road.adj@[x]@, y, cost));
        let k = choose|k: int|
            0 <= k < ctx.road.adj@[x]@.len() && (#[trigger] ctx.road.adj@[x]@[k]).0 == y && ctx.road.adj@[x]@[k].1
                == cost;
        let m0 = k as usize;
        assert(m0 < ctx.road.adj@[x]@.len() && ctx.road.adj@[x]@[m0 as int].0 == y && ctx.road.adj@[x]@[m0 as int].1
            == cost);
        let m = plan_move(ctx, x, y);
        assert(m < ctx.road.adj@[x]@.len() && ctx.road.adj@[x]@[m as int].0 == y && ctx.road.adj@[x]@[m as int].1
            == cost);
        assert(move_target(ctx, x, m as int) == y);
        assert(move_weight(ctx, x, m as int) == cost);
    } else {
        assert(move_target(ctx, x, degree(ctx, x)) == x);
    }
}

/// One timestep of the walk: from a settled cell the walk comes to a cell,
/// settled or not.
proof fn lemma_walk_on(
    ctx: Ctx,
    policies: Seq<Policy>,
    forest: Forest,
    q: Seq<Seq<usize>>,
    t: int,
    c: int,
    spent: Seq<int>,
)
    requires
        sure(ctx, policies, forest),
        is_solution(ctx.arcs(), ctx.starts, ctx.goals, q),
        0 <= t,
        walks(ctx, policies, forest, q, t, c, spent),
        forest.settled@[c],
    ensures
        walking(ctx, policies, forest, q, t + 1) || stuck(ctx, forest, q),
{
    let arcs = ctx.arcs();
    let n = ctx.n();
    let from = forest.pos@[c]@;
    let free = forest.free_flags(c);
    let choice = plan_choice(ctx, q, t, free);
    let to = limited_to(ctx, policies, from, free, choice);
    let ws = limited_ws(ctx, policies, from, free, choice);
    let record = forest.records@[forest.best@[c] as int]@;
    assert(node_wf(ctx, views(forest.records@), forest.best@[c] as int));
    assert(views(forest.records@)[forest.best@[c] as int] == record);
    assert(from.len() == n);
    assert(forest.coll(c).len() == n);
    lemma_horizon(q);
    // what every agent does
    assert forall|j: int| 0 <= j < n implies #[trigger] choice[j] <= (if free[j] {
        degree(ctx, from[j] as int)
    } else {
        0
    }) && (free[j] ==> to[j] == at(q[j], t + 1) && ws[j] == step_cost(arcs, at(q[j], t), at(q[j], t + 1)) && from[j]
        == at(q[j], t)) by {
        assert(agent_ok(ctx, policies, forest, q, t, c, spent, j));
        assert(is_route(arcs, q[j], ctx.starts[j] as int, ctx.goals[j] as int));
        if free[j] {
            assert(row_set(forest.coll(c), j));
            lemma_plan_move(ctx, policies[j], q[j], ctx.goals[j] as int, t);
        }
    }
    assert(bounded(ctx, from, free, choice));
    assert(forest.coverage(ctx, policies, c));
    assert(forest.covered_choice(ctx, policies, c, forest.g_of(c), free, choice));
    // no two agents collide
    assert forall|i: int, j: int| 0 <= i < j < n implies !#[trigger] clash(from, to, i, j) by {
        if clash(from, to, i, j) {
            assert(entry(forest.coll(c), i, j) && entry(forest.coll(c), j, i));
            assert(row_set(forest.coll(c), i));
            assert(row_set(forest.coll(c), j));
            assert(free[i] && free[j]);
            assert(choice[i] <= 0 || free[i]);
            assert(choice[j] <= 0 || free[j]);
            assert(!collide(q[i], q[j], t));
            assert(!collide(q[i], q[j], t + 1));
        }
    }
    let bound = forest.g_of(c) + sum_over(weights_of(ws), n);
    assert(forest.reached_at(c, to, bound));
    let w = choose|w: int|
        0 <= w < forest.cells() && (#[trigger] forest.pos@[w])@ == to && forest.g_of(w) <= bound && forest.back@[w]@.contains(
            c as usize,
        );
    let k = choose|k: int| 0 <= k < forest.back@[w]@.len() && forest.back@[w]@[k] == c as usize;
    assert(forest.handed_back(n, Seq::<(usize, usize)>::empty()));
    let wu = w as usize;
    assert(within(forest.coll(wu as int), forest.coll(forest.back@[wu as int]@[k] as int), n) || Seq::<
        (usize, usize),
    >::empty().contains((forest.back@[wu as int]@[k], wu)));
    assert(within(forest.coll(w), forest.coll(c), n));
    let later = Seq::new(n as nat, |j: int| spent[j] + ws[j]);
    let paid = spent_of(spent);
    let steps = weights_of(ws);
    let total = spent_of(later);
    assert forall|j: int| 0 <= j < n implies #[trigger] total(j) == paid(j) + steps(j) by {
    }
    lemma_sum_add(paid, steps, total, n);
    assert forall|j: int| 0 <= j < n implies #[trigger] agent_ok(ctx, policies, forest, q, t + 1, w, later, j) by {
        assert(agent_ok(ctx, policies, forest, q, t, c, spent, j));
        assert(is_route(arcs, q[j], ctx.starts[j] as int, ctx.goals[j] as int));
        let policy = policies[j];
        let goal = ctx.goals[j] as int;
        assert(policy.exact(&ctx.road, goal));
        let x = from[j] as int;
        assert(choice[j] <= 0 || free[j]);
        if row_set(forest.coll(w), j) {
            let e = choose|e: int| 0 <= e < forest.coll(w)[j]@.len() && #[trigger] entry(forest.coll(w), j, e);
            assert(forest.coll(w).len() == n);
            assert(entry(forest.coll(c), j, e));
            assert(row_set(forest.coll(c), j));
        }
        if free[j] {
            policy.lemma_no_dearer(&ctx.road, goal, q[j], t + 1);
            assert(on_plan(ctx, q, t + 1, to, later, j));
        } else {
            assert(policy.step_fits(&ctx.road, goal, x));
            assert(to[j] == policy.next@[x]);
            assert(ws[j] == policy.weight@[x]);
            let y = to[j] as int;
            assert(policy.step_fits(&ctx.road, goal, y));
            if x != goal {
                if on_plan(ctx, q, t, from, spent, j) {
                    // the solution is not at its end yet
                    assert(t < q[j].len() - 1);
                    assert(q[j].len() <= horizon(q));
                }
            }
        }
    }
    assert(walks(ctx, policies, forest, q, t + 1, w, later));
    lemma_arrive(ctx, policies, forest, q, t + 1, w, later);
}

/// At every time the walk is at a settled cell, or the search is stuck.
pub proof fn lemma_walk(ctx: Ctx, policies: Seq<Policy>, forest: Forest, q: Seq<Seq<usize>>, t: int)
    requires
        sure(ctx, policies, forest),
        is_solution(ctx.arcs(), ctx.starts, ctx.goals, q),
        0 <= t,
    ensures
        walking(ctx, policies, forest, q, t) || stuck(ctx, forest, q),
    decreases t,
{
    let arcs = ctx.arcs();
    let n = ctx.n();
    if t == 0 {
        let spent = Seq::new(n as nat, |j: int| 0int);
        let pos = forest.pos@[0]@;
        let paid = spent_of(spent);
        assert forall|j: int| 0 <= j < n implies 0 <= #[trigger] paid(j) && paid(j) <= 0 by {
        }
        crate::mapf::sums::lemma_sum_nonnegative(paid, n);
        assert forall|j: int| 0 <= j < n implies #[trigger] agent_ok(ctx, policies, forest, q, 0, 0, spent, j) by {
            assert(is_route(arcs, q[j], ctx.starts[j] as int, ctx.goals[j] as int));
            assert(policies[j].exact(&ctx.road, ctx.goals[j] as int));
            policies[j].lemma_no_dearer(&ctx.road, ctx.goals[j] as int, q[j], 0);
            assert(on_plan(ctx, q, 0, pos, spent, j));
        }
        assert(walks(ctx, policies, forest, q, 0, 0, spent));
        lemma_arrive(ctx, policies, forest, q, 0, 0, spent);
    } else {
        lemma_walk(ctx, policies, forest, q, t - 1);
        if !stuck(ctx, forest, q) {
            let (c, spent) = choose|c: int, spent: Seq<int>| #[trigger]
                walks(ctx, policies, forest, q, t - 1, c, spent) && 0 <= c < forest.cells() && forest.settled@[c];
            lemma_walk_on(ctx, policies, forest, q, t - 1, c, spent);
        }
    }
}

/// While the search is sure, it is stuck at a cell that is not settled,
/// whatever the solution.
pub proof fn lemma_stuck(ctx: Ctx, policies: Seq<Policy>, forest: Forest, q: Seq<Seq<usize>>)
    requires
        sure(ctx, policies, forest),
        is_solution(ctx.arcs(), ctx.starts, ctx.goals, q),
    ensures
        stuck(ctx, forest, q),
{
    let arcs = ctx.arcs();
    let n = ctx.n();
    let end = walk_end(ctx, q);
    lemma_horizon(q);
    lemma_walk(ctx, policies, forest, q, end);
    if !stuck(ctx, forest, q) {
        let (c, spent) = choose|c: int, spent: Seq<int>| #[trigger]
            walks(ctx, policies, forest, q, end, c, spent) && 0 <= c < forest.cells() && forest.settled@[c];
        let pos = forest.pos@[c]@;
        let record = forest.records@[forest.best@[c] as int]@;
        assert(node_wf(ctx, views(forest.records@), forest.best@[c] as int));
        assert(views(forest.records@)[forest.best@[c] as int] == record);
        assert forall|j: int| 0 <= j < n implies pos[j] == ctx.goals[j] by {
            assert(agent_ok(ctx, policies, forest, q, end, c, spent, j));
            assert(is_route(arcs, q[j], ctx.starts[j] as int, ctx.goals[j] as int));
            assert(q[j].len() <= horizon(q));
            let policy = policies[j];
            assert(policy.exact(&ctx.road, ctx.goals[j] as int));
            assert(policy.step_fits(&ctx.road, ctx.goals[j] as int, pos[j] as int));
        }
        assert(pos =~= ctx.goals);
    }
}

} // verus!
