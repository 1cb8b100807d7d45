//! Why the first goal node that leaves the frontier is cheapest, and why an
//! empty frontier means that the problem has no solution.
//!
//! Both follow one argument: walk along any solution, one decision at a
//! time. As long as the node for the state reached so far was expanded, the
//! arena holds a node for the next state at no more than the solution's
//! cost so far. So either the walk ends in an expanded goal node, or it
//! meets a node that still waits in the frontier.

use vstd::prelude::*;
use crate::mapf::graph_specs::lists_pair;
use crate::mapf::joint_search::{
    agent_of, allowed, base_of, blocks, covered, degree, expanded, h_terms, has_live, is_goal, joint_h,
    matches_state, move_target, move_weight, moves_of, node_ok, search_inv, Ctx, NodeView,
};
use crate::mapf::plan::{
    admissible, at, collide, cost_upto, horizon, is_route, is_solution, lemma_horizon,
    lemma_legal_step_cost, lemma_route_split, lemma_route_steps, lemma_route_within, lemma_total_is_sum,
    route_cost, route_costs, route_from, step_cost, total_cost,
};
use crate::mapf::sums::{lemma_sum_add, lemma_sum_change, lemma_sum_le, plus, sum_over};

verus! {

/// Whether every agent's table of estimates is admissible.
pub open spec fn tables_admissible(ctx: Ctx) -> bool {
    forall|j: int| 0 <= j < ctx.n() ==> admissible(ctx.arcs(), #[trigger] ctx.h[j], ctx.goals[j] as int)
}

/// The time that agent `j` has reached when the first `k` agents have
/// decided in the timestep that leads to time `t`.
pub open spec fn time_of(t: int, k: int, j: int) -> int {
    if j < k {
        t
    } else {
        t - 1
    }
}

/// Where the agents of solution `q` are at those times.
pub open spec fn mixed_at(q: Seq<Seq<usize>>, t: int, k: int) -> Seq<usize> {
    Seq::new(q.len(), |j: int| at(q[j], time_of(t, k, j)) as usize)
}

/// What agent `j` has spent by its time, as a function of `j`.
pub open spec fn mixed_costs(arcs: Set<(int, int, int)>, q: Seq<Seq<usize>>, t: int, k: int) -> spec_fn(int) -> int {
    |j: int| cost_upto(arcs, q[j], time_of(t, k, j))
}

/// What the agents have spent by those times.
pub open spec fn spent(arcs: Set<(int, int, int)>, q: Seq<Seq<usize>>, t: int, k: int) -> int {
    sum_over(mixed_costs(arcs, q, t, k), q.len() as int)
}

/// Whether (`t`, `k`) names a state along a solution: the start, or `k`
/// decisions into the timestep that leads to time `t`.
pub open spec fn is_stage(ctx: Ctx, t: int, k: int) -> bool {
    (t == 0 && k == ctx.n()) || (t >= 1 && 1 <= k <= ctx.n())
}

/// Whether an expanded node stands for stage (`t`, `k`) of solution `q` at
/// no more than what `q` has spent by then.
pub open spec fn reached(ctx: Ctx, nodes: Seq<NodeView>, status: Seq<u8>, q: Seq<Seq<usize>>, t: int, k: int) -> bool {
    exists|v: int|
        0 <= v < nodes.len() && status[v] == 1 && #[trigger] matches_state(
            ctx.n(),
            nodes[v],
            mixed_at(q, t, 0),
            mixed_at(q, t, k),
            k,
        ) && nodes[v].g <= spent(ctx.arcs(), q, t, k)
}

/// Whether a node waits in the frontier whose priority, if the estimates
/// are admissible, is no more than the cost of solution `q`.
pub open spec fn open_below(ctx: Ctx, nodes: Seq<NodeView>, status: Seq<u8>, q: Seq<Seq<usize>>) -> bool {
    exists|v: int|
        0 <= v < nodes.len() && #[trigger] status[v] == 0 && (tables_admissible(ctx) ==> nodes[v].f <= total_cost(
            ctx.arcs(),
            q,
        ))
}

/// With admissible estimates, what a solution has spent at a stage and the
/// estimate at that stage do not exceed the solution's cost.
pub proof fn lemma_admissible_sum(ctx: Ctx, q: Seq<Seq<usize>>, t: int, k: int)
    requires
        ctx.wf(),
        is_solution(ctx.arcs(), ctx.starts, ctx.goals, q),
        tables_admissible(ctx),
        is_stage(ctx, t, k),
    ensures
        spent(ctx.arcs(), q, t, k) + joint_h(ctx.h, mixed_at(q, t, k)) <= total_cost(ctx.arcs(), q),
{
    let arcs = ctx.arcs();
    let n = ctx.n();
    let costs = mixed_costs(arcs, q, t, k);
    let hs = h_terms(ctx.h, mixed_at(q, t, k));
    let both = plus(costs, hs);
    let whole = route_costs(arcs, q);
    ctx.road.lemma_arcs_within();
    assert forall|j: int| 0 <= j < n implies #[trigger] both(j) <= whole(j) by {
        let tau = time_of(t, k, j);
        let p = q[j];
        assert(is_route(arcs, p, ctx.starts[j] as int, ctx.goals[j] as int));
        lemma_route_split(arcs, p, ctx.goals[j] as int, tau);
        lemma_route_within(arcs, ctx.road.size(), p, tau);
        let rest = route_from(p, tau);
        assert(rest[0] == at(p, tau));
        assert(admissible(arcs, ctx.h[j], ctx.goals[j] as int));
        assert(is_route(arcs, rest, rest[0] as int, ctx.goals[j] as int));
        assert(ctx.h[j].len() == ctx.road.size());
        assert(ctx.h[j][rest[0] as int] <= route_cost(arcs, rest));
        assert(mixed_at(q, t, k)[j] == at(p, tau) as usize);
    }
    lemma_sum_add(costs, hs, both, n);
    lemma_sum_le(both, whole, n);
    lemma_total_is_sum(arcs, q);
}

/// A node that was not dropped and stands for a stage of a solution, at no
/// more than what the solution has spent, was expanded or waits.
proof fn lemma_settle(ctx: Ctx, nodes: Seq<NodeView>, status: Seq<u8>, q: Seq<Seq<usize>>, t: int, k: int, w: int)
    requires
        ctx.wf(),
        search_inv(ctx, nodes, status),
        is_solution(ctx.arcs(), ctx.starts, ctx.goals, q),
        is_stage(ctx, t, k),
        0 <= w < nodes.len(),
        status[w] != 2,
        matches_state(ctx.n(), nodes[w], mixed_at(q, t, 0), mixed_at(q, t, k), k),
        nodes[w].g <= spent(ctx.arcs(), q, t, k),
    ensures
        reached(ctx, nodes, status, q, t, k) || open_below(ctx, nodes, status, q),
{
    if status[w] != 1 {
        assert(status[w] == 0);
        if tables_admissible(ctx) {
            lemma_admissible_sum(ctx, q, t, k);
            assert(node_ok(ctx, nodes, w));
        }
        assert(open_below(ctx, nodes, status, q));
    }
}

/// Every stage of a solution was reached by an expanded node, unless a
/// node still waits.
pub proof fn lemma_follow(ctx: Ctx, nodes: Seq<NodeView>, status: Seq<u8>, q: Seq<Seq<usize>>, t: int, k: int)
    requires
        ctx.wf(),
        search_inv(ctx, nodes, status),
        is_solution(ctx.arcs(), ctx.starts, ctx.goals, q),
        is_stage(ctx, t, k),
    ensures
        reached(ctx, nodes, status, q, t, k) || open_below(ctx, nodes, status, q),
    decreases t, k,
{
    let arcs = ctx.arcs();
    let n = ctx.n();
    if t == 0 {
        let w = choose|w: int|
            0 <= w < nodes.len() && status[w] != 2 && #[trigger] matches_state(
                n,
                nodes[w],
                ctx.starts,
                ctx.starts,
                n,
            ) && nodes[w].g <= 0;
        assert forall|j: int| 0 <= j < n implies mixed_at(q, 0, n)[j] == ctx.starts[j] by {
            assert(is_route(arcs, q[j], ctx.starts[j] as int, ctx.goals[j] as int));
        }
        assert(mixed_at(q, 0, n) =~= ctx.starts);
        let zero = mixed_costs(arcs, q, 0, n);
        assert forall|j: int| 0 <= j < n implies 0 <= #[trigger] zero(j) by {
        }
        crate::mapf::sums::lemma_sum_nonnegative(zero, n);
        lemma_settle(ctx, nodes, status, q, 0, n, w);
    } else {
        let pt = if k > 1 {
            t
        } else {
            t - 1
        };
        let pk = if k > 1 {
            k - 1
        } else {
            n
        };
        lemma_follow(ctx, nodes, status, q, pt, pk);
        if !open_below(ctx, nodes, status, q) {
            let v = choose|v: int|
                0 <= v < nodes.len() && status[v] == 1 && #[trigger] matches_state(
                    n,
                    nodes[v],
                    mixed_at(q, pt, 0),
                    mixed_at(q, pt, pk),
                    pk,
                ) && nodes[v].g <= spent(arcs, q, pt, pk);
            let node = nodes[v];
            let a = k - 1;
            let base = mixed_at(q, t, 0);
            let cur = mixed_at(q, t, k - 1);
            assert(node_ok(ctx, nodes, v));
            assert(mixed_at(q, pt, pk) =~= cur);
            assert(agent_of(ctx, node) == a);
            assert(base_of(ctx, node) == base);
            assert(node.pos == cur);
            let x = base[a] as int;
            let target = at(q[a], t) as usize;
            assert(is_route(arcs, q[a], ctx.starts[a] as int, ctx.goals[a] as int));
            lemma_route_steps(arcs, q[a], t - 1);
            assert(x == at(q[a], t - 1));
            ctx.road.lemma_arcs_within();
            lemma_legal_step_cost(arcs, ctx.road.size(), x, target as int);
            let cost = step_cost(arcs, x, target as int);
            // the decision that the solution takes
            let m = if target as int == x {
                degree(ctx, x)
            } else {
                choose|m: int|
                    0 <= m < ctx.road.adj@[x]@.len() && (#[trigger] ctx.road.adj@[x]@[m]).0 == target as int
                        && ctx.road.adj@[x]@[m].1 == cost
            };
            if target as int != x {
                assert(arcs.contains((x, target as int, cost)));
                assert(ctx.road.has_arc(x, target as int, cost));
                assert(lists_pair(ctx.road.adj@[x]@, target as int, cost));
            }
            assert(0 <= m < moves_of(ctx, node));
            assert(move_target(ctx, x, m) == target);
            assert(move_weight(ctx, x, m) == cost);
            assert forall|j: int| 0 <= j < a implies !#[trigger] blocks(base, cur, a, target, j) by {
                assert(!collide(q[j], q[a], t));
                assert(!collide(q[j], q[a], t - 1));
                assert(cur[j] == at(q[j], t) as usize);
                assert(base[j] == at(q[j], t - 1) as usize);
                lemma_route_within(arcs, ctx.road.size(), q[j], t);
                lemma_route_within(arcs, ctx.road.size(), q[j], t - 1);
                lemma_route_within(arcs, ctx.road.size(), q[a], t);
                lemma_route_within(arcs, ctx.road.size(), q[a], t - 1);
                assert(is_route(arcs, q[j], ctx.starts[j] as int, ctx.goals[j] as int));
            }
            assert(allowed(base, cur, a, target));
            assert(expanded(ctx, nodes, status, v, moves_of(ctx, node)));
            assert(covered(ctx, nodes, status, v, m));
            assert(has_live(ctx, nodes, status, base, cur.update(a, target), a + 1, node.g + cost));
            let w = choose|w: int|
                0 <= w < nodes.len() && status[w] != 2 && #[trigger] matches_state(
                    n,
                    nodes[w],
                    base,
                    cur.update(a, target),
                    a + 1,
                ) && nodes[w].g <= node.g + cost;
            assert(cur.update(a, target) =~= mixed_at(q, t, k));
            // what the solution has spent
            let earlier = mixed_costs(arcs, q, pt, pk);
            let later = mixed_costs(arcs, q, t, k);
            assert forall|j: int| 0 <= j < n && j != a implies #[trigger] earlier(j) == later(j) by {
            }
            lemma_sum_change(earlier, later, n, a);
            assert(later(a) == cost_upto(arcs, q[a], t));
            assert(earlier(a) == cost_upto(arcs, q[a], t - 1));
            assert(later(a) - earlier(a) == cost);
            lemma_settle(ctx, nodes, status, q, t, k, w);
        }
    }
}

/// At the end of a solution every agent stands on its goal.
proof fn lemma_final_stage(ctx: Ctx, q: Seq<Seq<usize>>)
    requires
        ctx.wf(),
        is_solution(ctx.arcs(), ctx.starts, ctx.goals, q),
    ensures
        mixed_at(q, horizon(q), ctx.n()) == ctx.goals,
{
    lemma_horizon(q);
    assert forall|j: int| 0 <= j < ctx.n() implies mixed_at(q, horizon(q), ctx.n())[j] == ctx.goals[j] by {
        assert(is_route(ctx.arcs(), q[j], ctx.starts[j] as int, ctx.goals[j] as int));
        assert(horizon(q) >= q[j].len());
    }
    assert(mixed_at(q, horizon(q), ctx.n()) =~= ctx.goals);
}

/// A waiting goal node whose priority no waiting node undercuts costs no
/// more than any solution, if the estimates are admissible.
pub proof fn lemma_goal_is_cheapest(ctx: Ctx, nodes: Seq<NodeView>, status: Seq<u8>, u: int, q: Seq<Seq<usize>>)
    requires
        ctx.wf(),
        search_inv(ctx, nodes, status),
        0 <= u < nodes.len(),
        forall|v: int| 0 <= v < nodes.len() && #[trigger] status[v] == 0 ==> nodes[u].f <= nodes[v].f,
        is_solution(ctx.arcs(), ctx.starts, ctx.goals, q),
        tables_admissible(ctx),
    ensures
        nodes[u].g <= total_cost(ctx.arcs(), q),
{
    lemma_horizon(q);
    lemma_final_stage(ctx, q);
    lemma_follow(ctx, nodes, status, q, horizon(q), ctx.n());
    assert(node_ok(ctx, nodes, u));
    if reached(ctx, nodes, status, q, horizon(q), ctx.n()) {
        let v = choose|v: int|
            0 <= v < nodes.len() && status[v] == 1 && #[trigger] matches_state(
                ctx.n(),
                nodes[v],
                mixed_at(q, horizon(q), 0),
                mixed_at(q, horizon(q), ctx.n()),
                ctx.n(),
            ) && nodes[v].g <= spent(ctx.arcs(), q, horizon(q), ctx.n());
        assert(is_goal(ctx, nodes[v]));
    }
}

/// When no node waits, the problem has no solution.
pub proof fn lemma_exhausted(ctx: Ctx, nodes: Seq<NodeView>, status: Seq<u8>, q: Seq<Seq<usize>>)
    requires
        ctx.wf(),
        search_inv(ctx, nodes, status),
        forall|v: int| 0 <= v < nodes.len() ==> #[trigger] status[v] != 0,
    ensures
        !is_solution(ctx.arcs(), ctx.starts, ctx.goals, q),
{
    if is_solution(ctx.arcs(), ctx.starts, ctx.goals, q) {
        lemma_horizon(q);
        lemma_final_stage(ctx, q);
        lemma_follow(ctx, nodes, status, q, horizon(q), ctx.n());
        if reached(ctx, nodes, status, q, horizon(q), ctx.n()) {
            let v = choose|v: int|
                0 <= v < nodes.len() && status[v] == 1 && #[trigger] matches_state(
                    ctx.n(),
                    nodes[v],
                    mixed_at(q, horizon(q), 0),
                    mixed_at(q, horizon(q), ctx.n()),
                    ctx.n(),
                ) && nodes[v].g <= spent(ctx.arcs(), q, horizon(q), ctx.n());
            assert(is_goal(ctx, nodes[v]));
        }
    }
}

} // verus!
