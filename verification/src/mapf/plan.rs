//! What a solution is: routes, collisions and cost, as mathematics.
//!
//! A graph enters only as its set of arcs (from, to, weight). A route is a
//! sequence of nodes, one per timestep; an agent that has reached the end
//! of its route stays on the last node.

use vstd::prelude::*;
use crate::mapf::graphlike::GraphLike;
use crate::mapf::sums::{lemma_sum_eq, sum_over};

verus! {

/// The arcs of a graph as a set of (from, to, weight).
pub open spec fn arc_set<G: GraphLike>(graph: &G) -> Set<(int, int, int)> {
    Set::new(|t: (int, int, int)| graph.arc(t.0, t.1, t.2))
}

/// Arcs join nodes below `n` and carry weights that fit a machine word.
pub open spec fn arcs_within(arcs: Set<(int, int, int)>, n: int) -> bool {
    forall|a: int, b: int, w: int| #[trigger]
        arcs.contains((a, b, w)) ==> 0 <= a < n && 0 <= b < n && 0 <= w <= usize::MAX
}

/// Whether some arc leads from `a` to `b`.
pub open spec fn connected(arcs: Set<(int, int, int)>, a: int, b: int) -> bool {
    exists|w: int| arcs.contains((a, b, w))
}

/// Whether `w` is the weight of the lightest arc from `a` to `b`.
pub open spec fn is_least_weight(arcs: Set<(int, int, int)>, a: int, b: int, w: int) -> bool {
    arcs.contains((a, b, w)) && forall|v: int| arcs.contains((a, b, v)) ==> w <= v
}

/// What one timestep costs an agent that goes from `a` to `b`: nothing for
/// waiting, else the weight of the lightest arc.
pub open spec fn step_cost(arcs: Set<(int, int, int)>, a: int, b: int) -> int {
    if a == b {
        0
    } else {
        choose|w: int| is_least_weight(arcs, a, b, w)
    }
}

/// Whether an agent on `a` may be on `b` one timestep later.
pub open spec fn legal_step(arcs: Set<(int, int, int)>, a: int, b: int) -> bool {
    a == b || connected(arcs, a, b)
}

/// Where an agent with route `p` is at time `t`.
pub open spec fn at(p: Seq<usize>, t: int) -> int {
    if t < p.len() {
        p[t] as int
    } else {
        p[p.len() - 1] as int
    }
}

/// Whether `p` leads from `start` to `goal` by waits and moves along arcs.
pub open spec fn is_route(arcs: Set<(int, int, int)>, p: Seq<usize>, start: int, goal: int) -> bool {
    &&& p.len() >= 1
    &&& p[0] == start
    &&& p[p.len() - 1] == goal
    &&& forall|t: int| 0 <= t < p.len() - 1 ==> legal_step(arcs, #[trigger] p[t] as int, p[t + 1] as int)
}

/// Whether two agents are on one node at time `t`, or swap their nodes
/// between `t` and `t + 1`.
pub open spec fn collide(p: Seq<usize>, q: Seq<usize>, t: int) -> bool {
    at(p, t) == at(q, t) || (at(p, t + 1) == at(q, t) && at(q, t + 1) == at(p, t))
}

/// No two routes collide at any time.
pub open spec fn collision_free(paths: Seq<Seq<usize>>) -> bool {
    forall|i: int, j: int, t: int|
        0 <= i < j < paths.len() && 0 <= t ==> !#[trigger] collide(paths[i], paths[j], t)
}

/// The cost of the first `t` timesteps of a route.
pub open spec fn cost_upto(arcs: Set<(int, int, int)>, p: Seq<usize>, t: int) -> int
    decreases t,
{
    if t <= 0 {
        0
    } else {
        cost_upto(arcs, p, t - 1) + step_cost(arcs, at(p, t - 1), at(p, t))
    }
}

/// The cost of a route: the sum of the weights of its moves.
pub open spec fn route_cost(arcs: Set<(int, int, int)>, p: Seq<usize>) -> int {
    cost_upto(arcs, p, p.len() - 1)
}

/// The sum of the costs of the first `t` timesteps over all routes.
pub open spec fn total_upto(arcs: Set<(int, int, int)>, paths: Seq<Seq<usize>>, t: int) -> int
    decreases paths.len(),
{
    if paths.len() == 0 {
        0
    } else {
        total_upto(arcs, paths.drop_last(), t) + cost_upto(arcs, paths.last(), t)
    }
}

/// The sum of the costs of all routes.
pub open spec fn total_cost(arcs: Set<(int, int, int)>, paths: Seq<Seq<usize>>) -> int
    decreases paths.len(),
{
    if paths.len() == 0 {
        0
    } else {
        total_cost(arcs, paths.drop_last()) + route_cost(arcs, paths.last())
    }
}

/// Whether `paths` solves the problem: one route per agent from its start
/// to its goal, and no collision.
pub open spec fn is_solution(
    arcs: Set<(int, int, int)>,
    starts: Seq<usize>,
    goals: Seq<usize>,
    paths: Seq<Seq<usize>>,
) -> bool {
    &&& paths.len() == starts.len()
    &&& paths.len() == goals.len()
    &&& forall|i: int|
        0 <= i < paths.len() ==> is_route(arcs, #[trigger] paths[i], starts[i] as int, goals[i] as int)
    &&& collision_free(paths)
}

/// Whether no solution is cheaper than `paths`.
pub open spec fn is_optimal(
    arcs: Set<(int, int, int)>,
    starts: Seq<usize>,
    goals: Seq<usize>,
    paths: Seq<Seq<usize>>,
) -> bool {
    forall|other: Seq<Seq<usize>>| #[trigger]
        is_solution(arcs, starts, goals, other) ==> total_cost(arcs, paths) <= total_cost(arcs, other)
}

/// Whether the table `h` never exceeds the cost of a route to `goal`.
pub open spec fn admissible(arcs: Set<(int, int, int)>, h: Seq<u128>, goal: int) -> bool {
    forall|p: Seq<usize>| #[trigger]
        is_route(arcs, p, p[0] as int, goal) && p[0] < h.len() ==> h[p[0] as int] <= route_cost(arcs, p)
}

/// Among the arcs from `a` to `b` one is lightest.
pub proof fn lemma_least_weight_exists(arcs: Set<(int, int, int)>, n: int, a: int, b: int, w: int)
    requires
        arcs_within(arcs, n),
        arcs.contains((a, b, w)),
    ensures
        exists|m: int| is_least_weight(arcs, a, b, m),
    decreases w,
{
    if exists|v: int| arcs.contains((a, b, v)) && v < w {
        let v = choose|v: int| arcs.contains((a, b, v)) && v < w;
        lemma_least_weight_exists(arcs, n, a, b, v);
    } else {
        assert(is_least_weight(arcs, a, b, w));
    }
}

/// A step costs no more than any arc that makes it, and never less than 0.
pub proof fn lemma_step_cost_bounds(arcs: Set<(int, int, int)>, n: int, a: int, b: int, w: int)
    requires
        arcs_within(arcs, n),
        arcs.contains((a, b, w)),
    ensures
        0 <= step_cost(arcs, a, b) <= w,
        a != b ==> arcs.contains((a, b, step_cost(arcs, a, b))),
{
    if a != b {
        lemma_least_weight_exists(arcs, n, a, b, w);
        let m = choose|m: int| is_least_weight(arcs, a, b, m);
        assert(arcs.contains((a, b, m)));
    }
}

/// A legal step has a cost between 0 and the largest machine word.
pub proof fn lemma_legal_step_cost(arcs: Set<(int, int, int)>, n: int, a: int, b: int)
    requires
        arcs_within(arcs, n),
        legal_step(arcs, a, b),
    ensures
        0 <= step_cost(arcs, a, b) <= usize::MAX,
        a != b ==> arcs.contains((a, b, step_cost(arcs, a, b))),
{
    if a != b {
        let w = choose|w: int| arcs.contains((a, b, w));
        lemma_step_cost_bounds(arcs, n, a, b, w);
    }
}

/// Once a route has ended, time adds no cost.
pub proof fn lemma_cost_after_end(arcs: Set<(int, int, int)>, p: Seq<usize>, t: int)
    requires
        p.len() >= 1,
        t >= p.len() - 1,
    ensures
        cost_upto(arcs, p, t) == route_cost(arcs, p),
    decreases t,
{
    if t > p.len() - 1 {
        lemma_cost_after_end(arcs, p, t - 1);
    }
}

/// Costs of routes are never negative, and grow with time.
pub proof fn lemma_cost_monotone(arcs: Set<(int, int, int)>, n: int, p: Seq<usize>, s: int, t: int)
    requires
        arcs_within(arcs, n),
        is_route(arcs, p, p[0] as int, p[p.len() - 1] as int),
        0 <= s <= t,
    ensures
        0 <= cost_upto(arcs, p, s) <= cost_upto(arcs, p, t),
    decreases t,
{
    if t > 0 {
        if s < t {
            lemma_cost_monotone(arcs, n, p, s, t - 1);
        } else {
            lemma_cost_monotone(arcs, n, p, s - 1, t - 1);
        }
        if t < p.len() {
            assert(legal_step(arcs, p[t - 1] as int, p[t - 1 + 1] as int));
        }
        lemma_legal_step_cost(arcs, n, at(p, t - 1), at(p, t));
    }
}

/// The rest of a route from time `t` on is a route, and the cost of the
/// whole is the cost up to `t` and the cost of the rest.
pub proof fn lemma_route_split(arcs: Set<(int, int, int)>, p: Seq<usize>, goal: int, t: int)
    requires
        is_route(arcs, p, p[0] as int, goal),
        0 <= t,
    ensures
        is_route(arcs, route_from(p, t), at(p, t), goal),
        route_cost(arcs, p) == cost_upto(arcs, p, t) + route_cost(arcs, route_from(p, t)),
{
    let rest = route_from(p, t);
    if t >= p.len() - 1 {
        lemma_cost_after_end(arcs, p, t);
        assert(rest.len() == 1);
        assert(cost_upto(arcs, rest, 0) == 0);
    } else {
        assert forall|s: int| 0 <= s < rest.len() - 1 implies legal_step(
            arcs,
            #[trigger] rest[s] as int,
            rest[s + 1] as int,
        ) by {
            assert(legal_step(arcs, p[t + s] as int, p[t + s + 1] as int));
        }
        lemma_rest_cost(arcs, p, t, p.len() - 1 - t);
    }
}

/// The route that an agent with route `p` still has before it at time `t`.
pub open spec fn route_from(p: Seq<usize>, t: int) -> Seq<usize> {
    if t >= p.len() - 1 {
        seq![p[p.len() - 1]]
    } else {
        p.subrange(t, p.len() as int)
    }
}

proof fn lemma_rest_cost(arcs: Set<(int, int, int)>, p: Seq<usize>, t: int, s: int)
    requires
        0 <= t < p.len() - 1,
        0 <= s <= p.len() - 1 - t,
    ensures
        cost_upto(arcs, p, t + s) == cost_upto(arcs, p, t) + cost_upto(arcs, route_from(p, t), s),
    decreases s,
{
    if s > 0 {
        lemma_rest_cost(arcs, p, t, s - 1);
        let rest = route_from(p, t);
        assert(at(rest, s - 1) == at(p, t + s - 1));
        assert(at(rest, s) == at(p, t + s));
    }
}

/// The total cost is the total cost up to any time at which every route
/// has ended.
pub proof fn lemma_total_after_end(arcs: Set<(int, int, int)>, paths: Seq<Seq<usize>>, t: int)
    requires
        forall|i: int| 0 <= i < paths.len() ==> (#[trigger] paths[i]).len() >= 1 && t >= paths[i].len() - 1,
    ensures
        total_upto(arcs, paths, t) == total_cost(arcs, paths),
    decreases paths.len(),
{
    if paths.len() > 0 {
        let front = paths.drop_last();
        assert forall|i: int| 0 <= i < front.len() implies (#[trigger] front[i]).len() >= 1 && t >= front[i].len()
            - 1 by {
            assert(front[i] == paths[i]);
        }
        lemma_total_after_end(arcs, front, t);
        assert(paths.last() == paths[paths.len() - 1]);
        lemma_cost_after_end(arcs, paths.last(), t);
    }
}

/// A route that starts in the graph stays in it.
pub proof fn lemma_route_within(arcs: Set<(int, int, int)>, n: int, p: Seq<usize>, t: int)
    requires
        arcs_within(arcs, n),
        is_route(arcs, p, p[0] as int, p[p.len() - 1] as int),
        p[0] < n,
        0 <= t,
    ensures
        0 <= at(p, t) < n,
    decreases t,
{
    if t > 0 && t < p.len() {
        lemma_route_within(arcs, n, p, t - 1);
        assert(legal_step(arcs, p[t - 1] as int, p[t - 1 + 1] as int));
        let a = p[t - 1] as int;
        let b = p[t] as int;
        if a != b {
            assert(connected(arcs, a, b));
            let w = choose|w: int| arcs.contains((a, b, w));
            assert(arcs.contains((a, b, w)));
        }
    } else if t >= p.len() {
        lemma_route_within(arcs, n, p, p.len() - 1);
    }
}

/// An agent's move from one timestep to the next is a legal step.
pub proof fn lemma_route_steps(arcs: Set<(int, int, int)>, p: Seq<usize>, t: int)
    requires
        is_route(arcs, p, p[0] as int, p[p.len() - 1] as int),
        0 <= t,
    ensures
        legal_step(arcs, at(p, t), at(p, t + 1)),
{
    if t < p.len() - 1 {
        assert(legal_step(arcs, p[t] as int, p[t + 1] as int));
    }
}

/// A time by which every route has ended, and at least 1.
pub open spec fn horizon(paths: Seq<Seq<usize>>) -> int
    decreases paths.len(),
{
    if paths.len() == 0 {
        1
    } else {
        let rest = horizon(paths.drop_last());
        if rest >= paths.last().len() {
            rest
        } else {
            paths.last().len() as int
        }
    }
}

/// By the horizon every route has ended.
pub proof fn lemma_horizon(paths: Seq<Seq<usize>>)
    ensures
        horizon(paths) >= 1,
        forall|j: int| 0 <= j < paths.len() ==> horizon(paths) >= (#[trigger] paths[j]).len(),
    decreases paths.len(),
{
    if paths.len() > 0 {
        let front = paths.drop_last();
        lemma_horizon(front);
        assert forall|j: int| 0 <= j < paths.len() implies horizon(paths) >= (#[trigger] paths[j]).len() by {
            if j < front.len() {
                assert(front[j] == paths[j]);
            }
        }
    }
}

/// At time 0 nothing has been spent.
pub proof fn lemma_total_upto_zero(arcs: Set<(int, int, int)>, paths: Seq<Seq<usize>>)
    ensures
        total_upto(arcs, paths, 0) == 0,
    decreases paths.len(),
{
    if paths.len() > 0 {
        lemma_total_upto_zero(arcs, paths.drop_last());
    }
}

/// The cost of route `j`, as a function of `j`.
pub open spec fn route_costs(arcs: Set<(int, int, int)>, paths: Seq<Seq<usize>>) -> spec_fn(int) -> int {
    |j: int| route_cost(arcs, paths[j])
}

/// The cost of route `j` up to time `t`, as a function of `j`.
pub open spec fn costs_upto(arcs: Set<(int, int, int)>, paths: Seq<Seq<usize>>, t: int) -> spec_fn(int) -> int {
    |j: int| cost_upto(arcs, paths[j], t)
}

/// The total cost is the sum of the routes' costs.
pub proof fn lemma_total_is_sum(arcs: Set<(int, int, int)>, paths: Seq<Seq<usize>>)
    ensures
        total_cost(arcs, paths) == sum_over(route_costs(arcs, paths), paths.len() as int),
    decreases paths.len(),
{
    if paths.len() > 0 {
        let front = paths.drop_last();
        lemma_total_is_sum(arcs, front);
        let f = route_costs(arcs, front);
        let g = route_costs(arcs, paths);
        assert forall|j: int| 0 <= j < front.len() implies #[trigger] f(j) == g(j) by {
            assert(front[j] == paths[j]);
        }
        lemma_sum_eq(f, g, front.len() as int);
    }
}

/// The total cost up to a time is the sum of the routes' costs up to it.
pub proof fn lemma_total_upto_is_sum(arcs: Set<(int, int, int)>, paths: Seq<Seq<usize>>, t: int)
    ensures
        total_upto(arcs, paths, t) == sum_over(costs_upto(arcs, paths, t), paths.len() as int),
    decreases paths.len(),
{
    if paths.len() > 0 {
        let front = paths.drop_last();
        lemma_total_upto_is_sum(arcs, front, t);
        let f = costs_upto(arcs, front, t);
        let g = costs_upto(arcs, paths, t);
        assert forall|j: int| 0 <= j < front.len() implies #[trigger] f(j) == g(j) by {
            assert(front[j] == paths[j]);
        }
        lemma_sum_eq(f, g, front.len() as int);
    }
}

} // verus!
