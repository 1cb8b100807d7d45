//! What the solvers share: reading a problem into plain tables before the
//! search, and handing out the routes after it.

use vstd::prelude::*;
use std::collections::HashMap;
use crate::mapf::agent::Agent;
use crate::mapf::bound::tables_admissible;
use crate::mapf::conflicts::{ends_waiting, lemma_same_route, same_whereabouts, trim};
use crate::mapf::distance_heuristic::DistanceHeuristic;
use crate::mapf::graphlike::GraphLike;
use crate::mapf::counting::{lemma_power_grows, lemma_power_positive, power};
use crate::mapf::independence::{lemma_plan_enough, plan_enough};
use crate::mapf::joint_search::{Ctx, distinct, search, search_enough, setting, steady, tables_fit};
use crate::mapf::mapf_problem::MAPFProblem;
use crate::mapf::plan::{
    admissible, at, collide, cost_upto, is_optimal, is_route, is_solution, route_cost, total_cost,
};
use crate::mapf::roadmap::Roadmap;
use crate::mapf::{reachable, routes_of, solved, Location, MapfError, Path};

verus! {

/// A problem as plain tables: the arcs, and per agent its location, its
/// goal, its identifier, and the estimate from every node to its goal.
pub struct Prepared {
    pub road: Roadmap,
    pub starts: Vec<usize>,
    pub goals: Vec<usize>,
    pub ids: Vec<usize>,
    pub htab: Vec<Vec<u128>>,
}

/// Whether the tables hold what the problem says, and the estimates are
/// consistent.
pub open spec fn prepared_for<G: GraphLike, AGENT: Agent, DH: DistanceHeuristic<G>>(
    problem: &MAPFProblem<G, AGENT, DH>,
    prep: &Prepared,
) -> bool {
    &&& prep.road.arcs() == problem.arcs()
    &&& prep.road.size() == problem.graph.node_total()
    &&& prep.road.widest() <= problem.graph.arc_total()
    &&& prep.starts@ == problem.starts()
    &&& prep.goals@ == problem.goals()
    &&& prep.ids@ == problem.identifiers()
    &&& setting(&prep.road, prep.starts@, prep.goals@, prep.htab.deep_view()).fits()
    &&& tables_fit(setting(&prep.road, prep.starts@, prep.goals@, prep.htab.deep_view()))
}

/// Consistent tables are admissible: along a route the estimate drops by
/// no more than the route costs, and at the goal it is 0.
pub proof fn lemma_fit_route(ctx: Ctx, j: int, p: Seq<usize>, t: int)
    requires
        ctx.fits(),
        tables_fit(ctx),
        0 <= j < ctx.n(),
        is_route(ctx.arcs(), p, p[0] as int, ctx.goals[j] as int),
        p[0] < ctx.road.size(),
        0 <= t,
    ensures
        0 <= at(p, t) < ctx.road.size(),
        ctx.h[j][at(p, t)] + cost_upto(ctx.arcs(), p, t) <= route_cost(ctx.arcs(), p),
    decreases p.len() - t,
{
    let arcs = ctx.arcs();
    ctx.road.lemma_arcs_within();
    crate::mapf::plan::lemma_route_within(arcs, ctx.road.size(), p, t);
    if t >= p.len() - 1 {
        crate::mapf::plan::lemma_cost_after_end(arcs, p, t);
    } else {
        lemma_fit_route(ctx, j, p, t + 1);
        let a = p[t] as int;
        let b = p[t + 1] as int;
        assert(crate::mapf::plan::legal_step(arcs, p[t] as int, p[t + 1] as int));
        crate::mapf::plan::lemma_legal_step_cost(arcs, ctx.road.size(), a, b);
        if a != b {
            let w = crate::mapf::plan::step_cost(arcs, a, b);
            assert(ctx.road.has_arc(a, b, w));
            let k = choose|k: int|
                0 <= k < ctx.road.adj@[a]@.len() && (#[trigger] ctx.road.adj@[a]@[k]).0 == b && ctx.road.adj@[a]@[k].1
                    == w;
            assert(steady(ctx, j, a, k));
        }
    }
}

/// Consistent tables are admissible.
pub proof fn lemma_fit_admissible(ctx: Ctx)
    requires
        ctx.fits(),
        tables_fit(ctx),
    ensures
        tables_admissible(ctx),
{
    assert forall|j: int| 0 <= j < ctx.n() implies admissible(ctx.arcs(), #[trigger] ctx.h[j], ctx.goals[j] as int) by {
        assert forall|p: Seq<usize>| #[trigger]
            is_route(ctx.arcs(), p, p[0] as int, ctx.goals[j] as int) && p[0] < ctx.h[j].len() implies ctx.h[j][p[0] as int]
            <= route_cost(ctx.arcs(), p) by {
            assert(ctx.h[j].len() == ctx.road.size());
            lemma_fit_route(ctx, j, p, 0);
        }
    }
}

/// Whether the tables are consistent, entry by entry.
fn usable(road: &Roadmap, goals: &Vec<usize>, htab: &Vec<Vec<u128>>, Ghost(starts): Ghost<Seq<usize>>) -> (ok: bool)
    requires
        setting(road, starts, goals@, htab.deep_view()).fits(),
    ensures
        ok ==> tables_fit(setting(road, starts, goals@, htab.deep_view())),
{
    let ghost ctx = setting(road, starts, goals@, htab.deep_view());
    let n = goals.len();
    let size = road.adj.len();
    let mut j: usize = 0;
    while j < n
        invariant
            0 <= j <= n,
            n == ctx.n(),
            size == ctx.road.size(),
            ctx == setting(road, starts, goals@, htab.deep_view()),
            ctx.fits(),
            forall|i: int, a: int, k: int|
                0 <= i < j && 0 <= a < size && 0 <= k < ctx.road.adj@[a]@.len() ==> #[trigger] steady(ctx, i, a, k),
            forall|i: int, x: int| 0 <= i < j && 0 <= x < size ==> (#[trigger] ctx.h[i][x]) * ctx.n() <= usize::MAX,
            forall|i: int| 0 <= i < j ==> (#[trigger] ctx.h[i])[ctx.goals[i] as int] == 0,
        decreases n - j,
    {
        proof {
            assert(htab.deep_view()[j as int] == htab@[j as int].deep_view());
            assert(ctx.h[j as int].len() == size);
            assert(ctx.goals[j as int] < size);
        }
        let row = &htab[j];
        assert(forall|x: int| 0 <= x < size ==> #[trigger] ctx.h[j as int][x] == row@[x]);
        if row[goals[j]] != 0 {
            return false;
        }
        let mut a: usize = 0;
        while a < size
            invariant
                0 <= a <= size,
                j < n,
                n == ctx.n(),
                size == ctx.road.size(),
                size == road.adj@.len(),
                ctx.road == *road,
                road.wf(),
                row@.len() == size,
                forall|x: int| 0 <= x < size ==> #[trigger] ctx.h[j as int][x] == row@[x],
                forall|x: int| 0 <= x < a ==> (#[trigger] row@[x]) * n <= usize::MAX,
            decreases size - a,
        {
            match row[a].checked_mul(n as u128) {
                Some(all) => {
                    if all > usize::MAX as u128 {
                        return false;
                    }
                },
                None => {
                    return false;
                },
            }
            a += 1;
        }
        let mut a: usize = 0;
        while a < size
            invariant
                0 <= a <= size,
                j < n,
                n == ctx.n(),
                n >= 1,
                size == ctx.road.size(),
                size == road.adj@.len(),
                ctx.road == *road,
                road.wf(),
                row@.len() == size,
                forall|x: int| 0 <= x < size ==> #[trigger] ctx.h[j as int][x] == row@[x],
                forall|x: int| 0 <= x < size ==> (#[trigger] row@[x]) * n <= usize::MAX,
                forall|x: int, k: int|
                    0 <= x < a && 0 <= k < ctx.road.adj@[x]@.len() ==> #[trigger] steady(ctx, j as int, x, k),
            decreases size - a,
        {
            let mut k: usize = 0;
            while k < road.adj[a].len()
                invariant
                    0 <= k <= road.adj@[a as int]@.len(),
                    a < size,
                    j < n,
                    n >= 1,
                    size == road.adj@.len(),
                    ctx.road == *road,
                    road.wf(),
                    row@.len() == size,
                    forall|x: int| 0 <= x < size ==> #[trigger] ctx.h[j as int][x] == row@[x],
                    forall|x: int| 0 <= x < size ==> (#[trigger] row@[x]) * n <= usize::MAX,
                    forall|i: int| 0 <= i < k ==> #[trigger] steady(ctx, j as int, a as int, i),
                decreases road.adj@[a as int]@.len() - k,
            {
                let (b, w) = road.adj[a][k];
                assert(road.adj@[a as int]@[k as int].0 < size);
                proof {
                    let e = row@[b as int] as int;
                    assert(e * n <= usize::MAX);
                    assert(e <= usize::MAX) by (nonlinear_arith)
                        requires
                            e * n <= usize::MAX,
                            n >= 1,
                            e >= 0,
                    ;
                }
                if row[a] > w as u128 + row[b] {
                    return false;
                }
                k += 1;
            }
            a += 1;
        }
        j += 1;
    }
    true
}

/// Tables that estimate 0 everywhere.
fn zeros(n: usize, size: usize) -> (htab: Vec<Vec<u128>>)
    ensures
        htab@.len() == n,
        forall|j: int| 0 <= j < n ==> (#[trigger] htab@[j])@.len() == size,
        forall|j: int, x: int| 0 <= j < n && 0 <= x < size ==> #[trigger] htab@[j]@[x] == 0,
{
    let mut htab: Vec<Vec<u128>> = Vec::new();
    let mut j: usize = 0;
    while j < n
        invariant
            0 <= j <= n,
            htab@.len() == j,
            forall|i: int| 0 <= i < j ==> (#[trigger] htab@[i])@.len() == size,
            forall|i: int, x: int| 0 <= i < j && 0 <= x < size ==> #[trigger] htab@[i]@[x] == 0,
        decreases n - j,
    {
        let mut row: Vec<u128> = Vec::new();
        let mut x: usize = 0;
        while x < size
            invariant
                0 <= x <= size,
                row@.len() == x,
                forall|y: int| 0 <= y < x ==> row@[y] == 0,
            decreases size - x,
        {
            row.push(0);
            x += 1;
        }
        htab.push(row);
        j += 1;
    }
    htab
}

/// `base` to the power of `e`, where it fits a machine word.
fn power_of(base: usize, e: usize) -> (r: Option<usize>)
    requires
        base >= 1,
    ensures
        match r {
            Some(p) => p == power(base as int, e as nat),
            None => power(base as int, e as nat) > usize::MAX,
        },
{
    let mut acc: usize = 1;
    let mut i: usize = 0;
    while i < e
        invariant
            0 <= i <= e,
            base >= 1,
            acc == power(base as int, i as nat),
        decreases e - i,
    {
        match acc.checked_mul(base) {
            Some(next) => {
                proof {
                    assert(base * power(base as int, i as nat) == power(base as int, i as nat) * base)
                        by (nonlinear_arith);
                }
                acc = next;
            },
            None => {
                proof {
                    assert(base * power(base as int, i as nat) == power(base as int, i as nat) * base)
                        by (nonlinear_arith);
                    lemma_power_grows(base as int, (i + 1) as nat, e as nat);
                }
                return None;
            },
        }
        i += 1;
    }
    Some(acc)
}

/// The fuel with which a search for `n` agents on the snapshot does not
/// give up, where it fits a machine word.
pub fn enough_for(road: &Roadmap, n: usize) -> (r: Option<usize>)
    requires
        road.size() >= 1,
        n >= 1,
    ensures
        match r {
            Some(e) => e == search_enough(road.size(), n as int, road.widest()),
            None => search_enough(road.size(), n as int, road.widest()) > usize::MAX,
        },
{
    let size = road.adj.len();
    let widest = road.widest_of();
    proof {
        road.lemma_widest(size as int, 0);
        lemma_power_positive(size as int, n as nat);
    }
    let ghost p = power(size as int, n as nat);
    let ghost w = widest as int;
    let ghost m = n as int;
    let one = match power_of(size, n) {
        Some(one) => one,
        None => {
            proof {
                assert((m + 1) * p * p * (w + 1) >= p) by (nonlinear_arith)
                    requires
                        m >= 1,
                        p >= 1,
                        w >= 0,
                ;
            }
            return None;
        },
    };
    let two = match one.checked_mul(one) {
        Some(two) => two,
        None => {
            proof {
                assert((m + 1) * p * p * (w + 1) >= p * p) by (nonlinear_arith)
                    requires
                        m >= 1,
                        p >= 1,
                        w >= 0,
                ;
            }
            return None;
        },
    };
    if n == usize::MAX || widest == usize::MAX {
        proof {
            assert((m + 1) * p * p * (w + 1) >= m + 1 && (m + 1) * p * p * (w + 1) >= w + 1) by (nonlinear_arith)
                requires
                    m >= 1,
                    p >= 1,
                    w >= 0,
            ;
        }
        return None;
    }
    let three = match two.checked_mul(n + 1) {
        Some(three) => three,
        None => {
            proof {
                assert((m + 1) * p * p * (w + 1) >= p * p * (m + 1)) by (nonlinear_arith)
                    requires
                        m >= 1,
                        p >= 1,
                        w >= 0,
                ;
            }
            return None;
        },
    };
    let four = match three.checked_mul(widest + 1) {
        Some(four) => four,
        None => {
            proof {
                assert((m + 1) * p * p * (w + 1) == p * p * (m + 1) * (w + 1)) by (nonlinear_arith);
            }
            return None;
        },
    };
    proof {
        assert((m + 1) * p * p * (w + 1) == p * p * (m + 1) * (w + 1)) by (nonlinear_arith);
    }
    four.checked_add(1)
}

/// Reads a problem into tables, and finds out whether every agent can
/// reach its goal at all and whether the heuristic covers the graph. Where
/// the heuristic's estimates are not consistent, the tables estimate 0
/// everywhere.
pub fn prepare<G: GraphLike, AGENT: Agent, DH: DistanceHeuristic<G>>(problem: &MAPFProblem<G, AGENT, DH>) -> (r:
    Result<Prepared, MapfError>)
    requires
        problem.wf(),
    ensures
        match r {
            Ok(prep) => {
                &&& prepared_for(problem, &prep)
                &&& problem.estimates_defined()
                &&& forall|i: int| 0 <= i < problem.agents@.len() ==> #[trigger] reachable(problem, i)
            },
            Err(MapfError::NodeNotFound) => !problem.estimates_defined() && forall|i: int|
                0 <= i < problem.agents@.len() ==> #[trigger] reachable(problem, i),
            Err(MapfError::NoSolution) => (exists|i: int|
                0 <= i < problem.agents@.len() && !#[trigger] reachable(problem, i)) && forall|q: Seq<Seq<usize>>|
                !is_solution(problem.arcs(), problem.starts(), problem.goals(), q),
            Err(_) => false,
        },
{
    let road = Roadmap::build(&problem.graph);
    let size = road.adj.len();
    let n = problem.agents.len();
    let mut starts: Vec<usize> = Vec::new();
    let mut goals: Vec<usize> = Vec::new();
    let mut ids: Vec<usize> = Vec::new();
    let mut i: usize = 0;
    while i < n
        invariant
            0 <= i <= n,
            n == problem.agents@.len(),
            problem.wf(),
            starts@.len() == i,
            goals@.len() == i,
            ids@.len() == i,
            forall|x: int| 0 <= x < i ==> #[trigger] starts@[x] == problem.starts()[x],
            forall|x: int| 0 <= x < i ==> #[trigger] goals@[x] == problem.goals()[x],
            forall|x: int| 0 <= x < i ==> #[trigger] ids@[x] == problem.identifiers()[x],
        decreases n - i,
    {
        starts.push(problem.agents[i].location().index);
        goals.push(problem.agents[i].goal().index);
        ids.push(problem.agents[i].identifier());
        i += 1;
    }
    proof {
        assert(starts@ =~= problem.starts());
        assert(goals@ =~= problem.goals());
        assert(ids@ =~= problem.identifiers());
    }
    let mut i: usize = 0;
    while i < n
        invariant
            0 <= i <= n,
            n == problem.agents@.len(),
            problem.wf(),
            road.wf(),
            road.arcs() == problem.arcs(),
            road.size() == problem.graph.node_total(),
            starts@ == problem.starts(),
            goals@ == problem.goals(),
            forall|x: int| 0 <= x < i ==> #[trigger] reachable(problem, x),
        decreases n - i,
    {
        proof {
            assert(problem.agents@[i as int].location_spec().index < problem.graph.node_total());
        }
        if !road.reaches(starts[i], goals[i]) {
            proof {
                assert(!reachable(problem, i as int));
                lemma_unreachable(problem, i as int);
            }
            return Err(MapfError::NoSolution);
        }
        i += 1;
    }
    let mut htab: Vec<Vec<u128>> = Vec::new();
    let mut i: usize = 0;
    while i < n
        invariant
            0 <= i <= n,
            n == problem.agents@.len(),
            size == road.size(),
            size == problem.graph.node_total(),
            goals@ == problem.goals(),
            htab@.len() == i,
            forall|x: int| 0 <= x < problem.agents@.len() ==> #[trigger] reachable(problem, x),
            forall|x: int| 0 <= x < i ==> (#[trigger] htab@[x])@.len() == size,
            forall|x: int, v: int|
                0 <= x < i && 0 <= v < size ==> Some((#[trigger] htab@[x]@[v]) as nat) == DH::estimate(
                    &problem.graph,
                    v,
                    goals@[x] as int,
                ),
        decreases n - i,
    {
        let goal = Location { index: goals[i] };
        let mut row: Vec<u128> = Vec::new();
        let mut v: usize = 0;
        while v < size
            invariant
                0 <= v <= size,
                i < n,
                n == problem.agents@.len(),
                size == problem.graph.node_total(),
                goals@ == problem.goals(),
                goal.index == goals@[i as int],
                row@.len() == v,
                forall|x: int| 0 <= x < problem.agents@.len() ==> #[trigger] reachable(problem, x),
                forall|y: int|
                    0 <= y < v ==> Some((#[trigger] row@[y]) as nat) == DH::estimate(
                        &problem.graph,
                        y,
                        goal.index as int,
                    ),
            decreases size - v,
        {
            let from = Location { index: v };
            match DH::heuristic(&problem.graph, from, goal) {
                Ok(e) => {
                    row.push(e);
                },
                Err(_) => {
                    proof {
                        assert(DH::estimate(&problem.graph, v as int, problem.goals()[i as int] as int).is_none());
                    }
                    return Err(MapfError::NodeNotFound);
                },
            }
            v += 1;
        }
        htab.push(row);
        i += 1;
    }
    proof {
        assert forall|x: int, v: int| 0 <= x < problem.agents@.len() && 0 <= v < problem.graph.node_total() implies (
        #[trigger] DH::estimate(&problem.graph, v, problem.goals()[x] as int)).is_some() by {
            assert(Some(htab@[x]@[v] as nat) == DH::estimate(&problem.graph, v, goals@[x] as int));
        }
        assert(problem.estimates_defined());
        let ctx = setting(&road, starts@, goals@, htab.deep_view());
        assert forall|j: int| 0 <= j < ctx.starts.len() implies #[trigger] ctx.starts[j] < ctx.road.size() by {
            assert(problem.agents@[j].location_spec().index < problem.graph.node_total());
        }
        assert forall|j: int| 0 <= j < ctx.goals.len() implies #[trigger] ctx.goals[j] < ctx.road.size() by {
            assert(problem.agents@[j].goal_spec().index < problem.graph.node_total());
        }
        assert forall|j: int| 0 <= j < ctx.h.len() implies (#[trigger] ctx.h[j]).len() == ctx.road.size() by {
            assert(htab.deep_view()[j] == htab@[j].deep_view());
            assert(htab@[j]@.len() == size);
        }
        assert(ctx.fits());
    }
    if !usable(&road, &goals, &htab, Ghost(starts@)) {
        htab = zeros(n, size);
        proof {
            let ctx = setting(&road, starts@, goals@, htab.deep_view());
            assert forall|j: int| 0 <= j < ctx.starts.len() implies #[trigger] ctx.starts[j] < ctx.road.size() by {
                assert(problem.agents@[j].location_spec().index < problem.graph.node_total());
            }
            assert forall|j: int| 0 <= j < ctx.goals.len() implies #[trigger] ctx.goals[j] < ctx.road.size() by {
                assert(problem.agents@[j].goal_spec().index < problem.graph.node_total());
            }
            assert forall|j: int| 0 <= j < ctx.h.len() implies (#[trigger] ctx.h[j]).len() == ctx.road.size() by {
                assert(htab.deep_view()[j] == htab@[j].deep_view());
            }
            assert(ctx.fits());
            assert forall|j: int, x: int| 0 <= j < ctx.n() && 0 <= x < ctx.road.size() implies #[trigger] ctx.h[j][x]
                == 0 by {
                assert(htab.deep_view()[j] == htab@[j].deep_view());
                assert(htab@[j]@[x] == 0);
            }
            assert forall|j: int, a: int, k: int|
                0 <= j < ctx.n() && 0 <= a < ctx.road.size() && 0 <= k < ctx.road.adj@[a]@.len() implies #[trigger] steady(
                ctx,
                j,
                a,
                k,
            ) by {
                assert(ctx.road.adj@[a]@[k].0 < ctx.road.adj@.len());
                assert(ctx.h[j][a] == 0);
                assert(ctx.h[j][ctx.road.adj@[a]@[k].0 as int] == 0);
            }
            assert forall|j: int| 0 <= j < ctx.n() implies (#[trigger] ctx.h[j])[ctx.goals[j] as int] == 0 by {
                assert(ctx.h[j][ctx.goals[j] as int] == 0);
            }
            assert(tables_fit(ctx));
        }
    }
    Ok(Prepared { road, starts, goals, ids, htab })
}

/// Routes with the same whereabouts have the same total cost.
pub proof fn lemma_same_total(arcs: Set<(int, int, int)>, paths: Seq<Seq<usize>>, routes: Seq<Seq<usize>>)
    requires
        paths.len() == routes.len(),
        forall|i: int|
            0 <= i < paths.len() ==> same_whereabouts(#[trigger] paths[i], routes[i]) && is_route(
                arcs,
                paths[i],
                paths[i][0] as int,
                paths[i][paths[i].len() - 1] as int,
            ),
    ensures
        total_cost(arcs, paths) == total_cost(arcs, routes),
    decreases paths.len(),
{
    if paths.len() > 0 {
        let a = paths.drop_last();
        let b = routes.drop_last();
        assert forall|i: int| 0 <= i < a.len() implies same_whereabouts(#[trigger] a[i], b[i]) && is_route(
            arcs,
            a[i],
            a[i][0] as int,
            a[i][a[i].len() - 1] as int,
        ) by {
            assert(a[i] == paths[i]);
            assert(b[i] == routes[i]);
        }
        lemma_same_total(arcs, a, b);
        let last = paths.len() - 1;
        assert(same_whereabouts(paths[last], routes[last]));
        lemma_same_route(
            arcs,
            paths[last],
            routes[last],
            paths[last][0] as int,
            paths[last][paths[last].len() - 1] as int,
        );
    }
}

/// Routes with the same whereabouts as a solution are a solution, and as
/// cheap.
pub proof fn lemma_same_plan(
    arcs: Set<(int, int, int)>,
    starts: Seq<usize>,
    goals: Seq<usize>,
    paths: Seq<Seq<usize>>,
    routes: Seq<Seq<usize>>,
)
    requires
        is_solution(arcs, starts, goals, paths),
        paths.len() == routes.len(),
        forall|i: int| 0 <= i < paths.len() ==> same_whereabouts(#[trigger] paths[i], routes[i]),
    ensures
        is_solution(arcs, starts, goals, routes),
        total_cost(arcs, routes) == total_cost(arcs, paths),
        is_optimal(arcs, starts, goals, paths) ==> is_optimal(arcs, starts, goals, routes),
{
    assert forall|i: int| 0 <= i < routes.len() implies is_route(
        arcs,
        #[trigger] routes[i],
        starts[i] as int,
        goals[i] as int,
    ) by {
        assert(same_whereabouts(paths[i], routes[i]));
        assert(is_route(arcs, paths[i], starts[i] as int, goals[i] as int));
        lemma_same_route(arcs, paths[i], routes[i], starts[i] as int, goals[i] as int);
    }
    assert forall|i: int, j: int, t: int| 0 <= i < j < routes.len() && 0 <= t implies !#[trigger] collide(
        routes[i],
        routes[j],
        t,
    ) by {
        assert(same_whereabouts(paths[i], routes[i]));
        assert(same_whereabouts(paths[j], routes[j]));
        assert(!collide(paths[i], paths[j], t));
        assert(at(paths[i], t) == at(routes[i], t));
        assert(at(paths[j], t) == at(routes[j], t));
        assert(at(paths[i], t + 1) == at(routes[i], t + 1));
        assert(at(paths[j], t + 1) == at(routes[j], t + 1));
    }
    assert forall|i: int| 0 <= i < paths.len() implies same_whereabouts(#[trigger] paths[i], routes[i]) && is_route(
        arcs,
        paths[i],
        paths[i][0] as int,
        paths[i][paths[i].len() - 1] as int,
    ) by {
        assert(is_route(arcs, paths[i], starts[i] as int, goals[i] as int));
    }
    lemma_same_total(arcs, paths, routes);
}

/// Hands out the routes: each without the waits at its end, under the
/// identifier of its agent.
pub fn publish(ids: &Vec<usize>, paths: &Vec<Vec<usize>>) -> (answer: HashMap<usize, Path>)
    requires
        ids@.len() == paths@.len(),
        distinct(ids@),
        forall|i: int| 0 <= i < paths@.len() ==> (#[trigger] paths@[i])@.len() >= 1,
    ensures
        forall|id: usize|
            answer@.contains_key(id) <==> exists|i: int| 0 <= i < ids@.len() && #[trigger] ids@[i] == id,
        forall|i: int|
            0 <= i < ids@.len() ==> same_whereabouts(
                (#[trigger] paths@[i])@,
                answer@[ids@[i]].indices(),
            ) && !ends_waiting(answer@[ids@[i]].indices()),
{
    broadcast use vstd::std_specs::hash::group_hash_axioms;

    let mut answer: HashMap<usize, Path> = HashMap::new();
    let mut i: usize = 0;
    while i < ids.len()
        invariant
            0 <= i <= ids@.len(),
            ids@.len() == paths@.len(),
            distinct(ids@),
            forall|x: int| 0 <= x < paths@.len() ==> (#[trigger] paths@[x])@.len() >= 1,
            forall|id: usize|
                answer@.contains_key(id) <==> exists|x: int| 0 <= x < i && #[trigger] ids@[x] == id,
            forall|x: int|
                0 <= x < i ==> same_whereabouts(
                    (#[trigger] paths@[x])@,
                    answer@[ids@[x]].indices(),
                ) && !ends_waiting(answer@[ids@[x]].indices()),
        decreases ids@.len() - i,
    {
        let short = trim(&paths[i]);
        let route = Path::from_indices(&short);
        let ghost before = answer@;
        answer.insert(ids[i], route);
        proof {
            assert(answer@ == before.insert(ids@[i as int], route));
            assert forall|id: usize| answer@.contains_key(id) <==> exists|x: int|
                0 <= x < i + 1 && #[trigger] ids@[x] == id by {
                if answer@.contains_key(id) {
                    if id == ids@[i as int] {
                    } else {
                        assert(before.contains_key(id));
                        let x = choose|x: int| 0 <= x < i && #[trigger] ids@[x] == id;
                        assert(0 <= x < i + 1 && ids@[x] == id);
                    }
                }
                if exists|x: int| 0 <= x < i + 1 && #[trigger] ids@[x] == id {
                    let x = choose|x: int| 0 <= x < i + 1 && #[trigger] ids@[x] == id;
                    if x < i {
                        assert(before.contains_key(id));
                    }
                }
            }
            assert forall|x: int| 0 <= x < i + 1 implies same_whereabouts(
                (#[trigger] paths@[x])@,
                answer@[ids@[x]].indices(),
            ) && !ends_waiting(answer@[ids@[x]].indices()) by {
                if x < i {
                    assert(ids@[x] != ids@[i as int]);
                    assert(answer@[ids@[x]] == before[ids@[x]]);
                }
            }
        }
        i += 1;
    }
    answer
}

/// The routes that `publish` hands out solve the problem that the routes
/// it was given solve, at the same cost.
pub proof fn lemma_published<G: GraphLike, AGENT: Agent, DH: DistanceHeuristic<G>>(
    problem: &MAPFProblem<G, AGENT, DH>,
    paths: Seq<Seq<usize>>,
    answer: Map<usize, Path>,
)
    requires
        is_solution(problem.arcs(), problem.starts(), problem.goals(), paths),
        forall|i: int|
            0 <= i < paths.len() ==> same_whereabouts(#[trigger] paths[i], answer[problem.identifiers()[i]].indices()),
    ensures
        is_solution(problem.arcs(), problem.starts(), problem.goals(), routes_of(problem, answer)),
        is_optimal(problem.arcs(), problem.starts(), problem.goals(), paths) ==> is_optimal(
            problem.arcs(),
            problem.starts(),
            problem.goals(),
            routes_of(problem, answer),
        ),
{
    let routes = routes_of(problem, answer);
    assert forall|i: int| 0 <= i < paths.len() implies same_whereabouts(#[trigger] paths[i], routes[i]) by {
        assert(same_whereabouts(paths[i], answer[problem.identifiers()[i]].indices()));
    }
    lemma_same_plan(problem.arcs(), problem.starts(), problem.goals(), paths, routes);
}

/// Hands out routes that solve the problem, and keeps what holds of them.
pub fn hand_out<G: GraphLike, AGENT: Agent, DH: DistanceHeuristic<G>>(
    problem: &MAPFProblem<G, AGENT, DH>,
    prep: &Prepared,
    paths: &Vec<Vec<usize>>,
) -> (answer: HashMap<usize, Path>)
    requires
        problem.wf(),
        prepared_for(problem, prep),
        is_solution(problem.arcs(), problem.starts(), problem.goals(), paths.deep_view()),
    ensures
        forall|id: usize|
            answer@.contains_key(id) <==> exists|i: int|
                0 <= i < problem.agents@.len() && #[trigger] problem.identifiers()[i] == id,
        is_solution(problem.arcs(), problem.starts(), problem.goals(), routes_of(problem, answer@)),
        forall|i: int| 0 <= i < problem.agents@.len() ==> !ends_waiting(#[trigger] routes_of(problem, answer@)[i]),
        is_optimal(problem.arcs(), problem.starts(), problem.goals(), paths.deep_view()) ==> is_optimal(
            problem.arcs(),
            problem.starts(),
            problem.goals(),
            routes_of(problem, answer@),
        ),
{
    proof {
        let all = paths.deep_view();
        assert forall|i: int| 0 <= i < paths@.len() implies (#[trigger] paths@[i])@.len() >= 1 by {
            assert(all[i] == paths@[i]@);
            assert(is_route(problem.arcs(), all[i], problem.starts()[i] as int, problem.goals()[i] as int));
        }
        assert forall|a: int, b: int| 0 <= a < b < prep.ids@.len() implies prep.ids@[a] != prep.ids@[b] by {
            assert(problem.agents@[a].identifier_spec() != problem.agents@[b].identifier_spec());
        }
    }
    let answer = publish(&prep.ids, paths);
    proof {
        let all = paths.deep_view();
        assert forall|i: int| 0 <= i < all.len() implies same_whereabouts(
            #[trigger] all[i],
            answer@[problem.identifiers()[i]].indices(),
        ) by {
            assert(all[i] == paths@[i]@);
        }
        lemma_published(problem, all, answer@);
        assert forall|i: int| 0 <= i < problem.agents@.len() implies !ends_waiting(
            #[trigger] routes_of(problem, answer@)[i],
        ) by {
            assert(paths@[i]@.len() >= 1);
            assert(!ends_waiting(answer@[prep.ids@[i]].indices()));
        }
    }
    answer
}

/// Where an agent cannot reach its goal, the problem has no solution.
pub proof fn lemma_unreachable<G: GraphLike, AGENT: Agent, DH: DistanceHeuristic<G>>(
    problem: &MAPFProblem<G, AGENT, DH>,
    i: int,
)
    requires
        0 <= i < problem.agents@.len(),
        !reachable(problem, i),
    ensures
        forall|q: Seq<Seq<usize>>| !is_solution(problem.arcs(), problem.starts(), problem.goals(), q),
{
    assert forall|q: Seq<Seq<usize>>| !is_solution(problem.arcs(), problem.starts(), problem.goals(), q) by {
        if is_solution(problem.arcs(), problem.starts(), problem.goals(), q) {
            assert(is_route(problem.arcs(), q[i], problem.starts()[i] as int, problem.goals()[i] as int));
        }
    }
}

/// The answer to a problem without agents: no routes.
pub(crate) fn answer_of_none<G: GraphLike, AGENT: Agent, DH: DistanceHeuristic<G>>(
    problem: &MAPFProblem<G, AGENT, DH>,
    prep: &Prepared,
) -> (answer: HashMap<usize, Path>)
    requires
        problem.wf(),
        prepared_for(problem, prep),
        problem.estimates_defined(),
        problem.agents@.len() == 0,
    ensures
        forall|budget: int| solved(problem, budget, Ok::<HashMap<usize, Path>, MapfError>(answer)),
{
    let paths: Vec<Vec<usize>> = Vec::new();
    proof {
        assert(paths.deep_view().len() == 0);
        assert forall|other: Seq<Seq<usize>>| #[trigger]
            is_solution(problem.arcs(), problem.starts(), problem.goals(), other) implies total_cost(
            problem.arcs(),
            paths.deep_view(),
        ) <= total_cost(problem.arcs(), other) by {
            assert(other.len() == 0);
        }
    }
    hand_out(problem, prep, &paths)
}

/// Splits a budget: where it is enough for the exhaustive search, that
/// much is set aside, and the rest is for the solver's own search.
pub(crate) fn set_aside(prep: &Prepared, budget: usize) -> (r: (usize, Option<usize>))
    requires
        prep.road.size() >= 1,
        prep.starts@.len() >= 1,
    ensures
        match r.1 {
            Some(e) => e == search_enough(prep.road.size(), prep.starts@.len() as int, prep.road.widest()) && r.0
                + e == budget,
            None => r.0 == budget && budget < search_enough(
                prep.road.size(),
                prep.starts@.len() as int,
                prep.road.widest(),
            ),
        },
{
    match enough_for(&prep.road, prep.starts.len()) {
        Some(e) => {
            if budget >= e {
                (budget - e, Some(e))
            } else {
                (budget, None)
            }
        },
        None => (budget, None),
    }
}

/// Turns what a solver's own search found into the solver's answer. Where
/// that search gave up and fuel was set aside, the search of all agents
/// together decides.
pub(crate) fn settle<G: GraphLike, AGENT: Agent, DH: DistanceHeuristic<G>>(
    problem: &MAPFProblem<G, AGENT, DH>,
    prep: &Prepared,
    found: Result<Vec<Vec<usize>>, MapfError>,
    aside: Option<usize>,
    budget: usize,
) -> (r: Result<HashMap<usize, Path>, MapfError>)
    requires
        problem.wf(),
        prepared_for(problem, prep),
        problem.estimates_defined(),
        forall|i: int| 0 <= i < problem.agents@.len() ==> #[trigger] reachable(problem, i),
        prep.starts@.len() >= 1,
        match found {
            Ok(paths) => is_solution(problem.arcs(), problem.starts(), problem.goals(), paths.deep_view())
                && is_optimal(problem.arcs(), problem.starts(), problem.goals(), paths.deep_view()),
            Err(MapfError::NoSolution) => forall|q: Seq<Seq<usize>>|
                !is_solution(problem.arcs(), problem.starts(), problem.goals(), q),
            Err(MapfError::Timeout) => true,
            Err(_) => false,
        },
        match aside {
            Some(e) => e == search_enough(prep.road.size(), prep.starts@.len() as int, prep.road.widest()),
            None => found == Err::<Vec<Vec<usize>>, MapfError>(MapfError::Timeout) ==> budget < plan_enough(
                prep.road.size(),
                prep.starts@.len() as int,
                prep.road.widest(),
            ),
        },
    ensures
        solved(problem, budget as int, r),
{
    let ghost ctx = setting(&prep.road, prep.starts@, prep.goals@, prep.htab.deep_view());
    proof {
        assert(problem.agents@[0].location_spec().index < problem.graph.node_total());
        prep.road.lemma_widest(prep.road.size(), 0);
        lemma_plan_enough(
            prep.road.size(),
            prep.starts@.len() as int,
            prep.road.widest(),
            problem.graph.arc_total() as int,
        );
        lemma_fit_admissible(ctx);
    }
    match found {
        Ok(paths) => Ok(hand_out(problem, prep, &paths)),
        Err(MapfError::Timeout) => match aside {
            Some(e) => {
                let mut fuel = e;
                match search(&prep.road, &prep.starts, &prep.goals, &prep.htab, &mut fuel) {
                    Ok(paths) => Ok(hand_out(problem, prep, &paths)),
                    Err(e) => Err(e),
                }
            },
            None => Err(MapfError::Timeout),
        },
        Err(e) => Err(e),
    }
}

} // verus!
