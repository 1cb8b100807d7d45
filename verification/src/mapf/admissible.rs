//! Which heuristics never overestimate, and what that is good for.

use vstd::prelude::*;
use crate::mapf::agent::Agent;
use crate::mapf::distance_heuristic::{
    axis_gap, floor_sqrt, is_floor_sqrt, lemma_floor_sqrt_exists, offsets, squared_length, DistanceHeuristic,
    Euclidean, Manhattan, Trivial,
};
use crate::mapf::graphlike::GraphLike;
use crate::mapf::grid::{adjacent_cells, cell_of, Grid};
use crate::mapf::mapf_problem::MAPFProblem;
use crate::mapf::plan::{
    arc_set, arcs_within, at, cost_upto, is_optimal, is_route, is_solution,
    lemma_cost_monotone, lemma_legal_step_cost, lemma_route_steps, lemma_route_within, route_cost, step_cost,
    total_cost,
};

verus! {

/// The arcs of a graph join its nodes.
pub proof fn lemma_graph_arcs_within<G: GraphLike>(graph: &G)
    ensures
        arcs_within(arc_set(graph), graph.node_total() as int),
{
    assert forall|a: int, b: int, w: int| #[trigger] arc_set(graph).contains((a, b, w)) implies 0 <= a
        < graph.node_total() && 0 <= b < graph.node_total() && 0 <= w <= usize::MAX by {
        graph.arc_within(a, b, w);
    }
}

/// The estimate that is always 0 is admissible on every graph.
pub proof fn lemma_trivial_admissible<G: GraphLike, AGENT: Agent>(problem: &MAPFProblem<G, AGENT, Trivial>)
    ensures
        problem.heuristic_admissible(),
{
    lemma_graph_arcs_within(&problem.graph);
    assert forall|i: int, p: Seq<usize>|
        0 <= i < problem.agents@.len() && #[trigger] is_route(
            problem.arcs(),
            p,
            p[0] as int,
            problem.goals()[i] as int,
        ) && p[0] < problem.graph.node_total() implies match <Trivial as DistanceHeuristic<G>>::estimate(
        &problem.graph,
        p[0] as int,
        problem.goals()[i] as int,
    ) {
        Some(e) => e <= route_cost(problem.arcs(), p),
        None => true,
    } by {
        lemma_cost_monotone(problem.arcs(), problem.graph.node_total() as int, p, 0, p.len() - 1);
    }
}

/// The sum of the row and column distances between two cells.
pub open spec fn cell_gap(a: (usize, usize), b: (usize, usize)) -> nat {
    axis_gap(a.0, b.0) + axis_gap(a.1, b.1)
}

/// On a grid, the distance in cells to the goal shrinks by no more along a
/// route than the route costs.
proof fn lemma_grid_gap(grid: &Grid, p: Seq<usize>, goal: int, t: int)
    requires
        grid.wf(),
        is_route(arc_set(grid), p, p[0] as int, goal),
        p[0] < grid.node_total(),
        0 <= t,
    ensures
        cell_gap(cell_of(p[0] as int, grid.columns() as int), cell_of(goal, grid.columns() as int)) <= cell_gap(
            cell_of(at(p, t), grid.columns() as int),
            cell_of(goal, grid.columns() as int),
        ) + cost_upto(arc_set(grid), p, t),
    decreases t,
{
    if t > 0 {
        let arcs = arc_set(grid);
        let m = grid.columns() as int;
        lemma_grid_gap(grid, p, goal, t - 1);
        lemma_graph_arcs_within(grid);
        lemma_route_steps(arcs, p, t - 1);
        let a = at(p, t - 1);
        let b = at(p, t);
        lemma_legal_step_cost(arcs, grid.node_total() as int, a, b);
        if a != b {
            let w = step_cost(arcs, a, b);
            assert(arcs.contains((a, b, w)));
            grid.lemma_arcs(a, b, w);
            assert(adjacent_cells(cell_of(a, m), cell_of(b, m)));
        }
    }
}

/// On a grid the distance in cells never exceeds the cost of a route.
pub proof fn lemma_grid_gap_admissible(grid: &Grid, p: Seq<usize>, goal: int)
    requires
        grid.wf(),
        is_route(arc_set(grid), p, p[0] as int, goal),
        p[0] < grid.node_total(),
    ensures
        goal < grid.node_total(),
        offsets(grid, p[0] as int, goal) == Some(
            (
                axis_gap(
                    cell_of(p[0] as int, grid.columns() as int).0,
                    cell_of(goal, grid.columns() as int).0,
                ),
                axis_gap(
                    cell_of(p[0] as int, grid.columns() as int).1,
                    cell_of(goal, grid.columns() as int).1,
                ),
            ),
        ),
        cell_gap(cell_of(p[0] as int, grid.columns() as int), cell_of(goal, grid.columns() as int)) <= route_cost(
            arc_set(grid),
            p,
        ),
{
    lemma_graph_arcs_within(grid);
    lemma_route_within(arc_set(grid), grid.node_total() as int, p, p.len() - 1);
    lemma_grid_gap(grid, p, goal, p.len() - 1);
    grid.lemma_arcs(p[0] as int, goal, 1);
    grid.lemma_arcs(goal, goal, 1);
}

/// The Manhattan estimate is admissible on a grid.
pub proof fn lemma_manhattan_admissible<AGENT: Agent>(problem: &MAPFProblem<Grid, AGENT, Manhattan>)
    requires
        problem.graph.wf(),
    ensures
        problem.heuristic_admissible(),
{
    assert forall|i: int, p: Seq<usize>|
        0 <= i < problem.agents@.len() && #[trigger] is_route(
            problem.arcs(),
            p,
            p[0] as int,
            problem.goals()[i] as int,
        ) && p[0] < problem.graph.node_total() implies match <Manhattan as DistanceHeuristic<Grid>>::estimate(
        &problem.graph,
        p[0] as int,
        problem.goals()[i] as int,
    ) {
        Some(e) => e <= route_cost(problem.arcs(), p),
        None => true,
    } by {
        lemma_grid_gap_admissible(&problem.graph, p, problem.goals()[i] as int);
    }
}

/// The whole part of the hypotenuse is no longer than the two sides
/// together.
pub proof fn lemma_hypotenuse_shorter(dx: nat, dy: nat)
    ensures
        floor_sqrt(squared_length((dx, dy))) <= dx + dy,
{
    let s = squared_length((dx, dy));
    lemma_floor_sqrt_exists(s);
    let r = floor_sqrt(s);
    assert(is_floor_sqrt(r, s));
    if r > dx + dy {
        assert(r * r >= (dx + dy + 1) * (dx + dy + 1)) by (nonlinear_arith)
            requires
                r >= dx + dy + 1,
        ;
        assert((dx + dy + 1) * (dx + dy + 1) > dx * dx + dy * dy) by (nonlinear_arith);
    }
}

/// The Euclidean estimate is admissible on a grid.
pub proof fn lemma_euclidean_admissible<AGENT: Agent>(problem: &MAPFProblem<Grid, AGENT, Euclidean>)
    requires
        problem.graph.wf(),
    ensures
        problem.heuristic_admissible(),
{
    assert forall|i: int, p: Seq<usize>|
        0 <= i < problem.agents@.len() && #[trigger] is_route(
            problem.arcs(),
            p,
            p[0] as int,
            problem.goals()[i] as int,
        ) && p[0] < problem.graph.node_total() implies match <Euclidean as DistanceHeuristic<Grid>>::estimate(
        &problem.graph,
        p[0] as int,
        problem.goals()[i] as int,
    ) {
        Some(e) => e <= route_cost(problem.arcs(), p),
        None => true,
    } by {
        let goal = problem.goals()[i] as int;
        lemma_grid_gap_admissible(&problem.graph, p, goal);
        let d = offsets(&problem.graph, p[0] as int, goal).unwrap();
        lemma_hypotenuse_shorter(d.0, d.1);
    }
}

/// Where there is one agent, routes that nothing undercuts are a cheapest
/// route from the agent's location to its goal.
pub proof fn lemma_single_agent_shortest(
    arcs: Set<(int, int, int)>,
    starts: Seq<usize>,
    goals: Seq<usize>,
    routes: Seq<Seq<usize>>,
    p: Seq<usize>,
)
    requires
        starts.len() == 1,
        goals.len() == 1,
        routes.len() == 1,
        is_optimal(arcs, starts, goals, routes),
        is_route(arcs, p, starts[0] as int, goals[0] as int),
    ensures
        route_cost(arcs, routes[0]) <= route_cost(arcs, p),
{
    let other = seq![p];
    assert(is_solution(arcs, starts, goals, other));
    assert(other.drop_last().len() == 0);
    assert(routes.drop_last().len() == 0);
    assert(total_cost(arcs, other.drop_last()) == 0);
    assert(total_cost(arcs, routes.drop_last()) == 0);
    assert(other.last() == p);
    assert(routes.last() == routes[0]);
    assert(total_cost(arcs, other) == route_cost(arcs, p));
    assert(total_cost(arcs, routes) == route_cost(arcs, routes[0]));
}

} // verus!
