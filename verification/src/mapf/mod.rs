//! The graph-agnostic problem model and the joint-search solvers.

use vstd::prelude::*;
use std::collections::HashMap;
use crate::mapf::agent::Agent;
use crate::mapf::conflicts::ends_waiting;
use crate::mapf::distance_heuristic::DistanceHeuristic;
use crate::mapf::graphlike::GraphLike;
use crate::mapf::mapf_problem::MAPFProblem;
use crate::mapf::independence::plan_enough;
use crate::mapf::plan::{is_optimal, is_route, is_solution, total_cost};

pub mod admissible;
pub mod agent;
pub mod astar_od_id;
pub mod bound;
pub mod conflicts;
pub mod counting;
pub mod distance_heuristic;
pub mod forest;
pub mod graph_specs;
pub mod graphlike;
pub mod grid;
pub mod groups;
pub mod heap;
pub mod independence;
pub mod index;
pub mod joint_search;
pub mod mapf_problem;
pub mod mstar;
pub mod mstar_bound;
pub mod plan;
pub mod policy;
pub mod roadmap;
pub mod setup;
pub mod sums;
pub mod trace;

verus! {

/// Identifier of a graph node: the position of the node in the order in
/// which the nodes were added to the graph.
#[derive(Clone, Copy, Debug, PartialEq, Eq, Structural, Hash)]
pub struct Location {
    pub index: usize,
}

impl Location {
    /// The location of the node that was added as number `index`.
    pub fn new(index: usize) -> (l: Location)
        ensures
            l.index == index,
    {
        Location { index }
    }

    /// The position of the node in the graph's node order.
    pub fn index(&self) -> (i: usize)
        ensures
            i == self.index,
    {
        self.index
    }
}

/// The route of one agent: its location at every timestep, from its start
/// at time 0 to its goal. A location that repeats is a wait.
#[derive(Debug)]
pub struct Path {
    pub path: Vec<Location>,
}

impl Path {
    /// The nodes of the route.
    pub open spec fn indices(&self) -> Seq<usize> {
        Seq::new(self.path@.len(), |t: int| self.path@[t].index)
    }

    /// The route over the given nodes.
    pub fn from_indices(nodes: &Vec<usize>) -> (p: Path)
        ensures
            p.indices() == nodes@,
    {
        let mut path: Vec<Location> = Vec::new();
        let mut t: usize = 0;
        while t < nodes.len()
            invariant
                0 <= t <= nodes@.len(),
                path@.len() == t,
                forall|s: int| 0 <= s < t ==> (#[trigger] path@[s]).index == nodes@[s],
            decreases nodes@.len() - t,
        {
            path.push(Location { index: nodes[t] });
            t += 1;
        }
        let p = Path { path };
        assert(p.indices() =~= nodes@);
        p
    }

    /// The number of timesteps of the route, the first included.
    pub fn len(&self) -> (n: usize)
        ensures
            n == self.indices().len(),
    {
        self.path.len()
    }
}

/// What can go wrong while a problem is built or solved.
#[derive(Clone, Copy, Debug, PartialEq, Eq, Structural)]
pub enum MapfError {
    /// A location is not in the graph, or lacks the payload that was asked for.
    NodeNotFound,
    /// Two agents share an identifier, or a start or goal is not in the graph.
    InvalidProblem,
    /// The search space was exhausted before every agent stood on its goal.
    NoSolution,
    /// The expansion budget ran out before the search ended.
    Timeout,
}

/// The routes that a solver's answer gives the agents, in the order of the
/// agents.
pub open spec fn routes_of<G: GraphLike, AGENT: Agent, DH: DistanceHeuristic<G>>(
    problem: &MAPFProblem<G, AGENT, DH>,
    answer: Map<usize, Path>,
) -> Seq<Seq<usize>> {
    Seq::new(problem.agents@.len(), |i: int| answer[problem.identifiers()[i]].indices())
}

/// Whether some route leads agent `i` from its location to its goal.
pub open spec fn reachable<G: GraphLike, AGENT: Agent, DH: DistanceHeuristic<G>>(
    problem: &MAPFProblem<G, AGENT, DH>,
    i: int,
) -> bool {
    exists|p: Seq<usize>| is_route(problem.arcs(), p, problem.starts()[i] as int, problem.goals()[i] as int)
}

/// A budget with which no solver gives up on the problem. It is made of
/// the number of nodes, the number of agents and the number of edges:
/// what a search of all agents together takes from its frontier at most,
/// for every search that planning by groups may make.
pub open spec fn enough<G: GraphLike, AGENT: Agent, DH: DistanceHeuristic<G>>(
    problem: &MAPFProblem<G, AGENT, DH>,
) -> int {
    plan_enough(
        problem.graph.node_total() as int,
        problem.agents@.len() as int,
        problem.graph.arc_total() as int,
    )
}

/// What every solver promises of its answer to a problem under a budget.
///
/// An answer holds one route per agent, under the agent's identifier. The
/// routes lead from the agents' locations to their goals, do not collide,
/// and do not end with a wait; no routes that solve the problem cost less
/// in all. `NoSolution` means that no routes exist that solve the problem,
/// which is the answer whenever some agent cannot reach its goal at all;
/// `NodeNotFound` that every agent can reach its goal and the heuristic has
/// no estimate from some node to some goal; `Timeout` that the budget is
/// less than `enough`.
pub open spec fn solved<G: GraphLike, AGENT: Agent, DH: DistanceHeuristic<G>>(
    problem: &MAPFProblem<G, AGENT, DH>,
    budget: int,
    r: Result<HashMap<usize, Path>, MapfError>,
) -> bool {
    &&& match r {
        Ok(answer) => {
            &&& problem.estimates_defined()
            &&& forall|id: usize|
                answer@.contains_key(id) <==> exists|i: int|
                    0 <= i < problem.agents@.len() && #[trigger] problem.identifiers()[i] == id
            &&& is_solution(problem.arcs(), problem.starts(), problem.goals(), routes_of(problem, answer@))
            &&& forall|i: int|
                0 <= i < problem.agents@.len() ==> !ends_waiting(#[trigger] routes_of(problem, answer@)[i])
            &&& is_optimal(problem.arcs(), problem.starts(), problem.goals(), routes_of(problem, answer@))
        },
        Err(MapfError::NodeNotFound) => !problem.estimates_defined() && forall|i: int|
            0 <= i < problem.agents@.len() ==> #[trigger] reachable(problem, i),
        Err(MapfError::NoSolution) => forall|q: Seq<Seq<usize>>|
            !is_solution(problem.arcs(), problem.starts(), problem.goals(), q),
        Err(MapfError::Timeout) => problem.estimates_defined() && budget < enough(problem) && forall|i: int|
            0 <= i < problem.agents@.len() ==> #[trigger] reachable(problem, i),
        Err(MapfError::InvalidProblem) => false,
    }
    &&& (exists|i: int| 0 <= i < problem.agents@.len() && !#[trigger] reachable(problem, i)) ==> r == Err::<
        HashMap<usize, Path>,
        MapfError,
    >(MapfError::NoSolution)
}

/// A way to solve multi-agent path finding problems.
pub trait MAPFAlgorithm<G: GraphLike, AGENT: Agent, DH: DistanceHeuristic<G>> {
    /// Routes for all agents of the problem, or why there are none, under
    /// the largest budget there is.
    fn solve(problem: &MAPFProblem<G, AGENT, DH>) -> (r: Result<HashMap<usize, Path>, MapfError>)
        requires
            problem.wf(),
        ensures
            solved(problem, usize::MAX as int, r),
    ;
}

/// Two answers to one problem cost the same, whichever solvers gave them
/// under whichever budgets.
pub proof fn lemma_answers_cost_the_same<G: GraphLike, AGENT: Agent, DH: DistanceHeuristic<G>>(
    problem: &MAPFProblem<G, AGENT, DH>,
    one: HashMap<usize, Path>,
    other: HashMap<usize, Path>,
    budget: int,
    purse: int,
)
    requires
        solved(problem, budget, Ok::<HashMap<usize, Path>, MapfError>(one)),
        solved(problem, purse, Ok::<HashMap<usize, Path>, MapfError>(other)),
    ensures
        total_cost(problem.arcs(), routes_of(problem, one@)) == total_cost(
            problem.arcs(),
            routes_of(problem, other@),
        ),
{
}

/// Under a budget that is enough, a solver whose heuristic covers the
/// graph answers with routes exactly when the problem has a solution, and
/// with `NoSolution` exactly when it has none.
pub proof fn lemma_enough_decides<G: GraphLike, AGENT: Agent, DH: DistanceHeuristic<G>>(
    problem: &MAPFProblem<G, AGENT, DH>,
    budget: int,
    r: Result<HashMap<usize, Path>, MapfError>,
)
    requires
        solved(problem, budget, r),
        budget >= enough(problem),
        problem.estimates_defined(),
    ensures
        r.is_ok() <==> exists|q: Seq<Seq<usize>>|
            is_solution(problem.arcs(), problem.starts(), problem.goals(), q),
        r.is_err() ==> r == Err::<HashMap<usize, Path>, MapfError>(MapfError::NoSolution),
{
    if r.is_ok() {
        assert(is_solution(problem.arcs(), problem.starts(), problem.goals(), routes_of(problem, r.unwrap()@)));
    }
}

} // verus!
