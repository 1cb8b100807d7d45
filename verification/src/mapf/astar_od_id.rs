//! A* with operator decomposition and independence detection.

use vstd::prelude::*;
use std::collections::HashMap;
use crate::mapf::agent::Agent;
use crate::mapf::distance_heuristic::DistanceHeuristic;
use crate::mapf::graphlike::GraphLike;
use crate::mapf::independence::plan_all;
use crate::mapf::mapf_problem::MAPFProblem;
use crate::mapf::joint_search::setting;
use crate::mapf::setup::{answer_of_none, lemma_fit_admissible, prepare, settle};
use crate::mapf::{solved, MAPFAlgorithm, MapfError, Path};

verus! {

/// The solver that plans every agent alone and lets only the agents whose
/// routes collide plan together, one decision per agent at a time.
pub struct AStarODID;

impl AStarODID {
    /// Solves the problem under a budget: the number of nodes that the
    /// searches may take from their frontiers in all.
    pub fn solve_within<G: GraphLike, AGENT: Agent, DH: DistanceHeuristic<G>>(
        problem: &MAPFProblem<G, AGENT, DH>,
        budget: usize,
    ) -> (r: Result<HashMap<usize, Path>, MapfError>)
        requires
            problem.wf(),
        ensures
            solved(problem, budget as int, r),
    {
        let prep = match prepare(problem) {
            Ok(prep) => prep,
            Err(e) => {
                return Err(e);
            },
        };
        if prep.starts.len() == 0 {
            return Ok(answer_of_none(problem, &prep));
        }
        proof {
            assert(problem.agents@[0].location_spec().index < problem.graph.node_total());
            lemma_fit_admissible(setting(&prep.road, prep.starts@, prep.goals@, prep.htab.deep_view()));
        }
        let mut fuel = budget;
        let found = plan_all(&prep.road, &prep.starts, &prep.goals, &prep.htab, &mut fuel);
        settle(problem, &prep, found, None, budget)
    }
}

impl<G: GraphLike, AGENT: Agent, DH: DistanceHeuristic<G>> MAPFAlgorithm<G, AGENT, DH> for AStarODID {
    /// Solves the problem under the largest budget there is.
    fn solve(problem: &MAPFProblem<G, AGENT, DH>) -> (r: Result<HashMap<usize, Path>, MapfError>) {
        AStarODID::solve_within(problem, usize::MAX)
    }
}

} // verus!
