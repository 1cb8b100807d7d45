//! A validated bundle of graph, agents and heuristic.

use vstd::prelude::*;
use crate::mapf::agent::Agent;
use crate::mapf::distance_heuristic::DistanceHeuristic;
use crate::mapf::graphlike::GraphLike;
use crate::mapf::plan::{arc_set, is_route, route_cost};
use crate::mapf::MapfError;

verus! {

/// A multi-agent path finding problem: where each agent is, where it wants
/// to be, on which graph, and how distances are estimated.
pub struct MAPFProblem<G, AGENT, DH> {
    pub graph: G,
    pub agents: Vec<AGENT>,
    pub distance_heuristic: DH,
}

/// The agents' identifiers, in the order of the agents.
pub open spec fn identifiers_of<AGENT: Agent>(agents: Seq<AGENT>) -> Seq<usize> {
    Seq::new(agents.len(), |i: int| agents[i].identifier_spec())
}

/// The agents' locations, in the order of the agents.
pub open spec fn starts_of<AGENT: Agent>(agents: Seq<AGENT>) -> Seq<usize> {
    Seq::new(agents.len(), |i: int| agents[i].location_spec().index)
}

/// The agents' goals, in the order of the agents.
pub open spec fn goals_of<AGENT: Agent>(agents: Seq<AGENT>) -> Seq<usize> {
    Seq::new(agents.len(), |i: int| agents[i].goal_spec().index)
}

/// Whether every agent stands on a node of the graph and wants to reach
/// one, and no two agents share an identifier.
pub open spec fn agents_fit<G: GraphLike, AGENT: Agent>(graph: &G, agents: Seq<AGENT>) -> bool {
    &&& forall|i: int|
        0 <= i < agents.len() ==> (#[trigger] agents[i]).location_spec().index < graph.node_total()
            && agents[i].goal_spec().index < graph.node_total()
    &&& forall|i: int, j: int|
        0 <= i < j < agents.len() ==> (#[trigger] agents[i]).identifier_spec() != (
        #[trigger] agents[j]).identifier_spec()
}

impl<G: GraphLike, AGENT: Agent, DH: DistanceHeuristic<G>> MAPFProblem<G, AGENT, DH> {
    /// The agents' identifiers.
    pub open spec fn identifiers(&self) -> Seq<usize> {
        identifiers_of(self.agents@)
    }

    /// The agents' locations.
    pub open spec fn starts(&self) -> Seq<usize> {
        starts_of(self.agents@)
    }

    /// The agents' goals.
    pub open spec fn goals(&self) -> Seq<usize> {
        goals_of(self.agents@)
    }

    /// The arcs of the graph.
    pub open spec fn arcs(&self) -> Set<(int, int, int)> {
        arc_set(&self.graph)
    }

    /// The invariant of a problem: see `agents_fit`.
    pub open spec fn wf(&self) -> bool {
        agents_fit(&self.graph, self.agents@)
    }

    /// Whether the heuristic has an estimate from every node to every goal.
    pub open spec fn estimates_defined(&self) -> bool {
        forall|i: int, v: int|
            0 <= i < self.agents@.len() && 0 <= v < self.graph.node_total() ==> (#[trigger] DH::estimate(
                &self.graph,
                v,
                self.goals()[i] as int,
            )).is_some()
    }

    /// Whether no estimate to an agent's goal exceeds the cost of a route
    /// to that goal.
    pub open spec fn heuristic_admissible(&self) -> bool {
        forall|i: int, p: Seq<usize>|
            0 <= i < self.agents@.len() && #[trigger] is_route(self.arcs(), p, p[0] as int, self.goals()[i] as int)
                && p[0] < self.graph.node_total() ==> match DH::estimate(
                &self.graph,
                p[0] as int,
                self.goals()[i] as int,
            ) {
                Some(e) => e <= route_cost(self.arcs(), p),
                None => true,
            }
    }

    /// Bundles graph, agents and heuristic, or reports `InvalidProblem`
    /// when an agent's location or goal is not in the graph or when two
    /// agents share an identifier.
    pub fn new(graph: G, agents: Vec<AGENT>, distance_heuristic: DH) -> (r: Result<Self, MapfError>)
        ensures
            match r {
                Ok(p) => agents_fit(&graph, agents@) && p.wf() && p.graph == graph && p.agents == agents
                    && p.distance_heuristic == distance_heuristic,
                Err(e) => e == MapfError::InvalidProblem && !agents_fit(&graph, agents@),
            },
    {
        let n = graph.node_count();
        let mut j: usize = 0;
        while j < agents.len()
            invariant
                0 <= j <= agents@.len(),
                n == graph.node_total(),
                forall|i: int|
                    0 <= i < j ==> (#[trigger] agents@[i]).location_spec().index < n && agents@[i].goal_spec().index
                        < n,
                forall|a: int, b: int|
                    0 <= a < b < j ==> (#[trigger] agents@[a]).identifier_spec() != (
                    #[trigger] agents@[b]).identifier_spec(),
            decreases agents@.len() - j,
        {
            if agents[j].location().index >= n || agents[j].goal().index >= n {
                return Err(MapfError::InvalidProblem);
            }
            let id = agents[j].identifier();
            let mut i: usize = 0;
            while i < j
                invariant
                    0 <= i <= j < agents@.len(),
                    id == agents@[j as int].identifier_spec(),
                    forall|a: int| 0 <= a < i ==> (#[trigger] agents@[a]).identifier_spec() != id,
                decreases j - i,
            {
                if agents[i].identifier() == id {
                    return Err(MapfError::InvalidProblem);
                }
                i += 1;
            }
            j += 1;
        }
        Ok(MAPFProblem { graph, agents, distance_heuristic })
    }
}

} // verus!
