use mapfm::mapf::agent::{Agent, SimpleAgent};
use mapfm::mapf::distance_heuristic::Trivial;
use mapfm::mapf::graphlike::GraphLike;
use mapfm::mapf::grid::Grid;
use mapfm::mapf::mapf_problem::MAPFProblem;
use mapfm::mapf::{Location, MapfError};
use petgraph::graph::Graph;
use petgraph::Undirected;

#[test]
fn mapf_problem_test_with_graph() {
    let g = Graph::<(), usize>::new();

    // test if this compiles
    let _ = MAPFProblem::new(g, Vec::<SimpleAgent>::new(), Trivial);
}

#[test]
fn mapf_problem_test_with_grid() {
    let g = Grid::new(2, 2);

    // test if this compiles
    let _ = MAPFProblem::new(g, Vec::<SimpleAgent>::new(), Trivial);
}

#[test]
fn a_problem_keeps_what_it_was_given() {
    let g = Grid::new(2, 2);
    let a = SimpleAgent::new(Location::new(0), Location::new(3), 5);
    let b = SimpleAgent::new(Location::new(1), Location::new(2), 6);
    let p = MAPFProblem::new(g, vec![a, b], Trivial).unwrap();
    assert_eq!(p.agents.len(), 2);
    assert_eq!(p.agents[0].identifier(), 5);
    assert_eq!(p.agents[1].location(), Location::new(1));
    assert_eq!(p.agents[1].goal(), Location::new(2));
    assert_eq!(GraphLike::node_count(&p.graph), 4);
}

#[test]
fn shared_identifiers_are_invalid() {
    let g = Grid::new(2, 2);
    let a = SimpleAgent::new(Location::new(0), Location::new(3), 5);
    let b = SimpleAgent::new(Location::new(1), Location::new(2), 5);
    assert_eq!(MAPFProblem::new(g, vec![a, b], Trivial).err(), Some(MapfError::InvalidProblem));
}

#[test]
fn locations_outside_the_graph_are_invalid() {
    let a = SimpleAgent::new(Location::new(4), Location::new(3), 1);
    assert_eq!(MAPFProblem::new(Grid::new(2, 2), vec![a], Trivial).err(), Some(MapfError::InvalidProblem));
    let b = SimpleAgent::new(Location::new(0), Location::new(4), 1);
    assert_eq!(MAPFProblem::new(Grid::new(2, 2), vec![b], Trivial).err(), Some(MapfError::InvalidProblem));
    let c = SimpleAgent::new(Location::new(0), Location::new(0), 1);
    let empty = Graph::<(usize, usize), usize, Undirected>::new_undirected();
    assert_eq!(MAPFProblem::new(empty, vec![c], Trivial).err(), Some(MapfError::InvalidProblem));
}

#[test]
fn cells_outside_the_grid_are_invalid() {
    let g = Grid::new(3, 4);
    assert_eq!(g.agent_at((3, 0), (0, 0), 1).err(), Some(MapfError::InvalidProblem));
    assert_eq!(g.agent_at((0, 0), (0, 4), 1).err(), Some(MapfError::InvalidProblem));
    let a = g.agent_at((2, 3), (0, 1), 9).unwrap();
    assert_eq!(a.location(), Location::new(11));
    assert_eq!(a.goal(), Location::new(1));
    assert_eq!(a.identifier(), 9);
}

#[test]
fn agents_can_be_moved() {
    let mut a = SimpleAgent::new(Location::new(0), Location::new(3), 5);
    a.set_location(Location::new(2));
    assert_eq!(a.location(), Location::new(2));
    assert_eq!(a.goal(), Location::new(3));
    a.set_goal(Location::new(1));
    assert_eq!(a.goal(), Location::new(1));
    assert_eq!(a.location(), Location::new(2));
    assert_eq!(a.identifier(), 5);
}
