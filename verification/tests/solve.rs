use mapfm::mapf::agent::SimpleAgent;
use mapfm::mapf::astar_od_id::AStarODID;
use mapfm::mapf::distance_heuristic::{DistanceHeuristic, Euclidean, Manhattan, Trivial};
use mapfm::mapf::graphlike::GraphLike;
use mapfm::mapf::grid::Grid;
use mapfm::mapf::mapf_problem::MAPFProblem;
use mapfm::mapf::mstar::MStar;
use mapfm::mapf::roadmap::Roadmap;
use mapfm::mapf::setup::enough_for;
use mapfm::mapf::{Location, MAPFAlgorithm, MapfError, Path};
use petgraph::graph::Graph;
use petgraph::Undirected;
use std::collections::HashMap;

fn indices(p: &Path) -> Vec<usize> {
    p.path.iter().map(|l| l.index()).collect()
}

fn at(r: &Vec<usize>, t: usize) -> usize {
    r[t.min(r.len() - 1)]
}

/// The weight of the lightest arc from `a` to `b`.
fn lightest<G: GraphLike>(g: &G, a: usize, b: usize) -> usize {
    g.neighbors(Location::new(a)).iter().filter(|(l, _)| l.index() == b).map(|(_, w)| *w).min().unwrap()
}

/// Checks that the answer solves the problem and returns what it costs.
fn checked_cost<G: GraphLike, DH: DistanceHeuristic<G>>(
    problem: &MAPFProblem<G, SimpleAgent, DH>,
    answer: &HashMap<usize, Path>,
) -> usize {
    assert_eq!(answer.len(), problem.agents.len());
    let routes: Vec<Vec<usize>> = problem.agents.iter().map(|a| indices(&answer[&a.identifier])).collect();
    let mut cost = 0;
    for (a, r) in problem.agents.iter().zip(routes.iter()) {
        assert_eq!(r[0], a.location.index());
        assert_eq!(r[r.len() - 1], a.goal.index());
        assert!(r.len() < 2 || r[r.len() - 1] != r[r.len() - 2]);
        for w in r.windows(2) {
            if w[0] != w[1] {
                cost += lightest(&problem.graph, w[0], w[1]);
            }
        }
    }
    let end = routes.iter().map(|r| r.len()).max().unwrap_or(0);
    for i in 0..routes.len() {
        for j in i + 1..routes.len() {
            for t in 0..end {
                assert_ne!(at(&routes[i], t), at(&routes[j], t));
                assert!(
                    !(at(&routes[i], t + 1) == at(&routes[j], t) && at(&routes[j], t + 1) == at(&routes[i], t))
                );
            }
        }
    }
    cost
}

fn grid_problem<DH: DistanceHeuristic<Grid>>(
    n: usize,
    m: usize,
    agents: &[((usize, usize), (usize, usize))],
    dh: DH,
) -> MAPFProblem<Grid, SimpleAgent, DH> {
    let g = Grid::new(n, m);
    let agents = agents.iter().enumerate().map(|(i, (s, t))| g.agent_at(*s, *t, 100 + i).unwrap()).collect();
    MAPFProblem::new(g, agents, dh).unwrap()
}

#[test]
fn single_agent_walks_the_shortest_way() {
    let g = Grid::new(3, 3);
    let a = SimpleAgent::new(g.node_at(0, 0).unwrap(), g.node_at(2, 2).unwrap(), 7);
    let problem = MAPFProblem::new(g, vec![a], Manhattan).unwrap();
    let answer = AStarODID::solve(&problem).unwrap();
    assert_eq!(answer.len(), 1);
    let route = indices(&answer[&7]);
    assert_eq!(route.len(), 5);
    assert_eq!(route[0], 0);
    assert_eq!(route[4], 8);
    assert_eq!(checked_cost(&problem, &answer), 4);
}

#[test]
fn single_agent_cost_is_the_same_under_every_heuristic() {
    let pairs = [((0, 0), (4, 4)), ((4, 0), (0, 3)), ((2, 2), (2, 2)), ((1, 3), (3, 0))];
    for (s, t) in pairs {
        let want = s.0.max(t.0) - s.0.min(t.0) + s.1.max(t.1) - s.1.min(t.1);
        let p = grid_problem(5, 5, &[(s, t)], Trivial);
        assert_eq!(checked_cost(&p, &AStarODID::solve(&p).unwrap()), want);
        assert_eq!(checked_cost(&p, &MStar::solve(&p).unwrap()), want);
        let p = grid_problem(5, 5, &[(s, t)], Manhattan);
        assert_eq!(checked_cost(&p, &AStarODID::solve(&p).unwrap()), want);
        assert_eq!(checked_cost(&p, &MStar::solve(&p).unwrap()), want);
        let p = grid_problem(5, 5, &[(s, t)], Euclidean);
        assert_eq!(checked_cost(&p, &AStarODID::solve(&p).unwrap()), want);
        assert_eq!(checked_cost(&p, &MStar::solve(&p).unwrap()), want);
    }
}

#[test]
fn an_agent_on_its_goal_stays() {
    let p = grid_problem(2, 2, &[((1, 1), (1, 1))], Manhattan);
    let answer = AStarODID::solve(&p).unwrap();
    assert_eq!(indices(&answer[&100]), vec![3]);
    let answer = MStar::solve(&p).unwrap();
    assert_eq!(indices(&answer[&100]), vec![3]);
}

#[test]
fn no_agents_no_routes() {
    let p = MAPFProblem::new(Grid::new(2, 2), Vec::<SimpleAgent>::new(), Trivial).unwrap();
    assert_eq!(AStarODID::solve(&p).unwrap().len(), 0);
    assert_eq!(MStar::solve(&p).unwrap().len(), 0);
}

#[test]
fn two_agents_swap_ends_of_a_corridor_with_a_bay() {
    let p = grid_problem(2, 3, &[((0, 0), (0, 2)), ((0, 2), (0, 0))], Trivial);
    assert_eq!(checked_cost(&p, &AStarODID::solve(&p).unwrap()), 6);
    assert_eq!(checked_cost(&p, &MStar::solve(&p).unwrap()), 6);
}

#[test]
fn two_agents_cannot_swap_in_a_corridor() {
    let p = grid_problem(1, 3, &[((0, 0), (0, 2)), ((0, 2), (0, 0))], Manhattan);
    assert_eq!(AStarODID::solve(&p).err(), Some(MapfError::NoSolution));
    assert_eq!(MStar::solve(&p).err(), Some(MapfError::NoSolution));
}

#[test]
fn agents_that_share_a_start_have_no_solution() {
    let p = grid_problem(2, 2, &[((0, 0), (0, 1)), ((0, 0), (1, 0))], Manhattan);
    assert_eq!(AStarODID::solve(&p).err(), Some(MapfError::NoSolution));
    assert_eq!(MStar::solve(&p).err(), Some(MapfError::NoSolution));
}

#[test]
fn agents_that_share_a_goal_have_no_solution() {
    let p = grid_problem(2, 2, &[((0, 0), (1, 1)), ((0, 1), (1, 1))], Manhattan);
    assert_eq!(AStarODID::solve(&p).err(), Some(MapfError::NoSolution));
    assert_eq!(MStar::solve(&p).err(), Some(MapfError::NoSolution));
}

#[test]
fn independent_agents_keep_their_own_routes() {
    let p = grid_problem(3, 3, &[((0, 0), (0, 2)), ((2, 0), (2, 2))], Manhattan);
    assert_eq!(checked_cost(&p, &AStarODID::solve(&p).unwrap()), 4);
    assert_eq!(checked_cost(&p, &MStar::solve(&p).unwrap()), 4);
}

#[test]
fn crossing_agents_give_way() {
    let p = grid_problem(3, 3, &[((1, 0), (1, 2)), ((0, 1), (2, 1))], Manhattan);
    let a = AStarODID::solve(&p).unwrap();
    let m = MStar::solve(&p).unwrap();
    assert_eq!(checked_cost(&p, &a), 4);
    assert_eq!(checked_cost(&p, &m), 4);
}

#[test]
fn both_solvers_agree_on_the_cost() {
    let cases: Vec<Vec<((usize, usize), (usize, usize))>> = vec![
        vec![((0, 0), (2, 2)), ((2, 2), (0, 0))],
        vec![((0, 0), (0, 2)), ((0, 2), (0, 0)), ((1, 1), (2, 1))],
        vec![((0, 1), (2, 1)), ((2, 1), (0, 1)), ((1, 0), (1, 2))],
        vec![((0, 0), (1, 0)), ((1, 0), (0, 0))],
        vec![((0, 0), (2, 0)), ((1, 0), (0, 0)), ((2, 0), (1, 0))],
    ];
    for agents in cases {
        let p = grid_problem(3, 3, &agents, Manhattan);
        let a = checked_cost(&p, &AStarODID::solve(&p).unwrap());
        let m = checked_cost(&p, &MStar::solve(&p).unwrap());
        assert_eq!(a, m);
        let p = grid_problem(3, 3, &agents, Trivial);
        assert_eq!(checked_cost(&p, &AStarODID::solve(&p).unwrap()), a);
        let p = grid_problem(3, 3, &agents, Euclidean);
        assert_eq!(checked_cost(&p, &AStarODID::solve(&p).unwrap()), a);
    }
}

#[test]
fn the_answer_is_the_same_every_time() {
    let p = grid_problem(3, 3, &[((0, 0), (2, 2)), ((2, 2), (0, 0))], Manhattan);
    let first = AStarODID::solve(&p).unwrap();
    let second = AStarODID::solve(&p).unwrap();
    for id in [100, 101] {
        assert_eq!(indices(&first[&id]), indices(&second[&id]));
    }
}

fn two_islands() -> Graph<(usize, usize), usize, Undirected> {
    let mut g = Graph::<(usize, usize), usize, Undirected>::new_undirected();
    let a = g.add_node((0, 0));
    let b = g.add_node((0, 1));
    let c = g.add_node((5, 0));
    let d = g.add_node((5, 1));
    g.add_edge(a, b, 1);
    g.add_edge(c, d, 1);
    g
}

#[test]
fn a_goal_on_another_island_has_no_solution() {
    let a = SimpleAgent::new(Location::new(0), Location::new(3), 1);
    let p = MAPFProblem::new(two_islands(), vec![a], Manhattan).unwrap();
    assert_eq!(AStarODID::solve(&p).err(), Some(MapfError::NoSolution));
    assert_eq!(MStar::solve(&p).err(), Some(MapfError::NoSolution));
    assert_eq!(AStarODID::solve_within(&p, 0).err(), Some(MapfError::NoSolution));
    assert_eq!(MStar::solve_within(&p, 0).err(), Some(MapfError::NoSolution));

    let a = SimpleAgent::new(Location::new(0), Location::new(1), 1);
    let b = SimpleAgent::new(Location::new(2), Location::new(1), 2);
    let p = MAPFProblem::new(two_islands(), vec![a, b], Trivial).unwrap();
    assert_eq!(AStarODID::solve(&p).err(), Some(MapfError::NoSolution));
    assert_eq!(MStar::solve(&p).err(), Some(MapfError::NoSolution));
}

#[test]
fn each_island_can_be_solved_alone() {
    let a = SimpleAgent::new(Location::new(0), Location::new(1), 1);
    let b = SimpleAgent::new(Location::new(3), Location::new(2), 2);
    let p = MAPFProblem::new(two_islands(), vec![a, b], Manhattan).unwrap();
    assert_eq!(checked_cost(&p, &AStarODID::solve(&p).unwrap()), 2);
    assert_eq!(checked_cost(&p, &MStar::solve(&p).unwrap()), 2);
}

#[test]
fn one_way_streets_are_respected() {
    // 0 -> 1 -> 2 -> 0, and a dear shortcut 0 -> 2
    let mut g = Graph::<(), usize>::new();
    let n: Vec<_> = (0..3).map(|_| g.add_node(())).collect();
    g.add_edge(n[0], n[1], 2);
    g.add_edge(n[1], n[2], 3);
    g.add_edge(n[2], n[0], 1);
    g.add_edge(n[0], n[2], 7);
    g.add_edge(n[0], n[2], 9);
    let a = SimpleAgent::new(Location::new(0), Location::new(2), 1);
    let p = MAPFProblem::new(g, vec![a], Trivial).unwrap();
    let answer = AStarODID::solve(&p).unwrap();
    assert_eq!(indices(&answer[&1]), vec![0, 1, 2]);
    assert_eq!(checked_cost(&p, &answer), 5);
    assert_eq!(checked_cost(&p, &MStar::solve(&p).unwrap()), 5);
}

#[test]
fn agents_chase_each_other_round_a_ring() {
    let mut g = Graph::<(), usize>::new();
    let n: Vec<_> = (0..3).map(|_| g.add_node(())).collect();
    g.add_edge(n[0], n[1], 1);
    g.add_edge(n[1], n[2], 1);
    g.add_edge(n[2], n[0], 1);
    let agents = vec![
        SimpleAgent::new(Location::new(0), Location::new(1), 1),
        SimpleAgent::new(Location::new(1), Location::new(2), 2),
        SimpleAgent::new(Location::new(2), Location::new(0), 3),
    ];
    let p = MAPFProblem::new(g, agents, Trivial).unwrap();
    let answer = AStarODID::solve(&p).unwrap();
    assert_eq!(checked_cost(&p, &answer), 3);
    for id in [1, 2, 3] {
        assert_eq!(answer[&id].len(), 2);
    }
    assert_eq!(checked_cost(&p, &MStar::solve(&p).unwrap()), 3);
}

#[test]
fn a_heuristic_without_payload_is_reported() {
    let mut g = Graph::<(), usize>::new();
    let a = g.add_node(());
    let b = g.add_node(());
    g.add_edge(a, b, 1);
    let agent = SimpleAgent::new(Location::new(0), Location::new(1), 1);
    let p = MAPFProblem::new(g, vec![agent], Manhattan).unwrap();
    assert_eq!(AStarODID::solve(&p).err(), Some(MapfError::NodeNotFound));
    assert_eq!(MStar::solve(&p).err(), Some(MapfError::NodeNotFound));
}

#[test]
fn an_empty_budget_times_out() {
    let p = grid_problem(3, 3, &[((0, 0), (2, 2))], Manhattan);
    assert_eq!(AStarODID::solve_within(&p, 0).err(), Some(MapfError::Timeout));
    assert_eq!(MStar::solve_within(&p, 0).err(), Some(MapfError::Timeout));
    assert_eq!(AStarODID::solve_within(&p, 2).err(), Some(MapfError::Timeout));
    assert!(AStarODID::solve_within(&p, 1000).is_ok());
    assert!(MStar::solve_within(&p, 1000).is_ok());
}

#[test]
fn three_agents_rotate_in_a_square() {
    let p = grid_problem(2, 2, &[((0, 0), (0, 1)), ((0, 1), (1, 1)), ((1, 1), (1, 0))], Manhattan);
    assert_eq!(checked_cost(&p, &AStarODID::solve(&p).unwrap()), 3);
    assert_eq!(checked_cost(&p, &MStar::solve(&p).unwrap()), 3);
}

#[test]
fn four_agents_cross_a_wide_grid() {
    let agents = [((0, 0), (7, 7)), ((7, 7), (0, 0)), ((0, 7), (7, 0)), ((7, 0), (0, 7))];
    let p = grid_problem(8, 8, &agents, Manhattan);
    let a = checked_cost(&p, &AStarODID::solve(&p).unwrap());
    let m = checked_cost(&p, &MStar::solve(&p).unwrap());
    assert_eq!(a, m);
    assert!(a >= 56);
    assert!(a <= 60);
}

#[test]
fn many_agents_that_never_meet() {
    let agents: Vec<((usize, usize), (usize, usize))> = (0..10).map(|i| ((i, 0), (i, 9))).collect();
    let p = grid_problem(10, 10, &agents, Manhattan);
    assert_eq!(checked_cost(&p, &AStarODID::solve(&p).unwrap()), 90);
    assert_eq!(checked_cost(&p, &MStar::solve(&p).unwrap()), 90);
}

#[test]
fn four_agents_on_a_larger_grid() {
    let agents = [((0, 0), (4, 4)), ((4, 4), (0, 0)), ((0, 4), (4, 0)), ((4, 0), (0, 4))];
    let p = grid_problem(5, 5, &agents, Manhattan);
    let a = checked_cost(&p, &AStarODID::solve(&p).unwrap());
    let m = checked_cost(&p, &MStar::solve(&p).unwrap());
    assert!(a >= 32);
    assert_eq!(a, m);
}

#[test]
fn one_agent_crosses_a_square_of_nine_under_every_heuristic() {
    let p = grid_problem(3, 3, &[((0, 0), (2, 2))], Trivial);
    assert_eq!(checked_cost(&p, &AStarODID::solve(&p).unwrap()), 4);
    assert_eq!(checked_cost(&p, &MStar::solve(&p).unwrap()), 4);
    let p = grid_problem(3, 3, &[((0, 0), (2, 2))], Manhattan);
    assert_eq!(checked_cost(&p, &AStarODID::solve(&p).unwrap()), 4);
    assert_eq!(checked_cost(&p, &MStar::solve(&p).unwrap()), 4);
    let p = grid_problem(3, 3, &[((0, 0), (2, 2))], Euclidean);
    assert_eq!(checked_cost(&p, &AStarODID::solve(&p).unwrap()), 4);
    assert_eq!(checked_cost(&p, &MStar::solve(&p).unwrap()), 4);
}

#[test]
fn two_agents_swap_in_a_square_of_four() {
    let p = grid_problem(2, 2, &[((0, 0), (0, 1)), ((0, 1), (0, 0))], Manhattan);
    let answer = AStarODID::solve(&p).unwrap();
    assert_eq!(answer.len(), 2);
    assert_eq!(checked_cost(&p, &answer), 4);
    let answer = MStar::solve(&p).unwrap();
    assert_eq!(answer.len(), 2);
    assert_eq!(checked_cost(&p, &answer), 4);
}

#[test]
fn two_agents_cannot_swap_on_two_nodes() {
    let p = grid_problem(1, 2, &[((0, 0), (0, 1)), ((0, 1), (0, 0))], Manhattan);
    assert_eq!(AStarODID::solve(&p).err(), Some(MapfError::NoSolution));
    assert_eq!(MStar::solve(&p).err(), Some(MapfError::NoSolution));
    let p = grid_problem(1, 2, &[((0, 0), (0, 1)), ((0, 1), (0, 0))], Trivial);
    assert_eq!(AStarODID::solve(&p).err(), Some(MapfError::NoSolution));
    assert_eq!(MStar::solve(&p).err(), Some(MapfError::NoSolution));
}

#[test]
fn a_budget_that_is_enough_decides() {
    let e = enough_for(&Roadmap::build(&Grid::new(2, 2)), 2).unwrap();
    assert_eq!(e, 1 + 3 * 16 * 16 * 3);
    let p = grid_problem(2, 2, &[((0, 0), (0, 1)), ((0, 1), (0, 0))], Trivial);
    assert_eq!(checked_cost(&p, &AStarODID::solve_within(&p, 2 * 2 * e).unwrap()), 4);
    assert_eq!(checked_cost(&p, &MStar::solve_within(&p, e).unwrap()), 4);
    assert_eq!(checked_cost(&p, &AStarODID::solve_within(&p, usize::MAX).unwrap()), 4);
    assert_eq!(checked_cost(&p, &MStar::solve_within(&p, e + 5).unwrap()), 4);

    let e = enough_for(&Roadmap::build(&Grid::new(1, 3)), 2).unwrap();
    let p = grid_problem(1, 3, &[((0, 0), (0, 2)), ((0, 2), (0, 0))], Trivial);
    assert_eq!(AStarODID::solve_within(&p, 2 * 2 * e).err(), Some(MapfError::NoSolution));
    assert_eq!(MStar::solve_within(&p, e).err(), Some(MapfError::NoSolution));
    assert_eq!(AStarODID::solve_within(&p, 1).err(), Some(MapfError::Timeout));
    assert_eq!(MStar::solve_within(&p, 1).err(), Some(MapfError::Timeout));
}

#[test]
fn enough_grows_past_the_machine_word() {
    let road = Roadmap::build(&Grid::new(10, 10));
    assert_eq!(enough_for(&road, 1), Some(1 + 2 * 100 * 100 * 5));
    assert_eq!(enough_for(&road, 2), Some(1 + 3 * 10000 * 10000 * 5));
    assert_eq!(enough_for(&road, 40), None);
}

#[test]
fn an_unreachable_goal_comes_before_a_missing_estimate() {
    let mut g = Graph::<(), usize>::new();
    let a = g.add_node(());
    let b = g.add_node(());
    g.add_edge(b, a, 1);
    let agent = SimpleAgent::new(Location::new(0), Location::new(1), 1);
    let p = MAPFProblem::new(g, vec![agent], Manhattan).unwrap();
    assert_eq!(AStarODID::solve(&p).err(), Some(MapfError::NoSolution));
    assert_eq!(MStar::solve(&p).err(), Some(MapfError::NoSolution));
}

#[test]
fn estimates_that_overshoot_do_not_cost_the_cheapest_routes() {
    // by the coordinates node 1 is far from both others, by the edges near
    let mut g = Graph::<(usize, usize), usize, Undirected>::new_undirected();
    let a = g.add_node((0, 0));
    let b = g.add_node((5, 5));
    let c = g.add_node((0, 1));
    g.add_edge(a, b, 1);
    g.add_edge(b, c, 1);
    g.add_edge(a, c, 5);
    let agent = SimpleAgent::new(Location::new(0), Location::new(2), 1);
    let p = MAPFProblem::new(g, vec![agent], Manhattan).unwrap();
    let answer = AStarODID::solve(&p).unwrap();
    assert_eq!(indices(&answer[&1]), vec![0, 1, 2]);
    assert_eq!(checked_cost(&p, &answer), 2);
    let answer = MStar::solve(&p).unwrap();
    assert_eq!(indices(&answer[&1]), vec![0, 1, 2]);
    assert_eq!(checked_cost(&p, &answer), 2);
}
