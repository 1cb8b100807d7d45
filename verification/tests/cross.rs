use mapfm::mapf::agent::SimpleAgent;
use mapfm::mapf::astar_od_id::AStarODID;
use mapfm::mapf::distance_heuristic::Trivial;
use mapfm::mapf::graphlike::GraphLike;
use mapfm::mapf::mapf_problem::MAPFProblem;
use mapfm::mapf::mstar::MStar;
use mapfm::mapf::{Location, MAPFAlgorithm, MapfError, Path};
use petgraph::graph::{Graph, NodeIndex};
use std::collections::HashMap;

struct Dice(u64);

impl Dice {
    fn roll(&mut self, sides: usize) -> usize {
        self.0 = self.0.wrapping_mul(6364136223846793005).wrapping_add(1442695040888963407);
        ((self.0 >> 33) as usize) % sides
    }
}

fn routes(agents: &[SimpleAgent], answer: &HashMap<usize, Path>) -> Vec<Vec<usize>> {
    agents.iter().map(|a| answer[&a.identifier].path.iter().map(|l| l.index()).collect()).collect()
}

fn at(r: &Vec<usize>, t: usize) -> usize {
    r[t.min(r.len() - 1)]
}

fn cost_of(g: &Graph<(), usize>, agents: &[SimpleAgent], answer: &HashMap<usize, Path>) -> usize {
    let all = routes(agents, answer);
    let mut cost = 0;
    for (a, r) in agents.iter().zip(all.iter()) {
        assert_eq!(r[0], a.location.index());
        assert_eq!(*r.last().unwrap(), a.goal.index());
        for w in r.windows(2) {
            if w[0] != w[1] {
                let step = GraphLike::neighbors(g, Location::new(w[0]))
                    .iter()
                    .filter(|(l, _)| l.index() == w[1])
                    .map(|(_, weight)| *weight)
                    .min();
                cost += step.unwrap();
            }
        }
    }
    let end = all.iter().map(|r| r.len()).max().unwrap_or(0);
    for i in 0..all.len() {
        for j in i + 1..all.len() {
            for t in 0..end {
                assert_ne!(at(&all[i], t), at(&all[j], t));
                assert!(!(at(&all[i], t + 1) == at(&all[j], t) && at(&all[j], t + 1) == at(&all[i], t)));
            }
        }
    }
    cost
}

#[test]
fn both_solvers_agree_on_random_graphs() {
    let mut dice = Dice(2024);
    let mut solved = 0;
    let mut unsolved = 0;
    for _ in 0..300 {
        let nodes = 2 + dice.roll(5);
        let mut g = Graph::<(), usize>::new();
        for _ in 0..nodes {
            g.add_node(());
        }
        for _ in 0..nodes + dice.roll(2 * nodes) {
            let a = dice.roll(nodes);
            let b = dice.roll(nodes);
            g.add_edge(NodeIndex::new(a), NodeIndex::new(b), dice.roll(4));
        }
        let count = 1 + dice.roll(3.min(nodes));
        let mut agents = Vec::new();
        for i in 0..count {
            agents.push(SimpleAgent::new(Location::new(dice.roll(nodes)), Location::new(dice.roll(nodes)), 10 * i));
        }
        let kept: Vec<SimpleAgent> =
            agents.iter().map(|a| SimpleAgent::new(a.location, a.goal, a.identifier)).collect();
        let p = MAPFProblem::new(g, agents, Trivial).unwrap();
        let a = AStarODID::solve_within(&p, 200_000);
        let m = MStar::solve_within(&p, 200_000);
        match (a, m) {
            (Ok(a), Ok(m)) => {
                assert_eq!(cost_of(&p.graph, &kept, &a), cost_of(&p.graph, &kept, &m));
                solved += 1;
            }
            (Err(x), Err(y)) => {
                assert_eq!(x, MapfError::NoSolution);
                assert_eq!(y, MapfError::NoSolution);
                unsolved += 1;
            }
            (a, m) => panic!("the solvers disagree: {:?} and {:?}", a.map(|_| ()), m.map(|_| ())),
        }
    }
    assert!(solved > 50);
    assert!(unsolved > 50);
}
