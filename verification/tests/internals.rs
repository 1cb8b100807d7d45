use mapfm::mapf::conflicts::{find_conflict, position, routes_collide, trim};
use mapfm::mapf::grid::Grid;
use mapfm::mapf::independence::{collect_members, plan_all};
use mapfm::mapf::heap::{pop, push};
use mapfm::mapf::index::{mix, Index};
use mapfm::mapf::joint_search::{all_distinct, find_live, same, search, state_number, Node};
use mapfm::mapf::policy::{policy_to, reverse};
use mapfm::mapf::roadmap::Roadmap;
use mapfm::mapf::{MapfError, Path};
use petgraph::graph::Graph;

#[test]
fn a_roadmap_lists_every_arc() {
    let road = Roadmap::build(&Grid::new(2, 2));
    assert_eq!(road.adj.len(), 4);
    let mut arcs: Vec<(usize, usize, usize)> = Vec::new();
    for (a, row) in road.adj.iter().enumerate() {
        for (b, w) in row {
            arcs.push((a, *b, *w));
        }
    }
    arcs.sort();
    assert_eq!(
        arcs,
        vec![(0, 1, 1), (0, 2, 1), (1, 0, 1), (1, 3, 1), (2, 0, 1), (2, 3, 1), (3, 1, 1), (3, 2, 1)]
    );
}

#[test]
fn reachability_follows_the_arcs() {
    let mut g = Graph::<(), usize>::new();
    let n: Vec<_> = (0..4).map(|_| g.add_node(())).collect();
    g.add_edge(n[0], n[1], 1);
    g.add_edge(n[1], n[2], 1);
    let road = Roadmap::build(&g);
    assert!(road.reaches(0, 2));
    assert!(road.reaches(1, 1));
    assert!(!road.reaches(2, 0));
    assert!(!road.reaches(0, 3));
    assert!(road.reaches(3, 3));
}

#[test]
fn policies_follow_cheapest_ways() {
    let road = Roadmap::build(&Grid::new(3, 3));
    let radj = reverse(&road);
    let policy = policy_to(&road, &radj, 8);
    assert_eq!(policy.dist, vec![4, 3, 2, 3, 2, 1, 2, 1, 0]);
    assert_eq!(policy.hops, vec![4, 3, 2, 3, 2, 1, 2, 1, 0]);
    assert_eq!(policy.next[8], 8);
    for x in 0..8 {
        assert_eq!(policy.dist[policy.next[x]] + 1, policy.dist[x]);
        assert_eq!(policy.weight[x], 1);
    }
}

#[test]
fn policies_know_where_no_way_leads() {
    let mut g = Graph::<(), usize>::new();
    let n: Vec<_> = (0..3).map(|_| g.add_node(())).collect();
    g.add_edge(n[0], n[1], 5);
    g.add_edge(n[0], n[1], 2);
    g.add_edge(n[1], n[2], 0);
    let road = Roadmap::build(&g);
    let radj = reverse(&road);
    let policy = policy_to(&road, &radj, 1);
    assert_eq!(policy.dist, vec![2, 0, u128::MAX]);
    assert_eq!(policy.next, vec![1, 1, 2]);
    assert_eq!(policy.weight, vec![2, 0, 0]);
    let policy = policy_to(&road, &radj, 2);
    assert_eq!(policy.dist, vec![2, 0, 0]);
    assert_eq!(policy.hops, vec![2, 1, 0]);
}

#[test]
fn collisions_are_found_on_nodes_and_on_edges() {
    assert!(routes_collide(&vec![0, 1, 2], &vec![3, 1]));
    assert!(routes_collide(&vec![0, 1], &vec![1, 0]));
    assert!(!routes_collide(&vec![0, 1, 2], &vec![1, 2, 3]));
    assert!(routes_collide(&vec![0, 1], &vec![2, 3, 4, 1]));
    assert!(!routes_collide(&vec![0], &vec![1]));
    assert_eq!(position(&vec![4, 5, 6], 1), 5);
    assert_eq!(position(&vec![4, 5, 6], 7), 6);
    let paths = vec![vec![0, 1], vec![1, 0], vec![0, 1]];
    assert_eq!(find_conflict(&paths, &vec![0, 0, 2]), Some((0, 2)));
    assert_eq!(find_conflict(&paths, &vec![0, 1, 2]), Some((0, 1)));
    assert_eq!(find_conflict(&paths, &vec![5, 5, 5]), None);
}

#[test]
fn trimming_cuts_the_waits_at_the_end() {
    assert_eq!(trim(&vec![1, 2, 2, 3, 3, 3]), vec![1, 2, 2, 3]);
    assert_eq!(trim(&vec![7, 7, 7]), vec![7]);
    assert_eq!(trim(&vec![7]), vec![7]);
    assert_eq!(trim(&vec![1, 2, 1]), vec![1, 2, 1]);
    let p = Path::from_indices(&vec![3, 4]);
    assert_eq!(p.len(), 2);
    assert_eq!(p.path[1].index(), 4);
}

#[test]
fn small_helpers_compare_and_collect() {
    assert!(same(&vec![1, 2], &vec![1, 2]));
    assert!(!same(&vec![1, 2], &vec![1, 3]));
    assert!(!same(&vec![1, 2], &vec![1]));
    assert!(all_distinct(&vec![3, 1, 2]));
    assert!(!all_distinct(&vec![3, 1, 3]));
    assert!(all_distinct(&vec![]));
    assert_eq!(collect_members(&vec![0, 1, 0, 3, 0], 0), vec![0, 2, 4]);
    assert_eq!(collect_members(&vec![0, 1, 0, 3, 0], 2), Vec::<usize>::new());
}

#[test]
fn the_joint_search_finds_the_cheapest_routes_and_spends_fuel() {
    let road = Roadmap::build(&Grid::new(2, 3));
    let h = vec![vec![0u128; 6], vec![0u128; 6]];
    let mut fuel = 100_000;
    let paths = search(&road, &vec![0, 2], &vec![2, 0], &h, &mut fuel).unwrap();
    assert!(fuel < 100_000);
    assert_eq!(paths[0].len(), paths[1].len());
    let cost: usize = paths.iter().map(|p| p.windows(2).filter(|w| w[0] != w[1]).count()).sum();
    assert_eq!(cost, 6);
    let mut none = 0;
    assert_eq!(search(&road, &vec![0, 2], &vec![2, 0], &h, &mut none).err(), Some(MapfError::Timeout));
    let mut fuel = 100_000;
    assert_eq!(plan_all(&road, &vec![], &vec![], &vec![], &mut fuel), Ok(vec![]));
    let mut fuel = 100_000;
    let paths = plan_all(&road, &vec![0, 2], &vec![2, 0], &h, &mut fuel).unwrap();
    let cost: usize = paths.iter().map(|p| p.windows(2).filter(|w| w[0] != w[1]).count()).sum();
    assert_eq!(cost, 6);
    let mut few = 3;
    assert_eq!(plan_all(&road, &vec![0, 2], &vec![2, 0], &h, &mut few).err(), Some(MapfError::Timeout));
    assert_eq!(few, 0);
}

#[test]
fn the_frontier_hands_out_nodes_in_order() {
    let node = |f: u128, h: u128| Node { from: vec![], pos: vec![], k: 0, g: f - h, h, f, origin: 0 };
    let nodes = vec![node(5, 1), node(3, 3), node(3, 1), node(9, 0), node(3, 1), node(1, 1), node(7, 2)];
    let mut heap: Vec<usize> = Vec::new();
    for i in [3, 0, 6, 1, 4, 2, 5] {
        push(&mut heap, &nodes, i);
    }
    let mut order = Vec::new();
    while !heap.is_empty() {
        order.push(pop(&mut heap, &nodes));
    }
    // by priority, then by estimate, then by age
    assert_eq!(order, vec![5, 2, 4, 1, 0, 6, 3]);
}

#[test]
fn the_index_files_numbers_in_lists() {
    let mut index = Index::new(4);
    assert_eq!(index.count(6), 0);
    index.file(6, 10);
    index.file(2, 11);
    index.file(7, 12);
    assert_eq!(index.count(6), 2);
    assert_eq!(index.count(10), 2);
    assert_eq!(index.filed(6, 0), 10);
    assert_eq!(index.filed(6, 1), 11);
    assert_eq!(index.count(3), 1);
    assert_eq!(index.filed(3, 0), 12);
    assert_eq!(index.count(0), 0);
    let mut none = Index::new(0);
    assert_eq!(none.count(5), 0);
    none.file(5, 1);
    assert_eq!(none.count(9), 1);
    assert_eq!(mix(&vec![1, 2, 3], 7), mix(&vec![1, 2, 3], 7));
    assert_ne!(mix(&vec![1, 2, 3], 7), mix(&vec![1, 3, 2], 7));
    assert_ne!(mix(&vec![1, 2, 3], 7), mix(&vec![1, 2, 3], 8));
}

#[test]
fn live_nodes_are_found_where_they_are_filed() {
    let node = |pos: Vec<usize>, g: u128| Node { from: pos.clone(), pos, k: 2, g, h: 0, f: g, origin: 0 };
    let nodes = vec![node(vec![1, 2], 0), node(vec![3, 4], 5), node(vec![3, 4], 3), node(vec![3, 4], 1)];
    let status = vec![1u8, 0, 0, 2];
    let mut index = Index::new(8);
    for (i, v) in nodes.iter().enumerate() {
        index.file(state_number(&v.from, &v.pos, 2, 2), i);
    }
    let at = vec![3, 4];
    assert_eq!(find_live(&nodes, &status, &index, &at, &at, 2, 2, 9, usize::MAX), Some(1));
    assert_eq!(find_live(&nodes, &status, &index, &at, &at, 2, 2, 4, usize::MAX), Some(2));
    assert_eq!(find_live(&nodes, &status, &index, &at, &at, 2, 2, 4, 2), None);
    assert_eq!(find_live(&nodes, &status, &index, &at, &at, 2, 2, 2, usize::MAX), None);
    assert_eq!(find_live(&nodes, &status, &index, &vec![1, 2], &vec![1, 2], 2, 2, 0, usize::MAX), Some(0));
    assert_eq!(find_live(&nodes, &status, &index, &vec![2, 1], &vec![2, 1], 2, 2, 9, usize::MAX), None);
    let empty = Index::new(8);
    assert_eq!(find_live(&nodes, &status, &empty, &at, &at, 2, 2, 9, usize::MAX), None);
}
