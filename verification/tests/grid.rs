use mapfm::mapf::graphlike::GraphLike;
use mapfm::mapf::grid::Grid;
use mapfm::mapf::Location;
use petgraph::graph::NodeIndex;

#[test]
pub fn heuristic() {
    for i in 1..10 {
        for j in 1..10 {
            let g = Grid::new(i, j);
            assert_eq!(g.graph().edge_count(), (i - 1) * j + (j - 1) * i);
            assert_eq!(g.graph().node_count(), i * j);
        }
    }
}

#[test]
pub fn test_grid_edge_count() {
    for i in 1..10 {
        for j in 1..10 {
            let g = Grid::new(i, j);
            assert_eq!(g.graph().edge_count(), (i - 1) * j + (j - 1) * i);
            assert_eq!(g.graph().node_count(), i * j);
        }
    }
}

#[test]
pub fn test_grid_neighbors() {
    for i in 1..10 {
        for j in 1..10 {
            let g = Grid::new(i, j);

            for x in 0..i {
                for y in 0..j {
                    let idx = g.node_at(x, y).unwrap();
                    let neighbors = g.graph().neighbors(NodeIndex::new(idx.index()));

                    let mut sides = [false; 4];

                    if x == 0 {
                        sides[0] = true;
                    }

                    if x == i - 1 {
                        sides[1] = true;
                    }

                    if y == 0 {
                        sides[2] = true;
                    }

                    if y == j - 1 {
                        sides[3] = true;
                    }

                    for n in neighbors {
                        let (a, b) = g.graph().node_weight(n).unwrap();

                        if x > 0 && (*a, *b) == (x - 1, y) {
                            sides[0] = true;
                        }
                        if x < i - 1 && (*a, *b) == (x + 1, y) {
                            sides[1] = true;
                        }
                        if y > 0 && (*a, *b) == (x, y - 1) {
                            sides[2] = true;
                        }
                        if y < j - 1 && (*a, *b) == (x, y + 1) {
                            sides[3] = true;
                        }
                    }

                    assert_eq!(sides.iter().filter(|&&i| i).count(), 4);
                }
            }
        }
    }
}

#[test]
fn grid_lookup_outside_is_none() {
    let g = Grid::new(3, 4);
    assert_eq!(g.node_at(3, 0), None);
    assert_eq!(g.node_at(0, 4), None);
    assert_eq!(g.node_at(2, 3), Some(Location::new(11)));
    assert_eq!(GraphLike::node_count(&g), 12);
    assert_eq!(g.edge_count(), 17);
}

#[test]
fn grid_neighbors_through_the_interface() {
    let g = Grid::new(3, 3);
    let centre = g.node_at(1, 1).unwrap();
    let mut around: Vec<(usize, usize)> =
        GraphLike::neighbors(&g, centre).iter().map(|(l, w)| (l.index(), *w)).collect();
    around.sort();
    assert_eq!(around, vec![(1, 1), (3, 1), (5, 1), (7, 1)]);
    assert_eq!(GraphLike::payload(&g, centre), Ok((1, 1)));
    assert!(GraphLike::neighbors(&g, Location::new(9)).is_empty());
}
