use mapfm::mapf::distance_heuristic::{coordinate_offsets, gap, DistanceHeuristic, Euclidean, Manhattan, Trivial};
use mapfm::mapf::grid::Grid;
use mapfm::mapf::{Location, MapfError};
use petgraph::graph::Graph;

#[test]
fn test_manhattan() {
    let g = Grid::new(5, 5);
    let n1 = g.node_at(0, 0).unwrap();
    let n2 = g.node_at(1, 1).unwrap();

    assert_eq!(Manhattan::heuristic(&g, n1, n2).unwrap() as f64, 2.0);
}

#[test]
fn test_euclidean() {
    let g = Grid::new(5, 5);
    let n1 = g.node_at(0, 0).unwrap();
    let n2 = g.node_at(1, 1).unwrap();

    let (dx, dy) = coordinate_offsets(&g, n1, n2).unwrap();
    assert_eq!(((dx * dx + dy * dy) as f64).sqrt(), 2.0f64.sqrt());
    assert_eq!(Euclidean::heuristic(&g, n1, n2), Ok(1));
}

#[test]
fn trivial_is_always_zero() {
    let g = Grid::new(5, 5);
    let n1 = g.node_at(0, 0).unwrap();
    let n2 = g.node_at(4, 4).unwrap();
    assert_eq!(Trivial::heuristic(&g, n1, n2), Ok(0));
    assert_eq!(Trivial::heuristic(&g, Location::new(99), n2), Ok(0));
}

#[test]
fn estimates_to_self_are_zero() {
    let g = Grid::new(3, 3);
    for k in 0..9 {
        let l = Location::new(k);
        assert_eq!(Manhattan::heuristic(&g, l, l), Ok(0));
        assert_eq!(Euclidean::heuristic(&g, l, l), Ok(0));
        assert_eq!(Trivial::heuristic(&g, l, l), Ok(0));
    }
}

#[test]
fn manhattan_adds_rows_and_columns() {
    let g = Grid::new(5, 7);
    let a = g.node_at(4, 1).unwrap();
    let b = g.node_at(1, 6).unwrap();
    assert_eq!(Manhattan::heuristic(&g, a, b), Ok(8));
    assert_eq!(Manhattan::heuristic(&g, b, a), Ok(8));
    assert_eq!(coordinate_offsets(&g, a, b), Ok((3, 5)));
}

#[test]
fn euclidean_is_the_whole_part_of_the_root() {
    assert_eq!(Euclidean::hypotenuse(3, 4), 5);
    assert_eq!(Euclidean::hypotenuse(4, 3), 5);
    assert_eq!(Euclidean::hypotenuse(1, 1), 1);
    assert_eq!(Euclidean::hypotenuse(2, 2), 2);
    assert_eq!(Euclidean::hypotenuse(5, 5), 7);
    assert_eq!(Euclidean::hypotenuse(0, 9), 9);
    assert_eq!(Euclidean::hypotenuse(0, 0), 0);
    assert_eq!(Euclidean::hypotenuse(usize::MAX, 0), usize::MAX as u128);
    let side = usize::MAX as f64;
    let whole = Euclidean::hypotenuse(usize::MAX, usize::MAX) as f64;
    assert!((whole - side * 2.0f64.sqrt()).abs() / whole < 1e-9);
}

#[test]
fn gap_is_symmetric() {
    assert_eq!(gap(3, 10), 7);
    assert_eq!(gap(10, 3), 7);
    assert_eq!(gap(0, usize::MAX), usize::MAX);
}

#[test]
fn coordinates_are_needed_where_they_are_used() {
    let g = Grid::new(2, 2);
    let inside = g.node_at(1, 1).unwrap();
    let outside = Location::new(4);
    assert_eq!(Manhattan::heuristic(&g, inside, outside), Err(MapfError::NodeNotFound));
    assert_eq!(Euclidean::heuristic(&g, outside, inside), Err(MapfError::NodeNotFound));

    let mut plain = Graph::<(), usize>::new();
    let a = plain.add_node(());
    let b = plain.add_node(());
    plain.add_edge(a, b, 3);
    let (a, b) = (Location::new(a.index()), Location::new(b.index()));
    assert_eq!(Manhattan::heuristic(&plain, a, b), Err(MapfError::NodeNotFound));
    assert_eq!(Euclidean::heuristic(&plain, a, b), Err(MapfError::NodeNotFound));
    assert_eq!(Trivial::heuristic(&plain, a, b), Ok(0));
}
