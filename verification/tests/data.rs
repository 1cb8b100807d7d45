use mapfm::api::ProblemIdentifier;
use mapfm::coordinate::Coordinate;
use mapfm::grid::Grid;
use mapfm::marked_coordinate::MarkedCoordinate;
use mapfm::problem::Problem;
use mapfm::train::{Train, TrainType};

#[test]
fn coordinates_add_and_subtract() {
    let a = Coordinate { x: 3, y: -4 };
    let b = Coordinate { x: 10, y: 20 };
    assert_eq!(a + b, Coordinate { x: 13, y: 16 });
    assert_eq!(a - b, Coordinate { x: -7, y: -24 });
    assert_eq!(b - a, Coordinate { x: 7, y: 24 });
}

#[test]
fn coordinate_mul() {
    let a = Coordinate { x: 3, y: 10 };
    assert_eq!(a.mul(4), Coordinate { x: 12, y: 6 });
    assert_eq!(a.mul(0), Coordinate { x: 0, y: 10 });
    assert_eq!(a.mul(-2), Coordinate { x: -6, y: 12 });
}

#[test]
fn marked_coordinates_are_coordinates() {
    let mut m = MarkedCoordinate::new(2, Coordinate { x: 1, y: 5 });
    assert_eq!(m.colour, 2);
    assert_eq!(m.x, 1);
    assert_eq!(m.y, 5);
    m.x = 7;
    assert_eq!(*m, Coordinate { x: 7, y: 5 });
    assert_eq!(m.colour, 2);
}

#[test]
fn walls_are_where_the_numbers_are_not_zero() {
    let g = Grid::from_int_vecs(3, 2, vec![vec![0, 1, 0], vec![-5, 0, 2]]);
    assert_eq!(g.wall_at(Coordinate { x: 0, y: 0 }), Some(false));
    assert_eq!(g.wall_at(Coordinate { x: 1, y: 0 }), Some(true));
    assert_eq!(g.wall_at(Coordinate { x: 0, y: 1 }), Some(true));
    assert_eq!(g.wall_at(Coordinate { x: 1, y: 1 }), Some(false));
    assert_eq!(g.wall_at(Coordinate { x: 2, y: 1 }), Some(true));
}

#[test]
fn off_the_grid_there_is_nothing() {
    let g = Grid::from_int_vecs(3, 2, vec![vec![0, 1, 0], vec![1, 0, 1]]);
    assert_eq!(g.wall_at(Coordinate { x: 3, y: 0 }), None);
    assert_eq!(g.wall_at(Coordinate { x: 0, y: 2 }), None);
    assert_eq!(g.wall_at(Coordinate { x: -1, y: 0 }), None);
    assert_eq!(g.wall_at(Coordinate { x: 0, y: -1 }), None);
    assert_eq!(g.wall_at(Coordinate { x: i64::MAX, y: i64::MIN }), None);
    let empty = Grid::from_int_vecs(0, 0, vec![]);
    assert_eq!(empty.wall_at(Coordinate { x: 0, y: 0 }), None);
}

#[test]
fn problems_bundle_grid_starts_and_goals() {
    let p = Problem {
        grid: Grid::from_int_vecs(1, 1, vec![vec![0]]),
        starts: vec![MarkedCoordinate::new(1, Coordinate { x: 0, y: 0 })],
        goals: vec![],
    };
    assert_eq!(p.starts.len(), 1);
    assert_eq!(p.goals.len(), 0);
    assert_eq!(p.grid.wall_at(Coordinate { x: 0, y: 0 }), Some(false));
}

#[test]
fn problem_identifiers_keep_their_parts() {
    let p = ProblemIdentifier::new(17, true, "http://localhost:5000".to_string(), "SECRET-REDACTED".to_string());
    assert_eq!(p.id, 17);
    assert!(p.debug);
    assert_eq!(p.url, "http://localhost:5000");
    assert_eq!(p.token, "SECRET-REDACTED");
}

#[test]
fn trains_have_a_type() {
    assert_eq!(Train::new(TrainType::Freight), Train { train_type: TrainType::Freight });
    assert_ne!(Train::new(TrainType::Freight), Train::new(TrainType::Passenger));
}

#[test]
fn grid_rows_may_be_short_or_missing() {
    let g = Grid::from_int_vecs(3, 3, vec![vec![0, 1, 0], vec![1], vec![]]);
    assert_eq!(g.wall_at(Coordinate { x: 1, y: 0 }), Some(true));
    assert_eq!(g.wall_at(Coordinate { x: 2, y: 0 }), Some(false));
    assert_eq!(g.wall_at(Coordinate { x: 0, y: 1 }), Some(true));
    assert_eq!(g.wall_at(Coordinate { x: 1, y: 1 }), None);
    assert_eq!(g.wall_at(Coordinate { x: 0, y: 2 }), None);
    let g = Grid::from_int_vecs(2, 2, vec![vec![0, 0, 1, 1]]);
    assert_eq!(g.wall_at(Coordinate { x: 1, y: 0 }), Some(false));
    assert_eq!(g.wall_at(Coordinate { x: 2, y: 0 }), None);
    assert_eq!(g.wall_at(Coordinate { x: 0, y: 1 }), None);
    let g = Grid::from_int_vecs(1, 1, vec![vec![7], vec![0], vec![0]]);
    assert_eq!(g.wall_at(Coordinate { x: 0, y: 0 }), Some(true));
    assert_eq!(g.wall_at(Coordinate { x: 0, y: 1 }), None);
}
