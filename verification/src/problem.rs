//! A problem on an obstacle grid, as a benchmark service hands it out.

use vstd::prelude::*;
use crate::grid::Grid;
use crate::marked_coordinate::MarkedCoordinate;

verus! {

/// An obstacle grid with coloured starts and goals.
pub struct Problem {
    pub grid: Grid,
    pub starts: Vec<MarkedCoordinate>,
    pub goals: Vec<MarkedCoordinate>,
}

} // verus!
