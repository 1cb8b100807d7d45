//! Coordinates that carry a colour.

use vstd::prelude::*;
use crate::coordinate::Coordinate;

verus! {

/// A coordinate with a colour. Starts and goals of the same colour belong
/// together.
pub struct MarkedCoordinate {
    pub colour: i64,
    pub coordinate: Coordinate,
}

impl MarkedCoordinate {
    /// The coordinate without its colour.
    pub open spec fn position(&self) -> Coordinate {
        self.coordinate
    }

    /// The coordinate `coordinate` in colour `colour`.
    pub fn new(colour: i64, coordinate: Coordinate) -> (m: MarkedCoordinate)
        ensures
            m.colour == colour,
            m.position() == coordinate,
    {
        MarkedCoordinate { colour, coordinate }
    }
}

impl core::ops::Deref for MarkedCoordinate {
    type Target = Coordinate;

    /// The coordinate without its colour.
    fn deref(&self) -> (c: &Coordinate)
        ensures
            *c == self.position(),
    {
        &self.coordinate
    }
}

impl core::ops::DerefMut for MarkedCoordinate {
    /// The coordinate without its colour, for changing it. The colour
    /// stays.
    fn deref_mut(&mut self) -> (c: &mut Coordinate)
        ensures
            *c == old(self).position(),
            final(self).position() == *final(c),
            final(self).colour == old(self).colour,
    {
        &mut self.coordinate
    }
}

} // verus!
