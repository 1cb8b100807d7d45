//! Positions on an obstacle grid.

use vstd::prelude::*;
use vstd::std_specs::ops::{AddSpecImpl, SubSpecImpl};

verus! {

/// A position: `x` counts columns, `y` counts rows. Negative values are
/// positions off the grid.
#[derive(Debug, PartialEq, Eq, Structural, Hash, Copy, Clone)]
pub struct Coordinate {
    pub x: i64,
    pub y: i64,
}

impl Coordinate {
    /// Whether the sum with `other` stays within 64 bits.
    pub open spec fn can_add(self, other: Coordinate) -> bool {
        &&& i64::MIN <= self.x + other.x <= i64::MAX
        &&& i64::MIN <= self.y + other.y <= i64::MAX
    }

    /// Whether the difference to `other` stays within 64 bits.
    pub open spec fn can_sub(self, other: Coordinate) -> bool {
        &&& i64::MIN <= self.x - other.x <= i64::MAX
        &&& i64::MIN <= self.y - other.y <= i64::MAX
    }

    /// Whether `mul` by `other` stays within 64 bits.
    pub open spec fn can_mul(self, other: i64) -> bool {
        &&& i64::MIN <= self.x * other <= i64::MAX
        &&& i64::MIN <= self.y - other <= i64::MAX
    }

    /// The coordinate whose `x` is this `x` times `other` and whose `y` is
    /// this `y` less `other`.
    pub fn mul(&self, other: i64) -> (c: Coordinate)
        requires
            self.can_mul(other),
        ensures
            c.x == self.x * other,
            c.y == self.y - other,
    {
        Coordinate { x: self.x * other, y: self.y - other }
    }
}

impl core::ops::Add for Coordinate {
    type Output = Coordinate;

    /// The sum, coordinate by coordinate.
    fn add(self, other: Coordinate) -> (c: Coordinate) {
        Coordinate { x: self.x + other.x, y: self.y + other.y }
    }
}

impl AddSpecImpl for Coordinate {
    open spec fn obeys_add_spec() -> bool {
        true
    }

    open spec fn add_req(self, other: Coordinate) -> bool {
        self.can_add(other)
    }

    open spec fn add_spec(self, other: Coordinate) -> Coordinate {
        Coordinate { x: (self.x + other.x) as i64, y: (self.y + other.y) as i64 }
    }
}

impl core::ops::Sub for Coordinate {
    type Output = Coordinate;

    /// The difference, coordinate by coordinate.
    fn sub(self, other: Coordinate) -> (c: Coordinate) {
        Coordinate { x: self.x - other.x, y: self.y - other.y }
    }
}

impl SubSpecImpl for Coordinate {
    open spec fn obeys_sub_spec() -> bool {
        true
    }

    open spec fn sub_req(self, other: Coordinate) -> bool {
        self.can_sub(other)
    }

    open spec fn sub_spec(self, other: Coordinate) -> Coordinate {
        Coordinate { x: (self.x - other.x) as i64, y: (self.y - other.y) as i64 }
    }
}

} // verus!
