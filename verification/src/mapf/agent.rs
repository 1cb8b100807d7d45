//! Agents: an identifier, a current location and a goal.

use vstd::prelude::*;
use crate::mapf::Location;

verus! {

/// Something that stands on a location of the graph and wants to reach
/// another. The identifier tells the agents of one problem apart.
pub trait Agent {
    /// Where the agent stands.
    spec fn location_spec(&self) -> Location;

    /// Where the agent wants to be.
    spec fn goal_spec(&self) -> Location;

    /// The agent's identifier.
    spec fn identifier_spec(&self) -> usize;

    /// Where the agent stands.
    fn location(&self) -> (l: Location)
        ensures
            l == self.location_spec(),
    ;

    /// Moves the agent; goal and identifier stay.
    fn set_location(&mut self, location: Location)
        ensures
            final(self).location_spec() == location,
            final(self).goal_spec() == old(self).goal_spec(),
            final(self).identifier_spec() == old(self).identifier_spec(),
    ;

    /// Where the agent wants to be.
    fn goal(&self) -> (l: Location)
        ensures
            l == self.goal_spec(),
    ;

    /// Changes the goal; location and identifier stay.
    fn set_goal(&mut self, location: Location)
        ensures
            final(self).goal_spec() == location,
            final(self).location_spec() == old(self).location_spec(),
            final(self).identifier_spec() == old(self).identifier_spec(),
    ;

    /// The agent's identifier.
    fn identifier(&self) -> (i: usize)
        ensures
            i == self.identifier_spec(),
    ;
}

/// An agent that is nothing more than its three values.
pub struct SimpleAgent {
    pub location: Location,
    pub goal: Location,
    pub identifier: usize,
}

impl SimpleAgent {
    /// An agent that stands on `start_location` and wants to reach `goal`.
    pub fn new(start_location: Location, goal: Location, identifier: usize) -> (a: Self)
        ensures
            a.location == start_location,
            a.goal == goal,
            a.identifier == identifier,
    {
        Self { location: start_location, goal, identifier }
    }
}

impl Agent for SimpleAgent {
    open spec fn location_spec(&self) -> Location {
        self.location
    }

    open spec fn goal_spec(&self) -> Location {
        self.goal
    }

    open spec fn identifier_spec(&self) -> usize {
        self.identifier
    }

    fn location(&self) -> (l: Location) {
        self.location
    }

    fn set_location(&mut self, location: Location) {
        self.location = location;
    }

    fn goal(&self) -> (l: Location) {
        self.goal
    }

    fn set_goal(&mut self, location: Location) {
        self.goal = location;
    }

    fn identifier(&self) -> (i: usize) {
        self.identifier
    }
}

} // verus!
