//! Trains as agents of a kind.

use vstd::prelude::*;

verus! {

/// What a train carries.
#[derive(Debug, PartialEq, Eq, Structural, Hash, Clone, Copy)]
pub enum TrainType {
    Passenger,
    Freight,
}

/// A train of some type.
#[derive(Debug, PartialEq, Eq, Structural, Hash)]
pub struct Train {
    pub train_type: TrainType,
}

impl Train {
    /// A train of type `train_type`.
    pub fn new(train_type: TrainType) -> (t: Train)
        ensures
            t.train_type == train_type,
    {
        Train { train_type }
    }
}

} // verus!
