//! Jump lanes: the edges of a galaxy map and what it costs to cross one.

use vstd::prelude::*;

verus! {

/// The class of a jump lane.
#[derive(Debug, Clone, Copy, PartialEq, Eq, Hash, Structural)]
pub enum LaneType {
    Major,
    Minor,
    Restricted,
}

impl LaneType {
    /// The cost of crossing a lane of this class.
    pub open spec fn cost(self) -> nat {
        match self {
            LaneType::Major => 1,
            LaneType::Minor => 2,
            LaneType::Restricted => 3,
        }
    }

    pub fn weight(&self) -> (w: u32)
        ensures
            w == self.cost(),
    {
        match self {
            LaneType::Major => 1,
            LaneType::Minor => 2,
            LaneType::Restricted => 3,
        }
    }
}

/// An undirected lane between two systems, named by their identifiers.
#[derive(Debug, Clone, Copy)]
pub struct JumpLane {
    pub source: usize,
    pub destination: usize,
    pub lane_type: LaneType,
}

impl JumpLane {
    /// Whether this lane joins `a` and `b`, in either direction.
    pub open spec fn joins(self, a: usize, b: usize) -> bool {
        (self.source == a && self.destination == b) || (self.source == b && self.destination
            == a)
    }

    /// Whether `a` is one end of this lane.
    pub open spec fn touches(self, a: usize) -> bool {
        self.source == a || self.destination == a
    }

    /// The end of this lane that is not `a` (`a` itself where both ends are).
    pub open spec fn other_end(self, a: usize) -> usize {
        if self.source == a {
            self.destination
        } else {
            self.source
        }
    }
}

} // verus!
