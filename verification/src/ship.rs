//! Ships and what lets one cross a restricted lane.

use vstd::prelude::*;

verus! {

/// What a ship was built for.
#[derive(Debug, Clone, Copy, PartialEq, Eq, Structural)]
pub enum ShipType {
    Military,
    Spacelift,
}

/// A ship: its type and whether damage has crippled it.
#[derive(Debug, Clone, Copy)]
pub struct Ship {
    pub ship_type: ShipType,
    pub is_crippled: bool,
}

impl Ship {
    /// Only a military ship that is not crippled crosses a restricted lane.
    pub open spec fn crosses_restricted(self) -> bool {
        self.ship_type == ShipType::Military && !self.is_crippled
    }

    pub fn new(ship_type: ShipType, is_crippled: bool) -> (ship: Ship)
        ensures
            ship.ship_type == ship_type,
            ship.is_crippled == is_crippled,
    {
        Ship { ship_type, is_crippled }
    }

    pub fn can_cross_restricted_lane(&self) -> (able: bool)
        ensures
            able == self.crosses_restricted(),
    {
        match self.ship_type {
            ShipType::Military => !self.is_crippled,
            ShipType::Spacelift => false,
        }
    }
}

} // verus!
