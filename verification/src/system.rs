//! Star systems: the nodes of a galaxy map.

use vstd::prelude::*;
use crate::hex::{id_space, Hex};

verus! {

/// A star system: where it lies, how far from the hub, and whose home it is.
#[derive(Debug, Clone, Copy)]
pub struct System {
    pub id: usize,
    pub coords: Hex,
    pub ring: u32,
    pub player: Option<usize>,
}

impl System {
    /// Whether this system belongs to a grid of `num_rings` rings: it lies
    /// within the grid, carries the identifier of its hex, and its ring is
    /// its distance from the centre.
    pub open spec fn placed(self, num_rings: int) -> bool {
        &&& self.coords@.ring() <= num_rings
        &&& self.id == self.coords@.id(num_rings)
        &&& self.ring == self.coords@.ring()
    }

    pub fn new(coords: Hex, ring: u32, num_rings: u32, player: Option<usize>) -> (system: System)
        requires
            coords@.ring() <= num_rings,
            id_space(num_rings as int) <= usize::MAX,
        ensures
            system.id == coords@.id(num_rings as int),
            system.coords == coords,
            system.ring == ring,
            system.player == player,
            system.placed(num_rings as int) <==> ring == coords@.ring(),
    {
        let id = coords.to_id(num_rings);
        System { id, coords, ring, player }
    }
}

} // verus!
