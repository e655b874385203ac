//! What can keep a galaxy from being generated.

use vstd::prelude::*;

verus! {

/// Why a generation step gave up.
#[derive(Debug, Clone, Copy, PartialEq, Eq, Structural)]
pub enum GenerationError {
    /// The outer ring has `candidates` hexes with exactly three neighbours,
    /// fewer than there are players.
    NotEnoughHomeSystems { players: usize, candidates: usize },
    /// Two players would share a home system.
    HomeCollision,
    /// The hub is missing, or has `found` systems of the first ring beside
    /// it instead of six.
    HubNeighbors { found: usize },
    /// Home system `system` has only `available` neighbours left that no
    /// lane joins to it yet, fewer than three.
    HomeNeighbors { system: usize, available: usize },
}

} // verus!
