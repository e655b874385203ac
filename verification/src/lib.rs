//! Hexagonal galaxy maps: axial hex geometry, systems joined by jump lanes,
//! and fleet-constrained route finding, with machine-checked contracts.

pub mod chance;
pub mod config;
pub mod disk;
pub mod error;
pub mod fleet;
pub mod frontier;
pub mod generation;
pub mod graph;
pub mod hex;
pub mod lane;
pub mod rim;
pub mod search;
pub mod ship;
pub mod starmap;
pub mod system;
pub mod topology;

pub use config::{Config, ConfigError};
pub use error::GenerationError;
pub use fleet::Fleet;
pub use hex::{Hex, HexPoint};
pub use lane::{JumpLane, LaneType};
pub use ship::{Ship, ShipType};
pub use starmap::{Galaxy, StarMap};
pub use system::System;
