//! A grid-world foraging simulation: a bounded field of renewable sugar and
//! agents that look along their row and column, move to the richest free cell
//! and eat there, one tick at a time.

pub mod agent;
pub mod choice;
pub mod field;
pub mod step;

pub use field::{Location, MapData, MapDimensions, MapLocation, SimError};
pub use agent::{Agent, AgentStore, Metabolism, Name, Vision};
pub use choice::{choose_destination, Snapshot};
pub use step::simulation_step;
