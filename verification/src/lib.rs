//! The sim side of the tactical seam of a Screeps combat family: squads, their movement goals and
//! the siege bed, decided over plain snapshots of a combat world.
//!
//! The engine that resolves a tick, the decision kernel that picks targets and the mover that
//! plans paths are handed in by the caller as functions. What one of them keeps between its calls
//! is a value that the library hands to the call and takes back. Everything that the library
//! decides around them is stated in contracts and proved.
pub mod geometry;
pub mod managed;
pub mod movement;
pub mod objective_bed;
pub mod pathing;
pub mod select;
pub mod squad;
pub mod view;
pub mod world;

pub use geometry::{Direction, Position, RoomName};
