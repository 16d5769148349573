//! Authoritative core of a multiplayer "grow by eating" arena.
//!
//! Positions and sizes are fixed-point integers: one world unit is
//! [`units::UNIT`] steps. Every rule of the world, of the tick and of a
//! connection's life cycle is stated as a contract over mathematical
//! models and proved.
//!
//! - [`units`]: the scale and the constants of the arena.
//! - [`geometry`]: distances, the movement step, the clamp into the world.
//! - [`world`]: players, pellets, movement, pickup and combat.
//! - [`theorems`]: what holds of every combat pass.
//! - [`frame`]: the movement frame a client sends.
//! - [`session`]: the life cycle of one connection.
//! - [`lobby`]: the registry of sessions and the tick.
//! - [`hex`]: colours as text.

pub mod units;
pub mod geometry;
mod chance;
pub mod world;
pub mod theorems;
pub mod frame;
pub mod session;
pub mod lobby;
pub mod hex;
