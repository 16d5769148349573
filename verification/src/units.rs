//! Fixed-point scale and the constants of the arena.

use vstd::prelude::*;

verus! {

/// Identifier of a connection and of the player it controls.
pub type ClientId = u128;

/// Fixed-point steps in one world unit.
pub const UNIT: i64 = 1000;

/// Width of the world, in steps (3000 units).
pub const WORLD_WIDTH: i64 = 3_000_000;

/// Height of the world, in steps (3000 units).
pub const WORLD_HEIGHT: i64 = 3_000_000;

/// Size of a freshly admitted player, in steps (20 units).
pub const PLAYER_START_SIZE: i64 = 20_000;

/// Growth earned by one pellet, in steps (1 unit).
pub const FOOD_VALUE: i64 = 1_000;

/// Number of pellets the world is refilled to.
pub const MAX_FOOD_COUNT: usize = 100;

/// Distance kept from every edge when a player is admitted, in steps (100 units).
pub const SPAWN_MARGIN: i64 = 100_000;

/// Step of a player of size zero in one tick, in steps (5 units).
pub const BASE_STEP: i64 = 5_000;

/// Size at which the step has halved, in steps (100 units).
pub const SIZE_SCALE: i64 = 100_000;

/// Largest size a player can reach, and largest magnitude of a coordinate,
/// in steps. Growth saturates here.
pub const LIMIT: i64 = 1_000_000_000;

/// Radius a pellet is drawn with, in steps (10 units). Pellets are eaten by
/// their centre; this plays no part in the rules.
pub const FOOD_SIZE: i64 = 10_000;

/// Milliseconds between two ticks of the simulation.
pub const TICK_PERIOD_MS: u64 = 50;

/// Upper bound (exclusive) of a colour component drawn at random.
pub const COLOR_SPAN: u8 = 255;

} // verus!
