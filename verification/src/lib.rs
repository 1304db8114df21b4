//! Simulation core of a turn-based dungeon crawl: procedural level
//! generation, the entity model, turn resolution and AI dispatch, combat and
//! progression, item effects, and a lossless save codec.
//!
//! Rendering, field-of-view computation and input capture are outside
//! collaborators: the engine only consumes a visibility grid and abstract
//! commands, and hands back plain data for a front end to draw.

use vstd::prelude::*;

pub mod color;
pub mod game;
pub mod geom;
pub mod items;
pub mod mapgen;
pub mod turn;
pub mod object;
pub mod rng;
pub mod save;
pub mod engine;
pub mod num;
pub mod text;
pub mod tile;

verus! {

/// Width of the dungeon grid in cells.
pub const MAP_WIDTH: i32 = 80;

/// Height of the dungeon grid in cells.
pub const MAP_HEIGHT: i32 = 43;

/// Smallest width/height a candidate room may have.
pub const ROOM_MIN_SIZE: i32 = 6;

/// Largest width/height a candidate room may have.
pub const ROOM_MAX_SIZE: i32 = 10;

/// Number of candidate rooms attempted per level.
pub const MAX_ROOMS: i32 = 30;

/// Index of the player in the world collection, by convention.
pub const PLAYER: usize = 0;

/// Hit points restored by a healing potion.
pub const HEAL_AMOUNT: i32 = 40;

/// Maximum distance at which a lightning bolt finds a target.
pub const LIGHTNING_RANGE: i32 = 5;

/// Damage dealt by a lightning bolt.
pub const LIGHTNING_DAMAGE: i32 = 40;

/// Radius of a fireball blast.
pub const FIREBALL_RADIUS: i32 = 3;

/// Damage dealt by a fireball to everything in its radius.
pub const FIREBALL_DAMAGE: i32 = 25;

/// Turn counter a confusion scroll installs on its target.
pub const CONFUSE_NUM_TURNS: i32 = 10;

/// Maximum distance at which a confusion scroll finds a target.
pub const CONFUSE_RANGE: i32 = 8;

/// Base experience needed for the first level-up.
pub const LEVEL_UP_BASE: i32 = 200;

/// Additional experience needed per level already reached.
pub const LEVEL_UP_FACTOR: i32 = 150;

/// Number of inventory slots, one per selectable letter.
pub const INVENTORY_CAPACITY: usize = 26;

} // verus!
