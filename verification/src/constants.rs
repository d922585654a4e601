//! Tuning constants of the simulation.

use vstd::prelude::*;

verus! {

/// How many new resources a tick aims to add, on average.
pub const AVERAGE_RESOURCE_GENERATION_PER_TICK: usize = 2;
/// Cap on the number of resources present at once.
pub const MAX_RESOURCES: usize = 20;
/// Largest energy gain a resource can carry.
pub const RESOURCE_MAX_ENERGY_GAIN: usize = 4;
/// Smallest energy gain a resource can carry.
pub const RESOURCE_MIN_ENERGY_GAIN: usize = 2;
/// Height of the arena grid.
pub const MAP_HEIGHT: usize = 10;
/// Width of the arena grid.
pub const MAP_WIDTH: usize = 30;
/// Energy a freshly placed bot starts with.
pub const BOTS_STARTING_ENERGY: usize = 9;
/// Shield resistance a freshly placed bot starts with.
pub const STARTING_SHIELD_RESISTANCE: usize = 10;
/// Ticks of tiredness after which a bot loses one energy.
pub const TIREDNESS_TO_LOSE_ENERGY: usize = 6;
/// Energy (or shield resistance) one chainsaw attack takes away.
pub const ATTACK_DAMAGE: usize = 3;

} // verus!
