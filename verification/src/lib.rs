//! A grid arena in which autonomous bots fight with chainsaws and shields.
//!
//! The crate has two halves.  The decision half — spatial queries,
//! breadth-first pathfinding and the per-color strategy — turns a world
//! snapshot into one actuator intent per bot.  The resolution half turns a
//! snapshot plus all intents into the next snapshot: rotations, movement
//! conflict resolution, resource collection, combat, attrition, death and
//! resource spawning, in that order.

mod actuators;
mod battle;
mod bot;
mod constants;
mod direction;
mod engine;
mod movement;
mod path;
mod resource;
mod rng;
mod spatial;
mod state;
mod strategy;

pub use actuators::Actuators;
pub use battle::{advance, collect_intents, find_empty_position, strategy_for_color, Battle};
pub use bot::{Bot, BotStrategy, Color, ColorConfig};
pub use engine::{
    apply_attrition, apply_rotations, collect_resources, damage_bot, remove_dead_bots,
    resolve_combat, resolve_tick, sat_add, sat_sub, spawn_resources,
};
pub use movement::resolve_movement;
pub use constants::{
    ATTACK_DAMAGE, AVERAGE_RESOURCE_GENERATION_PER_TICK, BOTS_STARTING_ENERGY, MAP_HEIGHT,
    MAP_WIDTH, MAX_RESOURCES, RESOURCE_MAX_ENERGY_GAIN, RESOURCE_MIN_ENERGY_GAIN,
    STARTING_SHIELD_RESISTANCE, TIREDNESS_TO_LOSE_ENERGY,
};
pub use direction::{opposite_direction, rotate_direction, shortest_rotation, Direction, Rotation};
pub use path::{next_step_toward, shortest_path};
pub use resource::Resource;
pub use strategy::{decide, grey, red, run_strategy, yellow};
pub use spatial::{
    adjacent_enemy_direction, adjacent_position_in_direction, bot_at, closest_other_bot,
    direction_between, distance, has_bot, has_resource, is_in_bounds, resource_at,
    valid_adjacent_positions, SpatialError,
};
pub use state::{from_matrix, state_to_matrix, GameCell, GameState, Position};
