//! The per-bot decision algorithm.
//!
//! The per-color entry points are behaviorally identical: one shared
//! algorithm decides, per tick, how to turn the shield and the chainsaw and
//! where to move, from the snapshot alone — the same inputs always give the
//! same intent.

use vstd::prelude::*;
use crate::actuators::Actuators;
use crate::bot::BotStrategy;
use crate::direction::{
    rotate_direction, shortest_rotation, spec_rotate_direction, spec_shortest_rotation, Direction,
    Rotation,
};
use crate::path::{next_step_toward, spec_next_step_dir, spec_step_pos};
use crate::spatial::{
    adjacent_enemy_direction, bot_at, closest_other_bot, spec_adjacent_enemy_direction, spec_dist,
    spec_closest_other_bot, steps_to,
};
use crate::state::{GameState, Position};

verus! {

/// How the shield turns: when an enemy stands on an adjacent cell and the
/// shield does not already face it, turn by the shortest rotation toward it.
pub open spec fn spec_shield_rotation(s: GameState, p: Position) -> Option<Rotation> {
    match s.spec_bot_at(p) {
        None => None,
        Some(bot) => match spec_adjacent_enemy_direction(s, p) {
            None => None,
            Some(ed) => if bot.shield_direction != ed {
                Some(spec_shortest_rotation(bot.shield_direction, ed))
            } else {
                None
            },
        },
    }
}

/// How the chainsaw turns: when an enemy stands on an adjacent cell, turn
/// clockwise in the special wrap-around case — the enemy direction equal to
/// a counterclockwise-then-clockwise turn of the current facing — and by
/// the shortest rotation toward the enemy otherwise.
pub open spec fn spec_chainsaw_rotation(s: GameState, p: Position) -> Option<Rotation> {
    match s.spec_bot_at(p) {
        None => None,
        Some(bot) => match spec_adjacent_enemy_direction(s, p) {
            None => None,
            Some(ed) => if ed == spec_rotate_direction(
                spec_rotate_direction(bot.chainsaw_direction, Rotation::Counterclockwise),
                Rotation::Clockwise,
            ) {
                Some(Rotation::Clockwise)
            } else {
                Some(spec_shortest_rotation(bot.chainsaw_direction, ed))
            },
        },
    }
}

/// What the movement request is: none when no other bot is on the board,
/// and otherwise exactly the first step of the first-discovered shortest
/// path toward the closest other bot — an in-bounds step that brings the
/// bot one cell closer to it.
pub open spec fn move_intent_ok(s: GameState, p: Position, m: Option<Direction>) -> bool {
    match spec_closest_other_bot(s, p) {
        None => m is None,
        Some(e) => {
            let d = spec_next_step_dir(s.map_width as int, s.map_height as int, p, e);
            m == Some(d) && s.spec_in_bounds(spec_step_pos(p, d)) && steps_to(
                p,
                d,
                spec_step_pos(p, d),
            ) && spec_dist(spec_step_pos(p, d), e) == spec_dist(p, e) - 1
        },
    }
}

/// The full contract of one decision: the two rotations exactly as
/// specified, and a movement request toward the closest other bot.
pub open spec fn intent_ok(s: GameState, p: Position, a: Actuators) -> bool {
    &&& a.rotate_shield == spec_shield_rotation(s, p)
    &&& a.rotate_chainsaw == spec_chainsaw_rotation(s, p)
    &&& move_intent_ok(s, p, a.move_bot)
}

/// The decided intent as a spec-level value: the contract `intent_ok`
/// holds of exactly this intent.
pub open spec fn spec_decided_intent(s: GameState, p: Position) -> Actuators {
    Actuators {
        rotate_shield: spec_shield_rotation(s, p),
        rotate_chainsaw: spec_chainsaw_rotation(s, p),
        move_bot: match spec_closest_other_bot(s, p) {
            None => None,
            Some(e) => Some(spec_next_step_dir(s.map_width as int, s.map_height as int, p, e)),
        },
    }
}

/// The decision contract pins every actuator field to `spec_decided_intent`.
pub proof fn lemma_intent_ok_is_decided(s: GameState, p: Position, a: Actuators)
    requires
        intent_ok(s, p, a),
    ensures
        a == spec_decided_intent(s, p),
{
}

/// The decision contract pins every actuator field, so any two intents
/// that satisfy it for one snapshot and cell are equal field for field:
/// the same inputs always give the same decision, with no hidden state,
/// and the three color strategies agree pointwise.
pub proof fn lemma_decision_deterministic(s: GameState, p: Position, a: Actuators, b: Actuators)
    requires
        intent_ok(s, p, a),
        intent_ok(s, p, b),
    ensures
        a == b,
{
}

/// Decide one bot's actuator intent from the snapshot: shield toward the
/// adjacent enemy, chainsaw toward the adjacent enemy (with the clockwise
/// wrap-around special case), movement along a shortest path toward the
/// closest other bot.
pub fn decide(game_state: &GameState, bot_position: Position) -> (r: Actuators)
    requires
        game_state.wf(),
        game_state.spec_in_bounds(bot_position),
    ensures
        intent_ok(*game_state, bot_position, r),
{
    let maybe_bot = bot_at(game_state, bot_position);
    let enemy_dir = adjacent_enemy_direction(game_state, bot_position);

    let rotate_shield: Option<Rotation> = if let Some(bot) = maybe_bot {
        if let Some(ed) = enemy_dir {
            if bot.shield_direction != ed {
                Some(shortest_rotation(&bot.shield_direction, &ed))
            } else {
                None
            }
        } else {
            None
        }
    } else {
        None
    };

    let rotate_chainsaw: Option<Rotation> = if let Some(bot) = maybe_bot {
        if let Some(ed) = enemy_dir {
            let wrap_around = rotate_direction(
                &rotate_direction(&bot.chainsaw_direction, &Rotation::Counterclockwise),
                &Rotation::Clockwise,
            );
            if ed == wrap_around {
                Some(Rotation::Clockwise)
            } else {
                Some(shortest_rotation(&bot.chainsaw_direction, &ed))
            }
        } else {
            None
        }
    } else {
        None
    };

    let move_bot: Option<Direction> = match closest_other_bot(game_state, bot_position) {
        None => None,
        Some(enemy) => match next_step_toward(game_state, bot_position, enemy) {
            Ok(d) => Some(d),
            Err(_) => None,
        },
    };

    Actuators { rotate_shield, rotate_chainsaw, move_bot }
}

/// The grey strategy: the shared decision algorithm.
pub fn grey(game_state: &GameState, bot_position: Position) -> (r: Actuators)
    requires
        game_state.wf(),
        game_state.spec_in_bounds(bot_position),
    ensures
        intent_ok(*game_state, bot_position, r),
{
    decide(game_state, bot_position)
}

/// The red strategy: the shared decision algorithm.
pub fn red(game_state: &GameState, bot_position: Position) -> (r: Actuators)
    requires
        game_state.wf(),
        game_state.spec_in_bounds(bot_position),
    ensures
        intent_ok(*game_state, bot_position, r),
{
    decide(game_state, bot_position)
}

/// The yellow strategy: the shared decision algorithm.
pub fn yellow(game_state: &GameState, bot_position: Position) -> (r: Actuators)
    requires
        game_state.wf(),
        game_state.spec_in_bounds(bot_position),
    ensures
        intent_ok(*game_state, bot_position, r),
{
    decide(game_state, bot_position)
}

/// Run the strategy of the given kind.
pub fn run_strategy(strategy: BotStrategy, game_state: &GameState, bot_position: Position) -> (r:
    Actuators)
    requires
        game_state.wf(),
        game_state.spec_in_bounds(bot_position),
    ensures
        intent_ok(*game_state, bot_position, r),
{
    match strategy {
        BotStrategy::Grey => grey(game_state, bot_position),
        BotStrategy::Red => red(game_state, bot_position),
        BotStrategy::Yellow => yellow(game_state, bot_position),
    }
}

} // verus!
