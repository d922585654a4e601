//! Bots, their team colors, and the strategy roster.

use vstd::prelude::*;
use crate::constants::{BOTS_STARTING_ENERGY, STARTING_SHIELD_RESISTANCE, TIREDNESS_TO_LOSE_ENERGY};
use crate::direction::Direction;

verus! {

/// A team color.  The color identifies which strategy drives a bot; the
/// render layer maps it to a terminal color.
#[derive(Clone, Copy, PartialEq, Eq, Structural, Debug, Hash)]
pub enum Color {
    Grey,
    Red,
    Yellow,
    Blue,
}

/// Which decision algorithm drives the bots of one color.  The shipped
/// strategies are behaviorally identical variants of one shared algorithm.
#[derive(Clone, Copy, PartialEq, Eq, Structural, Debug)]
pub enum BotStrategy {
    Grey,
    Red,
    Yellow,
}

/// One entry of the strategy roster: how many bots of this color take part
/// and which strategy drives them.  Established once at arena setup.
#[derive(Clone, Copy, Debug)]
pub struct ColorConfig {
    pub color: Color,
    pub number_of_bots: usize,
    pub strategy: BotStrategy,
}

/// One fighting bot.  A bot at 0 energy is dead and removed from the
/// snapshot; a bot whose shield resistance has reached 0 has a destroyed
/// shield that no longer blocks chainsaw damage.
#[derive(Clone, Copy, PartialEq, Eq, Structural, Debug)]
pub struct Bot {
    pub energy: usize,
    pub color: Color,
    pub chainsaw_direction: Direction,
    pub shield_direction: Direction,
    pub tiredness: usize,
    pub shield_resistance: usize,
}

impl Bot {
    /// Tiredness always sits strictly below the threshold: reaching the
    /// threshold immediately costs one energy and resets the counter.
    pub open spec fn wf(self) -> bool {
        self.tiredness < TIREDNESS_TO_LOSE_ENERGY
    }

    /// A freshly placed bot of the given color: starting energy and shield
    /// resistance, both facings up, not tired.
    pub fn new(color: Color) -> (r: Bot)
        ensures
            r.energy == BOTS_STARTING_ENERGY,
            r.color == color,
            r.chainsaw_direction == Direction::Up,
            r.shield_direction == Direction::Up,
            r.tiredness == 0,
            r.shield_resistance == STARTING_SHIELD_RESISTANCE,
            r.wf(),
    {
        Bot {
            energy: BOTS_STARTING_ENERGY,
            color,
            chainsaw_direction: Direction::Up,
            shield_direction: Direction::Up,
            tiredness: 0,
            shield_resistance: STARTING_SHIELD_RESISTANCE,
        }
    }

    /// Whether the shield has absorbed all it can and no longer blocks
    /// chainsaw damage.
    pub fn is_shield_destroyed(&self) -> (r: bool)
        ensures
            r == (self.shield_resistance == 0),
    {
        self.shield_resistance == 0
    }
}

} // verus!
