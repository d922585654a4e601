//! Per-tick actuator commands a strategy requests for one bot.

use vstd::prelude::*;
use crate::direction::{Direction, Rotation};

verus! {

/// What one bot asks its actuators to do this tick.  `None` in a field means
/// "no change requested".  Produced once per live bot per tick by its
/// strategy and consumed exactly once by the resolution engine.
#[derive(Clone, Copy, Debug)]
pub struct Actuators {
    pub rotate_shield: Option<Rotation>,
    pub rotate_chainsaw: Option<Rotation>,
    pub move_bot: Option<Direction>,
}

impl Actuators {
    /// The intent that requests nothing at all; used for bots whose color has
    /// no registered strategy.
    pub open spec fn spec_none() -> Actuators {
        Actuators { rotate_shield: None, rotate_chainsaw: None, move_bot: None }
    }

    /// Build the intent that requests nothing at all.
    pub fn none() -> (r: Actuators)
        ensures
            r == Actuators::spec_none(),
    {
        Actuators { rotate_shield: None, rotate_chainsaw: None, move_bot: None }
    }
}

} // verus!
