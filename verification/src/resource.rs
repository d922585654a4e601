//! Energy resources that appear on the grid and are eaten by bots.

use vstd::prelude::*;
use crate::constants::{RESOURCE_MAX_ENERGY_GAIN, RESOURCE_MIN_ENERGY_GAIN};

verus! {

/// A consumable lying on one cell.  The tick a bot occupies its cell, the
/// resource disappears and the bot gains `energy_gain` energy.
#[derive(Clone, Copy, PartialEq, Eq, Structural, Debug)]
pub struct Resource {
    pub energy_gain: usize,
}

impl Resource {
    /// A resource carries a gain within the configured bounds.
    pub open spec fn wf(self) -> bool {
        RESOURCE_MIN_ENERGY_GAIN <= self.energy_gain <= RESOURCE_MAX_ENERGY_GAIN
    }
}

} // verus!
