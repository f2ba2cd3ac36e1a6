//! The two combatants and the options of one computation.

use vstd::prelude::*;
use crate::combinatorics::MAX_NUM_TRIALS;

verus! {

/// The lowest face of a die.
pub const PIP_LO: i32 = 1;

/// The highest face of a die; a die that shows it is rolled again.
pub const PIP_HI: i32 = 8;

/// One combatant.
#[derive(Clone, Copy, Debug)]
pub struct Model {
    /// How many dice are rolled for each attack.
    pub num_dice: i32,
    /// The face from which on a roll counts as a success.
    pub dice_stat: i32,
    /// How many failed dice may be rolled once more.
    pub num_rerolls: i32,
    /// How much damage the armor takes away.
    pub armor: i32,
    /// How much of the opponent's armor is ignored.
    pub ap: i32,
    /// How many dice are rolled to block damage done to this model.
    pub num_shield_dice: i32,
    /// Damage that is added after armor and shield have been applied.
    pub toxic_dmg: i32,
}

impl Model {
    /// The values that a computation accepts: none is negative, the threshold
    /// is a face of the die or one above, and the shield dice are few enough
    /// for exact binomial coefficients.
    pub open spec fn valid(&self) -> bool {
        &&& 0 <= self.num_dice
        &&& PIP_LO <= self.dice_stat <= PIP_HI + 1
        &&& 0 <= self.num_rerolls
        &&& 0 <= self.armor
        &&& 0 <= self.ap
        &&& 0 <= self.num_shield_dice <= MAX_NUM_TRIALS
        &&& 0 <= self.toxic_dmg
    }

    /// Whether a computation accepts this model.
    pub fn is_valid(&self) -> (ok: bool)
        ensures
            ok == self.valid(),
    {
        0 <= self.num_dice && PIP_LO <= self.dice_stat && self.dice_stat <= PIP_HI + 1 && 0
            <= self.num_rerolls && 0 <= self.armor && 0 <= self.ap && 0 <= self.num_shield_dice
            && self.num_shield_dice <= MAX_NUM_TRIALS && 0 <= self.toxic_dmg
    }
}

/// The options of one computation.
#[derive(Clone, Copy, Debug)]
pub struct Options {
    /// How many trials are simulated for each combatant.
    pub num_simulations: i32,
    /// How many rounds of damage are added up.
    pub num_rounds: i32,
}

impl Options {
    /// At least one trial and at least one round.
    pub open spec fn valid(&self) -> bool {
        &&& 1 <= self.num_simulations
        &&& 1 <= self.num_rounds
    }

    /// Whether a computation accepts these options.
    pub fn is_valid(&self) -> (ok: bool)
        ensures
            ok == self.valid(),
    {
        1 <= self.num_simulations && 1 <= self.num_rounds
    }
}

} // verus!
