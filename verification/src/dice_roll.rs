use vstd::prelude::*;

verus! {

/// How a roll should be interpreted by a downstream evaluator:
/// take the higher of two rolls, the lower, or a single plain roll.
#[derive(Clone, Debug, PartialEq)]
pub enum RollType {
    WithAdvantage,
    WithDisadvantage,
    Regular,
}

impl Default for RollType {
    fn default() -> (r: Self)
        ensures
            r == RollType::Regular,
    {
        Self::Regular
    }
}

/// The operator that combines a dice term with the preceding terms
/// of its group.
#[derive(Clone, Debug, PartialEq)]
pub enum Operation {
    Addition,
    Subtraction,
}

/// One parsed dice term: `[count]d<sides>[modifier][roll type]`.
/// The modifier carries its sign already applied; `None` means the
/// source text had no modifier.
#[derive(Clone, Debug, PartialEq)]
pub struct DiceRoll {
    pub number_of_dice_to_roll: u32,
    pub dice_sides: u32,
    pub modifier: Option<i32>,
    pub roll_type: RollType,
}

impl DiceRoll {
    #[must_use]
    pub fn new(
        dice_sides: u32,
        modifier: Option<i32>,
        number_of_dice_to_roll: u32,
        roll_type: RollType,
    ) -> (r: Self)
        ensures
            r == (DiceRoll { number_of_dice_to_roll, dice_sides, modifier, roll_type }),
    {
        DiceRoll { dice_sides, modifier, number_of_dice_to_roll, roll_type }
    }

    #[must_use]
    pub fn new_regular_roll(
        dice_sides: u32,
        modifier: Option<i32>,
        number_of_dice_to_roll: u32,
    ) -> (r: Self)
        ensures
            r == (DiceRoll {
                number_of_dice_to_roll,
                dice_sides,
                modifier,
                roll_type: RollType::Regular,
            }),
    {
        DiceRoll { dice_sides, modifier, number_of_dice_to_roll, roll_type: RollType::Regular }
    }
}

} // verus!
