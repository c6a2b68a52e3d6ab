use vstd::prelude::*;

use crate::dice_roll::{DiceRoll, Operation};

verus! {

/// A dice term together with the operator that joins it to the terms
/// before it in its group; the first term of a group carries
/// `Addition` when no leading sign was written.
#[derive(Clone, Debug, PartialEq)]
pub struct DiceRollWithOp {
    pub dice_roll: DiceRoll,
    pub operation: Operation,
}

impl DiceRollWithOp {
    #[must_use]
    pub fn new(dice_roll: DiceRoll, operation: Operation) -> (r: Self)
        ensures
            r == (DiceRollWithOp { dice_roll, operation }),
    {
        DiceRollWithOp { dice_roll, operation }
    }
}

} // verus!
