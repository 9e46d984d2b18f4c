//! The command vocabulary: one action per round per rover.

use vstd::prelude::*;

verus! {

/// One discrete rover command.
#[derive(Clone, Copy, Debug, PartialEq, Eq, Structural)]
pub enum ActionType {
    MoveUp,
    MoveDown,
    MoveLeft,
    MoveRight,
    Wait,
}

/// One program entry: the command together with the slot it was authored in.
#[derive(Clone, Copy, Debug)]
pub struct Action {
    pub moves: (ActionType, usize),
}

impl ActionType {
    /// Is this a translation command (as opposed to `Wait`)?
    pub open spec fn spec_is_move(&self) -> bool {
        !(*self is Wait)
    }

    /// Is this a translation command (as opposed to `Wait`)?
    pub fn is_move(&self) -> (r: bool)
        ensures
            r == self.spec_is_move(),
    {
        match self {
            ActionType::Wait => false,
            _ => true,
        }
    }
}

} // verus!
