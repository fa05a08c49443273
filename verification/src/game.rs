use vstd::prelude::*;

use crate::mon2y::game::{Action, State};

verus! {

/// A game that the search can play: it names its positions and moves, and
/// sets up the first position.
pub trait Game {
    type StateType: State<ActionType = Self::ActionType>;

    type ActionType: Action<StateType = Self::StateType>;

    /// Whether the game can be set up as configured.
    spec fn playable(&self) -> bool;

    /// The position in which the game starts.
    fn init_game(&self) -> (state: Self::StateType)
        requires
            self.playable(),
        ensures
            Self::StateType::inv(state@),
    ;
}

} // verus!
