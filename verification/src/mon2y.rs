use vstd::prelude::*;

pub mod game;
pub mod growth;
pub mod invariants;
pub mod mcts;
pub mod model;
pub mod node;
pub mod ranking;
pub mod scoring;
pub mod steps;
pub mod tree;
pub mod weighted_random;

pub use mcts::calculate_best_turn;

verus! {

/// A reward in fixed-point units: [`FIXED_ONE`] units make a reward of one.
pub type Reward = i64;

/// A selection score in the same fixed-point units as [`Reward`].
pub type Score = i64;

/// The number of fixed-point units that make one.
pub const FIXED_ONE: i64 = 1_000_000;

/// The usual exploration constant, the square root of two, in fixed-point
/// units.
pub const DEFAULT_EXPLORATION_CONSTANT: Score = 1_414_214;

/// The score of a child that was never visited: it outranks every other.
pub const SCORE_INFINITY: Score = 0x7fff_ffff_ffff_ffff;

/// How the move is chosen from the finished tree.
#[derive(Debug, Clone, Copy, PartialEq, Eq, Structural)]
pub enum BestTurnPolicy {
    /// A proven winning move if there is one, else the most visited child.
    MostVisits,
    /// The child with the greatest mean value.
    Ucb0,
}

impl BestTurnPolicy {
    /// The name of the policy.
    pub fn name(&self) -> (s: &'static str)
        ensures
            s@ == (match self {
                BestTurnPolicy::MostVisits => "MostVisits"@,
                BestTurnPolicy::Ucb0 => "Ucb0"@,
            }),
    {
        match self {
            BestTurnPolicy::MostVisits => "MostVisits",
            BestTurnPolicy::Ucb0 => "Ucb0",
        }
    }
}

} // verus!
