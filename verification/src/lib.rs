//! Monte-Carlo tree search over turn-based games with player and chance moves.
//!
//! The engine works on integers only. Rewards, the exploration constant and
//! selection scores are fixed-point numbers: `mon2y::FIXED_ONE` units make one.
//! How a visited child is scored is left to the caller of the search.

pub mod game;
pub mod games;
pub mod mon2y;
pub mod test;
