//! Short impartial games: both players have the same moves.

pub mod games;
