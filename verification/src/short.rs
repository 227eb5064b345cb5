//! Short games: games that end after finitely many moves.

pub mod impartial;
pub mod partizan;
