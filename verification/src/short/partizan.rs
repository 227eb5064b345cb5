//! Short partizan games: the two players have different moves.

pub mod algebra;
pub mod game_storage;
pub mod games;
pub mod id_list;
pub mod named_games;
pub mod identities;
pub mod number_up_star;
pub mod partizan_game;
pub mod thermograph;
pub mod transposition_table;
pub mod universe;
