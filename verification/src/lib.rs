//! The rules of a minesweeper board, with a bad guy who roams it.
pub mod adjacent;
pub mod bad_guy;
pub mod field;
pub mod field_gen;
mod random;
pub mod board;
pub mod mines;
pub mod click;
pub mod flags;
pub mod roam;
pub mod game;
