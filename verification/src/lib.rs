//! A multiplayer scrabble game and computer opponent, with verified
//! board geometry, move validation, scoring and word lookup.
pub mod ai;
pub mod error;
pub mod game;
pub mod util;
