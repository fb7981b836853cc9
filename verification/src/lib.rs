//! Checkers (8x8, flying queens, mandatory maximal captures) with a
//! padded-array board representation.

pub mod geometry;
pub mod board;
pub mod action;
pub mod rules;
pub mod movegen;
pub mod laws;
pub mod game;
pub mod text;
pub mod board_text;
pub mod text_roundtrip;
pub mod duration;
pub mod rule_laws;
