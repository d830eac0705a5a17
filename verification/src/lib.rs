//! Chromosaic: players take turns claiming the cells of a square spiral board,
//! each claiming the first cell that no other player's pieces attack.

pub mod grid;
pub mod piece;
pub mod game;
pub mod config;
pub mod text;
pub mod render;
