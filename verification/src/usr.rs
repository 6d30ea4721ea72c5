//! User programs.
pub mod client;
pub mod game;
