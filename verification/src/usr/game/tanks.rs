//! The tank game: map, players, input, rendering and the game state.
pub mod bullet;
pub mod game;
pub mod map;
pub mod player;
pub mod renderer;
pub mod state;
pub mod userinput;
