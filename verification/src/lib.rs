//! Game logic, map generation, rendering primitives and wire formats of a
//! small networked tank game, with VGA framebuffer, palette and mouse-packet
//! handling.
pub mod sys;
pub mod usr;
