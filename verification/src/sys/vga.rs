//! VGA framebuffer and palette.
pub mod framebuffer;
pub mod palette;
