//! Hardware-facing data: mouse packets and the VGA framebuffer and palette.
pub mod mouse;
pub mod vga;
