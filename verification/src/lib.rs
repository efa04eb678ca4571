//! A minimal software rasterizer: an in-memory pixel buffer, integer
//! line drawing, even-odd scanline polygon filling, and a byte-exact
//! encoder for the legacy 24-bit bottom-up bitmap file layout.

pub mod framebuffer;
pub mod line;
pub mod polygon;
pub mod bmp;
