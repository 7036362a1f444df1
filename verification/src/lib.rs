//! A minimal 2D raster canvas: an in-memory pixel buffer with per-pixel
//! access, bounds-clipped rectangle and circle rasterization, and a binary
//! PPM (P6) encoder.
#![verifier::loop_isolation(false)]

pub mod canvas;
pub mod codec;
pub mod rect;
pub mod shape;

pub use canvas::Canvas;
pub use shape::circle;
pub use shape::rect;
pub use shape::Shape;
