//! A minimal 2D raster-graphics library.
//!
//! The crate keeps a rectangular grid of packed RGB pixels, draws lines and
//! circles into it with exact integer rasterization algorithms, and turns the
//! grid into a binary PPM (P6) byte stream.  Every operation is specified and
//! verified: bounds are checked before any mutation, and each drawing call is
//! proved to touch exactly the pixels its contract names.

pub mod colors;
pub mod coordinate;
pub mod graphics;
pub mod ppm;
pub mod validate;
