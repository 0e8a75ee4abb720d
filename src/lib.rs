//! Escape-time rendering of the Mandelbrot set into an 8-bit grayscale raster.
//!
//! The numeric side of the computation (complex arithmetic on floats) is
//! supplied by the caller as closures; this crate owns the iteration
//! structure, the raster layout, the quantisation of escape counts, the
//! parsing of `"<a><sep><b>"` pairs and the framing of the PNG encoding.

pub mod encode;
pub mod parse;
pub mod render;

pub use encode::{encode_image, EncodeError};
pub use parse::{complex_of, pair_of, parse_complex, parse_pair, split_pair};
pub use render::{escape_count, render, shade};
