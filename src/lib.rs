//! Escape-time rendering of the Mandelbrot set: the pair parser for the
//! command-line values, the escape-time loop, and the raster fill that
//! turns per-pixel escape results into a grayscale intensity buffer.
pub mod escape;
pub mod parse;
pub mod render;
