//! Escape-time rendering of the Mandelbrot set: the integer side of the
//! pipeline (splitting and reading dimension arguments, driving an orbit
//! until it escapes, pixel indexing, shading and the fill of the intensity
//! buffer), with its laws. The complex arithmetic itself is handed in by the
//! caller as closures.

pub mod escape;
pub mod parse;
pub mod render;
