//! Core of an offline environment-lit renderer.
//!
//! The verified part of the renderer is everything that works on plain bytes
//! and integers: decoding a Radiance HDR picture (header grammar and the
//! run-length-encoded scanlines) into a raster of RGBE pixels, the row-major
//! raster buffer itself, and the arithmetic that partitions the image plane
//! into tiles of work.  The floating-point geometry (vectors, ray-surface
//! intersection, Monte Carlo sampling) lives outside this library, in the
//! program that drives it.

pub mod hdr;
pub mod image;
pub mod render;
