//! Escape-time fractal rasterizer.
//!
//! The crate renders the Mandelbrot set into a row-major RGB pixel buffer.
//! The escape counts themselves come from an escape-time kernel that the
//! caller supplies behind the [`field::EscapeField`] trait, while everything
//! that turns counts into a finished raster is verified here:
//!
//! - [`colour`]: quantizes an escape count into an RGB triple;
//! - [`raster`]: row-major buffer geometry and single-pixel access;
//! - [`field`]: the escape-count source, and its precomputed-grid backing;
//! - [`render`]: brute-force rasterization and the conjugate-symmetry mirror;
//! - [`cluster`]: recursive region compression with a checkerboard reuse pass;
//! - [`schedule`]: the bounded-window row scheduler and its deterministic
//!   assembly.

pub mod cluster;
pub mod colour;
pub mod field;
pub mod raster;
pub mod render;
pub mod schedule;
