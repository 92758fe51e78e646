//! The integer side of a Monte-Carlo path tracer.
//!
//! A path tracer computes with real numbers almost everywhere. What it
//! decides and lays out in whole numbers is gathered here: the raster that a
//! render fills and how its rows divide it, the plain-text image that a
//! raster is written out as, the rule that picks the surface a ray meets
//! first, and the seeds of the random sources of the rows.

pub mod ppm;
pub mod raster;
pub mod sampling;
pub mod scene;
pub mod text;
pub mod vec3;
