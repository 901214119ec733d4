//! An analytic, antialiased scanline rasterizer. Directed line segments and
//! quadratic curves are turned into signed coverage deltas in a `Raster`,
//! whose running sum, taken row-major, gives each pixel's coverage as a byte.
//!
//! All arithmetic is exact integer arithmetic: coordinates are fixed-point
//! with eight fractional bits (`geometry::SUBPIXEL` steps per pixel), and
//! coverage is counted in subpixel-squared units, `geometry::FULL_COVERAGE`
//! to a pixel. `coverage` states what one segment adds, `curve` how a curve
//! is flattened, and `laws` and `rect_law` prove properties of both.

use vstd::prelude::*;

pub mod coverage;
pub mod curve;
pub mod geometry;
pub mod laws;
pub mod raster;
pub mod rect_law;

verus! {

} // verus!

pub use geometry::{Geometry, Point};
pub use raster::{CapacityExceeded, Raster};
