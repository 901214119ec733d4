use vstd::prelude::*;

verus! {

/// Number of subpixel steps in one pixel along each axis: coordinates are
/// fixed-point values with eight fractional bits.
pub const SUBPIXEL: i64 = 256;

/// Coverage of one whole pixel, in subpixel-squared area units.
pub const FULL_COVERAGE: i64 = 65536;

/// A point in fixed-point subpixel coordinates: `x / SUBPIXEL` pixels across,
/// `y / SUBPIXEL` pixels down.
#[derive(Clone, Copy, Debug, PartialEq, Eq, Structural)]
pub struct Point {
    pub x: i32,
    pub y: i32,
}

impl Point {
    pub fn new(x: i32, y: i32) -> (p: Point)
        ensures
            p.x == x,
            p.y == y,
    {
        Point { x, y }
    }

    /// The point at whole pixel coordinates `(px, py)`.
    pub fn from_pixels(px: i16, py: i16) -> (p: Point)
        ensures
            p.x == px * SUBPIXEL,
            p.y == py * SUBPIXEL,
    {
        Point { x: px as i32 * 256, y: py as i32 * 256 }
    }
}

/// A directed primitive of an outline: a straight segment from `a` to `b`, or
/// a quadratic Bezier curve from `a` to `c` with control point `b`.
#[derive(Clone, Copy, Debug, PartialEq, Eq, Structural)]
pub enum Geometry {
    Line { a: Point, b: Point },
    Curve { a: Point, b: Point, c: Point },
}

impl Geometry {
    pub fn is_line(&self) -> (r: bool)
        ensures
            r == (self is Line),
    {
        match self {
            Geometry::Line { .. } => true,
            Geometry::Curve { .. } => false,
        }
    }
}

} // verus!
