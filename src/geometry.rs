//! Integral points and rectangles.

use vstd::prelude::*;

verus! {

/// One document point, in the integral units that every coordinate uses.
pub const POINT: i64 = 100;

/// Largest magnitude of a coordinate handed to the library.
pub const COORD_MAX: i64 = 1_000_000_000;

/// A coordinate that the library accepts as input.
pub open spec fn coord_ok(v: int) -> bool {
    -COORD_MAX <= v <= COORD_MAX
}

/// A position in document or screen space.
#[derive(Clone, Copy, Debug, PartialEq, Eq, Structural)]
pub struct Point {
    pub x: i64,
    pub y: i64,
}

impl Point {
    pub open spec fn wf(&self) -> bool {
        coord_ok(self.x as int) && coord_ok(self.y as int)
    }

    pub fn new(x: i64, y: i64) -> (r: Point)
        ensures
            r.x == x,
            r.y == y,
    {
        Point { x, y }
    }
}

/// An axis-aligned rectangle given by its two corners; `min` is the top left.
#[derive(Clone, Copy, Debug, PartialEq, Eq, Structural)]
pub struct Rect {
    pub min: Point,
    pub max: Point,
}

impl Rect {
    pub open spec fn wf(&self) -> bool {
        self.min.wf() && self.max.wf()
    }

    pub open spec fn spec_width(&self) -> int {
        self.max.x - self.min.x
    }

    pub open spec fn spec_height(&self) -> int {
        self.max.y - self.min.y
    }

    /// Whether `p` lies inside, borders included.
    pub open spec fn spec_contains(&self, p: Point) -> bool {
        self.min.x <= p.x <= self.max.x && self.min.y <= p.y <= self.max.y
    }

    pub fn from_min_max(min: Point, max: Point) -> (r: Rect)
        ensures
            r.min == min,
            r.max == max,
    {
        Rect { min, max }
    }

    /// The rectangle with top left corner `(x, y)` and the given size.
    pub fn from_min_size(x: i64, y: i64, width: i64, height: i64) -> (r: Rect)
        requires
            coord_ok(x as int),
            coord_ok(y as int),
            coord_ok(x + width),
            coord_ok(y + height),
        ensures
            r.wf(),
            r.min == (Point { x, y }),
            r.max.x == x + width,
            r.max.y == y + height,
    {
        Rect { min: Point { x, y }, max: Point { x: x + width, y: y + height } }
    }

    pub fn width(&self) -> (r: i64)
        requires
            self.wf(),
        ensures
            r == self.spec_width(),
    {
        self.max.x - self.min.x
    }

    pub fn height(&self) -> (r: i64)
        requires
            self.wf(),
        ensures
            r == self.spec_height(),
    {
        self.max.y - self.min.y
    }

    pub fn contains(&self, p: Point) -> (r: bool)
        ensures
            r == self.spec_contains(p),
    {
        self.min.x <= p.x && p.x <= self.max.x && self.min.y <= p.y && p.y <= self.max.y
    }
}

} // verus!
