//! Integer geometry in the logical coordinate space.
//!
//! Arithmetic on coordinates saturates at the bounds of `i32`.
use vstd::prelude::*;

verus! {

/// A point, by its horizontal and its vertical coordinate.
#[derive(Clone, Copy, PartialEq, Eq, Structural, Debug)]
pub struct Point {
    pub x: i32,
    pub y: i32,
}

/// A size. Neither side is negative (see [`Size::wf`]).
#[derive(Clone, Copy, PartialEq, Eq, Structural, Debug)]
pub struct Size {
    pub w: i32,
    pub h: i32,
}

/// A rectangle, by its top left corner and its size.
#[derive(Clone, Copy, PartialEq, Eq, Structural, Debug)]
pub struct Rectangle {
    pub loc: Point,
    pub size: Size,
}

/// The coordinate nearest to `v`.
pub open spec fn clamped(v: int) -> i32 {
    if v > i32::MAX {
        i32::MAX
    } else if v < i32::MIN {
        i32::MIN
    } else {
        v as i32
    }
}

/// The smaller of two numbers.
pub open spec fn min(a: int, b: int) -> int {
    if a <= b {
        a
    } else {
        b
    }
}

/// The larger of two numbers.
pub open spec fn max(a: int, b: int) -> int {
    if a >= b {
        a
    } else {
        b
    }
}

fn clamp(v: i64) -> (r: i32)
    ensures
        r == clamped(v as int),
{
    if v > i32::MAX as i64 {
        i32::MAX
    } else if v < i32::MIN as i64 {
        i32::MIN
    } else {
        v as i32
    }
}

fn smaller(a: i32, b: i32) -> (r: i32)
    ensures
        r == min(a as int, b as int),
{
    if a <= b {
        a
    } else {
        b
    }
}

fn larger(a: i32, b: i32) -> (r: i32)
    ensures
        r == max(a as int, b as int),
{
    if a >= b {
        a
    } else {
        b
    }
}

impl Point {
    /// The sum of two points.
    pub open spec fn plus(self, other: Point) -> Point {
        Point { x: clamped(self.x + other.x), y: clamped(self.y + other.y) }
    }

    /// The difference of two points.
    pub open spec fn minus(self, other: Point) -> Point {
        Point { x: clamped(self.x - other.x), y: clamped(self.y - other.y) }
    }

    /// The origin of the coordinate space.
    pub open spec fn zero() -> Point {
        Point { x: 0, y: 0 }
    }

    /// The origin of the coordinate space.
    pub fn origin() -> (p: Point)
        ensures
            p == Point::zero(),
    {
        Point { x: 0, y: 0 }
    }

    /// Adds two points, coordinate by coordinate.
    pub fn offset_by(self, other: Point) -> (p: Point)
        ensures
            p == self.plus(other),
    {
        Point { x: clamp(self.x as i64 + other.x as i64), y: clamp(self.y as i64 + other.y as i64) }
    }

    /// Subtracts a point from this one, coordinate by coordinate.
    pub fn relative_to(self, other: Point) -> (p: Point)
        ensures
            p == self.minus(other),
    {
        Point { x: clamp(self.x as i64 - other.x as i64), y: clamp(self.y as i64 - other.y as i64) }
    }
}

impl Size {
    /// Whether both sides are there to be measured.
    pub open spec fn wf(self) -> bool {
        self.w >= 0 && self.h >= 0
    }
}

impl Rectangle {
    /// The rectangle at the origin without any area.
    pub open spec fn empty() -> Rectangle {
        Rectangle { loc: Point::zero(), size: Size { w: 0, h: 0 } }
    }

    /// The first column to the right of the rectangle, as far as coordinates reach.
    pub open spec fn right(self) -> int {
        clamped(self.loc.x + self.size.w) as int
    }

    /// The first row below the rectangle, as far as coordinates reach.
    pub open spec fn bottom(self) -> int {
        clamped(self.loc.y + self.size.h) as int
    }

    /// The smallest rectangle around two others.
    pub open spec fn around(self, other: Rectangle) -> Rectangle {
        let x = min(self.loc.x as int, other.loc.x as int);
        let y = min(self.loc.y as int, other.loc.y as int);
        Rectangle {
            loc: Point { x: x as i32, y: y as i32 },
            size: Size {
                w: clamped(max(self.right(), other.right()) - x),
                h: clamped(max(self.bottom(), other.bottom()) - y),
            },
        }
    }

    /// Whether `other` lies within this rectangle.
    pub open spec fn covers(self, other: Rectangle) -> bool {
        &&& self.loc.x <= other.loc.x
        &&& self.loc.y <= other.loc.y
        &&& other.right() <= self.right()
        &&& other.bottom() <= self.bottom()
    }

    /// Merges two rectangles into the smallest one that contains both.
    pub fn merge(self, other: Rectangle) -> (r: Rectangle)
        requires
            self.size.wf(),
            other.size.wf(),
        ensures
            r == self.around(other),
            r.size.wf(),
    {
        let x: i32 = smaller(self.loc.x, other.loc.x);
        let y: i32 = smaller(self.loc.y, other.loc.y);
        let right: i32 = larger(
            clamp(self.loc.x as i64 + self.size.w as i64),
            clamp(other.loc.x as i64 + other.size.w as i64),
        );
        let bottom: i32 = larger(
            clamp(self.loc.y as i64 + self.size.h as i64),
            clamp(other.loc.y as i64 + other.size.h as i64),
        );
        Rectangle {
            loc: Point { x, y },
            size: Size { w: clamp(right as i64 - x as i64), h: clamp(bottom as i64 - y as i64) },
        }
    }
}

} // verus!
