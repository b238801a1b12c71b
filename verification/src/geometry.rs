//! Points, vectors and rectangles.
use crate::constants::{TWO, ZERO};
use crate::float::single::Single;
use vstd::prelude::*;

verus! {

#[derive(Clone, Copy, Debug, PartialEq, Eq, Structural)]
pub struct Point {
    pub x: Single,
    pub y: Single,
}

#[derive(Clone, Copy, Debug, PartialEq, Eq, Structural)]
pub struct Vector {
    pub x: Single,
    pub y: Single,
}

#[derive(Clone, Copy, Debug, PartialEq, Eq, Structural)]
pub struct Size {
    pub width: Single,
    pub height: Single,
}

#[derive(Clone, Copy, Debug, PartialEq, Eq, Structural)]
pub struct Rectangle {
    pub x: Single,
    pub y: Single,
    pub width: Single,
    pub height: Single,
}

/// A straight line between two points.
#[derive(Clone, Copy, Debug, PartialEq, Eq, Structural)]
pub struct Line {
    pub start: Point,
    pub end: Point,
}

impl Point {
    pub open spec fn spec_minus(self, other: Point) -> Vector {
        Vector { x: self.x.minus(other.x), y: self.y.minus(other.y) }
    }

    /// The way from the other point to this one.
    #[verifier::when_used_as_spec(spec_minus)]
    pub fn minus(self, other: Point) -> (r: Vector)
        ensures
            r == self.minus(other),
    {
        Vector { x: self.x.minus(other.x), y: self.y.minus(other.y) }
    }

    pub open spec fn spec_seen_from(self, origin: Point) -> Point {
        Point { x: self.x.minus(origin.x), y: self.y.minus(origin.y) }
    }

    /// This point in coordinates that start at another.
    #[verifier::when_used_as_spec(spec_seen_from)]
    pub fn seen_from(self, origin: Point) -> (r: Point)
        ensures
            r == self.seen_from(origin),
    {
        Point { x: self.x.minus(origin.x), y: self.y.minus(origin.y) }
    }
}

impl Vector {
    pub open spec fn spec_zero() -> Vector {
        Vector { x: Single { bits: ZERO }, y: Single { bits: ZERO } }
    }

    #[verifier::when_used_as_spec(spec_zero)]
    pub fn zero() -> (r: Vector)
        ensures
            r == Vector::zero(),
    {
        Vector { x: Single { bits: ZERO }, y: Single { bits: ZERO } }
    }

    pub open spec fn spec_plus(self, other: Vector) -> Vector {
        Vector { x: self.x.plus(other.x), y: self.y.plus(other.y) }
    }

    #[verifier::when_used_as_spec(spec_plus)]
    pub fn plus(self, other: Vector) -> (r: Vector)
        ensures
            r == self.plus(other),
    {
        Vector { x: self.x.plus(other.x), y: self.y.plus(other.y) }
    }

    pub open spec fn spec_minus(self, other: Vector) -> Vector {
        Vector { x: self.x.minus(other.x), y: self.y.minus(other.y) }
    }

    #[verifier::when_used_as_spec(spec_minus)]
    pub fn minus(self, other: Vector) -> (r: Vector)
        ensures
            r == self.minus(other),
    {
        Vector { x: self.x.minus(other.x), y: self.y.minus(other.y) }
    }

    pub open spec fn spec_times(self, factor: Single) -> Vector {
        Vector { x: self.x.times(factor), y: self.y.times(factor) }
    }

    #[verifier::when_used_as_spec(spec_times)]
    pub fn times(self, factor: Single) -> (r: Vector)
        ensures
            r == self.times(factor),
    {
        Vector { x: self.x.times(factor), y: self.y.times(factor) }
    }
}

impl Rectangle {
    pub open spec fn spec_zero() -> Rectangle {
        Rectangle {
            x: Single { bits: ZERO },
            y: Single { bits: ZERO },
            width: Single { bits: ZERO },
            height: Single { bits: ZERO },
        }
    }

    #[verifier::when_used_as_spec(spec_zero)]
    pub fn zero() -> (r: Rectangle)
        ensures
            r == Rectangle::zero(),
    {
        Rectangle {
            x: Single { bits: ZERO },
            y: Single { bits: ZERO },
            width: Single { bits: ZERO },
            height: Single { bits: ZERO },
        }
    }

    pub open spec fn spec_size(self) -> Size {
        Size { width: self.width, height: self.height }
    }

    #[verifier::when_used_as_spec(spec_size)]
    pub fn size(self) -> (r: Size)
        ensures
            r == self.size(),
    {
        Size { width: self.width, height: self.height }
    }

    pub open spec fn spec_equals(self, other: Rectangle) -> bool {
        &&& self.x.equals(other.x)
        &&& self.y.equals(other.y)
        &&& self.width.equals(other.width)
        &&& self.height.equals(other.height)
    }

    /// Whether the two have equal numbers; one that holds what is not a number equals nothing.
    #[verifier::when_used_as_spec(spec_equals)]
    pub fn equals(self, other: Rectangle) -> (r: bool)
        ensures
            r == self.equals(other),
    {
        self.x.equals(other.x) && self.y.equals(other.y) && self.width.equals(other.width)
            && self.height.equals(other.height)
    }

    pub open spec fn spec_center(self) -> Point {
        Point {
            x: self.x.plus(self.width.over(Single { bits: TWO })),
            y: self.y.plus(self.height.over(Single { bits: TWO })),
        }
    }

    /// The point in the middle.
    #[verifier::when_used_as_spec(spec_center)]
    pub fn center(self) -> (r: Point)
        ensures
            r == self.center(),
    {
        Point {
            x: self.x.plus(self.width.over(Single { bits: TWO })),
            y: self.y.plus(self.height.over(Single { bits: TWO })),
        }
    }

    pub open spec fn spec_contains(self, point: Point) -> bool {
        &&& self.x.le(point.x)
        &&& point.x.lt(self.x.plus(self.width))
        &&& self.y.le(point.y)
        &&& point.y.lt(self.y.plus(self.height))
    }

    /// Whether the point lies inside; the left and the upper edge belong to it.
    #[verifier::when_used_as_spec(spec_contains)]
    pub fn contains(self, point: Point) -> (r: bool)
        ensures
            r == self.contains(point),
    {
        self.x.le(point.x) && point.x.lt(self.x.plus(self.width)) && self.y.le(point.y)
            && point.y.lt(self.y.plus(self.height))
    }

    pub open spec fn spec_shrink(self, padding: Single) -> Rectangle {
        Rectangle {
            x: self.x.plus(padding),
            y: self.y.plus(padding),
            width: self.width.minus(padding.plus(padding)),
            height: self.height.minus(padding.plus(padding)),
        }
    }

    /// What is left inside a frame of this width.
    #[verifier::when_used_as_spec(spec_shrink)]
    pub fn shrink(self, padding: Single) -> (r: Rectangle)
        ensures
            r == self.shrink(padding),
    {
        Rectangle {
            x: self.x.plus(padding),
            y: self.y.plus(padding),
            width: self.width.minus(padding.plus(padding)),
            height: self.height.minus(padding.plus(padding)),
        }
    }

    /// No coordinate is not a number.
    pub open spec fn ordered(self) -> bool {
        !self.x.is_nan() && !self.y.is_nan() && !self.width.is_nan() && !self.height.is_nan()
    }
}

} // verus!
