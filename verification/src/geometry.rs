//! Points, sizes and rectangles, in logical pixels.

use vstd::prelude::*;
use crate::ieee::single::Single;

verus! {

/// A position or a displacement, in logical pixels.
#[derive(Clone, Copy, Debug, PartialEq)]
pub struct Point {
    pub x: Single,
    pub y: Single,
}

/// An extent, in logical pixels.
#[derive(Clone, Copy, Debug, PartialEq)]
pub struct Size {
    pub width: Single,
    pub height: Single,
}

/// A rectangle, in logical pixels.
#[derive(Clone, Copy, Debug, PartialEq)]
pub struct Bounds {
    pub origin: Point,
    pub size: Size,
}

/// One length per side of a rectangle, in logical pixels.
#[derive(Clone, Copy, Debug, PartialEq)]
pub struct Edges {
    pub top: Single,
    pub right: Single,
    pub bottom: Single,
    pub left: Single,
}

impl Point {
    pub open spec fn origin() -> Point {
        Point { x: Single::zero(), y: Single::zero() }
    }

    pub open spec fn plus(self, other: Point) -> Point {
        Point { x: self.x.plus(other.x), y: self.y.plus(other.y) }
    }

    pub open spec fn minus(self, other: Point) -> Point {
        Point { x: self.x.minus(other.x), y: self.y.minus(other.y) }
    }

    pub fn at_origin() -> (p: Point)
        ensures
            p == Point::origin(),
    {
        Point { x: Single::from_bits(0), y: Single::from_bits(0) }
    }

    pub fn add(self, other: Point) -> (p: Point)
        ensures
            p == self.plus(other),
    {
        Point { x: self.x.add(other.x), y: self.y.add(other.y) }
    }

    pub fn sub(self, other: Point) -> (p: Point)
        ensures
            p == self.minus(other),
    {
        Point { x: self.x.sub(other.x), y: self.y.sub(other.y) }
    }
}

impl Edges {
    pub open spec fn zero() -> Edges {
        Edges {
            top: Single::zero(),
            right: Single::zero(),
            bottom: Single::zero(),
            left: Single::zero(),
        }
    }
}

impl Default for Edges {
    fn default() -> (e: Edges)
        ensures
            e == Edges::zero(),
    {
        let z = Single::from_bits(0);
        Edges { top: z, right: z, bottom: z, left: z }
    }
}

} // verus!
