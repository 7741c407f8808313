//! Integer points and axis-aligned rectangles.
//!
//! A rectangle is inclusive of both corners: it holds every point `p` with
//! `min.x <= p.x <= max.x` and `min.y <= p.y <= max.y`. A rectangle whose
//! corners are inverted on either axis holds no points and counts as empty.

use vstd::prelude::*;

verus! {

/// A point of the integer grid.
#[derive(Clone, Copy, PartialEq, Eq, Structural, Debug, Hash)]
pub struct Point {
    pub x: i32,
    pub y: i32,
}

/// An axis-aligned rectangle, inclusive of both corners.
#[derive(Clone, Copy, PartialEq, Eq, Structural, Debug, Hash)]
pub struct Rect {
    pub min: Point,
    pub max: Point,
}

/// Addition of two coordinates clamped to the `i32` range.
pub open spec fn sat_add_spec(a: i32, b: i32) -> i32 {
    if a + b > i32::MAX {
        i32::MAX
    } else if a + b < i32::MIN {
        i32::MIN
    } else {
        (a + b) as i32
    }
}

/// `a + b`, clamped to the `i32` range instead of overflowing.
pub fn sat_add(a: i32, b: i32) -> (r: i32)
    ensures
        r == sat_add_spec(a, b),
{
    match a.checked_add(b) {
        Some(s) => s,
        None => if b > 0 {
            i32::MAX
        } else {
            i32::MIN
        },
    }
}

impl Point {
    pub fn new(x: i32, y: i32) -> (r: Point)
        ensures
            r == (Point { x, y }),
    {
        Point { x, y }
    }

    /// Componentwise translation of the point, clamped to the `i32` range.
    pub open spec fn sat_offset_spec(self, offset: Point) -> Point {
        Point { x: sat_add_spec(self.x, offset.x), y: sat_add_spec(self.y, offset.y) }
    }

    pub fn sat_offset(self, offset: Point) -> (r: Point)
        ensures
            r == self.sat_offset_spec(offset),
    {
        Point { x: sat_add(self.x, offset.x), y: sat_add(self.y, offset.y) }
    }
}

impl Rect {
    /// Whether the rectangle holds `p`.
    pub open spec fn contains_spec(self, p: Point) -> bool {
        self.min.x <= p.x <= self.max.x && self.min.y <= p.y <= self.max.y
    }

    /// Whether the rectangle holds no point at all.
    pub open spec fn is_empty_spec(self) -> bool {
        self.min.x > self.max.x || self.min.y > self.max.y
    }

    /// The set of points the rectangle holds.
    pub open spec fn pts(self) -> Set<Point> {
        Set::new(|p: Point| self.contains_spec(p))
    }

    pub fn contains(&self, p: Point) -> (r: bool)
        ensures
            r == self.contains_spec(p),
    {
        self.min.x <= p.x && p.x <= self.max.x && self.min.y <= p.y && p.y <= self.max.y
    }

    pub fn is_empty(&self) -> (r: bool)
        ensures
            r == self.is_empty_spec(),
    {
        self.min.x > self.max.x || self.min.y > self.max.y
    }

    /// The rectangle holding exactly the two given corners, whichever way
    /// round they are handed over.
    pub fn from_corners(a: Point, b: Point) -> (r: Rect)
        ensures
            r.min.x == if a.x <= b.x { a.x } else { b.x },
            r.min.y == if a.y <= b.y { a.y } else { b.y },
            r.max.x == if a.x >= b.x { a.x } else { b.x },
            r.max.y == if a.y >= b.y { a.y } else { b.y },
            forall|p: Point| #[trigger] r.contains_spec(p) <==> (a.x <= p.x <= b.x || b.x <= p.x
                <= a.x) && (a.y <= p.y <= b.y || b.y <= p.y <= a.y),
    {
        Rect {
            min: Point { x: if a.x <= b.x { a.x } else { b.x }, y: if a.y <= b.y { a.y } else { b.y } },
            max: Point { x: if a.x >= b.x { a.x } else { b.x }, y: if a.y >= b.y { a.y } else { b.y } },
        }
    }

    /// The rectangle holding exactly the one given point.
    pub fn from_point(p: Point) -> (r: Rect)
        ensures
            r == (Rect { min: p, max: p }),
            forall|q: Point| #[trigger] r.contains_spec(q) <==> q == p,
    {
        Rect { min: p, max: p }
    }

    /// The bounding box of `self` and `other`, as a spec-level value.
    pub open spec fn union_spec(self, other: Rect) -> Rect {
        Rect {
            min: Point {
                x: if self.min.x <= other.min.x { self.min.x } else { other.min.x },
                y: if self.min.y <= other.min.y { self.min.y } else { other.min.y },
            },
            max: Point {
                x: if self.max.x >= other.max.x { self.max.x } else { other.max.x },
                y: if self.max.y >= other.max.y { self.max.y } else { other.max.y },
            },
        }
    }

    /// The bounding box of the two rectangles. It can hold points that
    /// neither input holds; the dirty-region algebra accepts that growth.
    pub fn union(self, other: Rect) -> (r: Rect)
        ensures
            r == self.union_spec(other),
            forall|p: Point| self.contains_spec(p) || other.contains_spec(p)
                ==> #[trigger] r.contains_spec(p),
    {
        Rect {
            min: Point {
                x: if self.min.x <= other.min.x { self.min.x } else { other.min.x },
                y: if self.min.y <= other.min.y { self.min.y } else { other.min.y },
            },
            max: Point {
                x: if self.max.x >= other.max.x { self.max.x } else { other.max.x },
                y: if self.max.y >= other.max.y { self.max.y } else { other.max.y },
            },
        }
    }

    /// The bounding box of `self` and the point `p`.
    pub open spec fn union_point_spec(self, p: Point) -> Rect {
        self.union_spec(Rect { min: p, max: p })
    }

    pub fn union_point(self, p: Point) -> (r: Rect)
        ensures
            r == self.union_point_spec(p),
            r.contains_spec(p) || self.is_empty_spec(),
            forall|q: Point| self.contains_spec(q) ==> #[trigger] r.contains_spec(q),
    {
        self.union(Rect { min: p, max: p })
    }

    /// The intersection of the two rectangles, as a spec-level value.
    pub open spec fn intersect_spec(self, other: Rect) -> Rect {
        Rect {
            min: Point {
                x: if self.min.x >= other.min.x { self.min.x } else { other.min.x },
                y: if self.min.y >= other.min.y { self.min.y } else { other.min.y },
            },
            max: Point {
                x: if self.max.x <= other.max.x { self.max.x } else { other.max.x },
                y: if self.max.y <= other.max.y { self.max.y } else { other.max.y },
            },
        }
    }

    /// The intersection: exactly the points both rectangles hold.
    pub fn intersect(self, other: Rect) -> (r: Rect)
        ensures
            r == self.intersect_spec(other),
            forall|p: Point| #[trigger] r.contains_spec(p) <==> self.contains_spec(p)
                && other.contains_spec(p),
    {
        Rect {
            min: Point {
                x: if self.min.x >= other.min.x { self.min.x } else { other.min.x },
                y: if self.min.y >= other.min.y { self.min.y } else { other.min.y },
            },
            max: Point {
                x: if self.max.x <= other.max.x { self.max.x } else { other.max.x },
                y: if self.max.y <= other.max.y { self.max.y } else { other.max.y },
            },
        }
    }

    /// Both corners translated by `offset`, each coordinate clamped to the
    /// `i32` range. Clamping matters only for regions touching the numeric
    /// edge of the world, where the grid is ill-defined anyway.
    pub open spec fn translate_spec(self, offset: Point) -> Rect {
        Rect { min: self.min.sat_offset_spec(offset), max: self.max.sat_offset_spec(offset) }
    }

    pub fn translate(self, offset: Point) -> (r: Rect)
        ensures
            r == self.translate_spec(offset),
    {
        Rect { min: self.min.sat_offset(offset), max: self.max.sat_offset(offset) }
    }

    /// The square reaching `radius` cells out from `center` on both axes,
    /// clamped to the `i32` range.
    pub fn from_center_half_size(center: Point, radius: i32) -> (r: Rect)
        requires
            radius >= 0,
        ensures
            r == (Rect {
                min: center.sat_offset_spec(Point { x: (-radius) as i32, y: (-radius) as i32 }),
                max: center.sat_offset_spec(Point { x: radius, y: radius }),
            }),
    {
        Rect {
            min: center.sat_offset(Point { x: -radius, y: -radius }),
            max: center.sat_offset(Point { x: radius, y: radius }),
        }
    }

}

} // verus!
