//! Geometry primitives: points, rectangles, rotations and placements,
//! with the closed-interval overlap test on placements.

use vstd::prelude::*;

verus! {

/// An integer coordinate: the lower-left anchor of a placement, or the
/// upper-right corner of its occupied box.
#[derive(Clone, Copy, Debug, PartialEq, Eq, Structural)]
pub struct Point {
    pub x: u32,
    pub y: u32,
}

impl Point {
    pub fn new(x: u32, y: u32) -> (p: Point)
        ensures
            p.x == x,
            p.y == y,
    {
        Point { x, y }
    }
}

/// An axis-aligned rectangle, given by its width and height.
#[derive(Clone, Copy, Debug, PartialEq, Eq, Structural)]
pub struct Rectangle {
    pub width: u32,
    pub height: u32,
}

/// The area of a rectangle, as an unbounded integer.
pub open spec fn rect_area(r: Rectangle) -> int {
    r.width * r.height
}

/// The product of two `u32` values fits in a `u64`.
pub proof fn lemma_rect_area_fits_u64(r: Rectangle)
    ensures
        0 <= rect_area(r) <= u32::MAX * u32::MAX < u64::MAX,
{
    assert(r.width * r.height <= u32::MAX * u32::MAX) by (nonlinear_arith)
        requires
            r.width <= u32::MAX,
            r.height <= u32::MAX,
    ;
}

impl Rectangle {
    pub fn new(width: u32, height: u32) -> (r: Rectangle)
        ensures
            r.width == width,
            r.height == height,
    {
        Rectangle { width, height }
    }

    /// The area of the rectangle; the product of two `u32` values always
    /// fits in a `u64`.
    pub fn area(&self) -> (a: u64)
        ensures
            a == rect_area(*self),
    {
        proof {
            lemma_rect_area_fits_u64(*self);
        }
        self.width as u64 * self.height as u64
    }
}

/// Whether a rectangle is used in its stated orientation or with width and
/// height exchanged.
#[derive(Clone, Copy, Debug, PartialEq, Eq, Structural)]
pub enum Rotation {
    Normal,
    Rotated,
}

/// The horizontal extent a rectangle occupies under a rotation.
pub open spec fn extent_w(r: Rectangle, rot: Rotation) -> int {
    match rot {
        Rotation::Normal => r.width as int,
        Rotation::Rotated => r.height as int,
    }
}

/// The vertical extent a rectangle occupies under a rotation.
pub open spec fn extent_h(r: Rectangle, rot: Rotation) -> int {
    match rot {
        Rotation::Normal => r.height as int,
        Rotation::Rotated => r.width as int,
    }
}

/// A rectangle placed at a position: its bottom-left cell and its
/// top-right cell. Coordinates are inclusive: `top_right` is the last
/// occupied cell, not one past it.
#[derive(Clone, Copy, Debug, PartialEq, Eq, Structural)]
pub struct Placement {
    pub rectangle: Rectangle,
    pub rotation: Rotation,
    pub bottom_left: Point,
    pub top_right: Point,
}

/// A placement whose corners are consistent: the top-right cell is the
/// bottom-left cell plus the rotated extent minus one. Such a box is
/// nonempty on both axes.
pub open spec fn placement_wf(p: Placement) -> bool {
    &&& extent_w(p.rectangle, p.rotation) >= 1
    &&& extent_h(p.rectangle, p.rotation) >= 1
    &&& p.top_right.x == p.bottom_left.x + extent_w(p.rectangle, p.rotation) - 1
    &&& p.top_right.y == p.bottom_left.y + extent_h(p.rectangle, p.rotation) - 1
}

/// The closed-interval intersection test: two placements overlap iff their
/// inclusive boxes intersect on both axes.
pub open spec fn spec_overlaps(a: Placement, b: Placement) -> bool {
    &&& b.bottom_left.y <= a.top_right.y
    &&& b.bottom_left.x <= a.top_right.x
    &&& a.bottom_left.y <= b.top_right.y
    &&& a.bottom_left.x <= b.top_right.x
}

impl Placement {
    /// Places a rectangle at a bottom-left anchor. The rotated extents must
    /// be positive and the top-right corner must fit in `u32`; the codec
    /// checks both before constructing a placement from untrusted text.
    pub fn new(r: Rectangle, rotation: Rotation, bottom_left: Point) -> (p: Placement)
        requires
            extent_w(r, rotation) >= 1,
            extent_h(r, rotation) >= 1,
            bottom_left.x + extent_w(r, rotation) - 1 <= u32::MAX,
            bottom_left.y + extent_h(r, rotation) - 1 <= u32::MAX,
        ensures
            p.rectangle == r,
            p.rotation == rotation,
            p.bottom_left == bottom_left,
            placement_wf(p),
    {
        let (width, height): (u32, u32) = match rotation {
            Rotation::Normal => (r.width, r.height),
            Rotation::Rotated => (r.height, r.width),
        };
        proof {
            assert(width == extent_w(r, rotation));
            assert(height == extent_h(r, rotation));
        }

        let x_max = bottom_left.x + (width - 1);
        let y_max = bottom_left.y + (height - 1);
        let top_right = Point::new(x_max, y_max);

        Placement { rectangle: r, rotation, bottom_left, top_right }
    }

    pub fn overlaps(&self, rhs: &Placement) -> (r: bool)
        ensures
            r == spec_overlaps(*self, *rhs),
    {
        rhs.bottom_left.y <= self.top_right.y
            && rhs.bottom_left.x <= self.top_right.x
            && self.bottom_left.y <= rhs.top_right.y
            && self.bottom_left.x <= rhs.top_right.x
    }
}

/// The overlap test is symmetric: `a.overlaps(b)` and `b.overlaps(a)`
/// agree for all placements.
pub proof fn lemma_overlaps_symmetric(a: Placement, b: Placement)
    ensures
        spec_overlaps(a, b) == spec_overlaps(b, a),
{
}

/// One box lies within another, on both axes.
pub open spec fn within(inner: Placement, outer: Placement) -> bool {
    &&& outer.bottom_left.x <= inner.bottom_left.x
    &&& inner.top_right.x <= outer.top_right.x
    &&& outer.bottom_left.y <= inner.bottom_left.y
    &&& inner.top_right.y <= outer.top_right.y
}

/// Boxes within disjoint boxes are disjoint.
pub proof fn lemma_within_disjoint(a: Placement, b: Placement, pa: Placement, pb: Placement)
    requires
        within(a, pa),
        within(b, pb),
        !spec_overlaps(pa, pb),
    ensures
        !spec_overlaps(a, b),
{
}

/// The placement lies inside a box of the given width and height whose
/// lower-left cell is the origin.
pub open spec fn in_box(p: Placement, width: int, height: int) -> bool {
    p.top_right.x < width && p.top_right.y < height
}

/// No two distinct placements of the list overlap.
pub open spec fn pairwise_disjoint(ps: Seq<Placement>) -> bool {
    forall|i: int, j: int|
        0 <= i < ps.len() && 0 <= j < ps.len() && i != j
            ==> !spec_overlaps(#[trigger] ps[i], #[trigger] ps[j])
}

/// Two placements anchored at the same bottom-left cell always overlap:
/// they share that cell. Consistent placements have nonempty boxes, so
/// this holds of any two well-formed placements with equal anchors.
pub proof fn lemma_same_anchor_overlaps(a: Placement, b: Placement)
    requires
        placement_wf(a),
        placement_wf(b),
        a.bottom_left == b.bottom_left,
    ensures
        spec_overlaps(a, b),
{
}

} // verus!
