//! Sample realizations of the shape capability: an axis-aligned rectangle
//! with integer coordinates, and a labeled wrapper that attaches an opaque
//! identifier to any shape while delegating all geometry to it.

use vstd::prelude::*;

use crate::model::nested_forest;
use crate::model::place_all;
use crate::shape::Point;
use crate::shape::Shape;
use crate::shape::sort_by_area;
use crate::tree::Tree;

verus! {

/// Coordinates of indexable rectangles are kept within this bound so that
/// widths, heights and areas stay inside the machine integers used.
pub const COORD_LIMIT: i64 = 1_000_000_000;

/// An axis-aligned rectangle, the plain sample shape: the closed box from
/// `min` to `max`.  A rectangle with `min == max` is degenerate and has
/// area 0.
#[derive(Clone, Copy, PartialEq, Eq, Structural, Debug)]
pub struct Rect {
    pub min: Point,
    pub max: Point,
}

impl Rect {
    /// A degenerate rectangle at the origin, fit to serve as the container
    /// value of a tree root.
    pub fn empty() -> (r: Rect)
        ensures
            r == (Rect { min: Point { x: 0, y: 0 }, max: Point { x: 0, y: 0 } }),
            r.wf(),
            r.spec_area() == 0,
    {
        let r = Rect { min: Point { x: 0, y: 0 }, max: Point { x: 0, y: 0 } };
        proof {
            assert((r.max.x - r.min.x) * (r.max.y - r.min.y) == 0) by (nonlinear_arith)
                requires
                    r.max.x == r.min.x,
            ;
        }
        r
    }

    /// A rectangle's representative point always lies inside it: the
    /// centre of the closed box is within its bounds, also for degenerate
    /// rectangles, where it coincides with the corner.
    pub proof fn lemma_center_inside(self)
        requires
            self.wf(),
        ensures
            self.spec_contains_point(self.spec_center()),
    {
    }
}

impl Shape for Rect {
    open spec fn spec_area(&self) -> nat {
        ((self.max.x - self.min.x) * (self.max.y - self.min.y)) as nat
    }

    open spec fn spec_contains_point(&self, p: Point) -> bool {
        self.min.x <= p.x <= self.max.x && self.min.y <= p.y <= self.max.y
    }

    open spec fn spec_center(&self) -> Point {
        Point {
            x: (self.min.x + (self.max.x - self.min.x) / 2) as i64,
            y: (self.min.y + (self.max.y - self.min.y) / 2) as i64,
        }
    }

    open spec fn spec_bounding_rect(&self) -> (Point, Point) {
        (self.min, self.max)
    }

    open spec fn wf(&self) -> bool {
        &&& -COORD_LIMIT <= self.min.x <= self.max.x <= COORD_LIMIT
        &&& -COORD_LIMIT <= self.min.y <= self.max.y <= COORD_LIMIT
    }

    fn area(&self) -> (r: u64) {
        let w = (self.max.x - self.min.x) as u64;
        let h = (self.max.y - self.min.y) as u64;
        proof {
            assert(w * h <= 4_000_000_000_000_000_000) by (nonlinear_arith)
                requires
                    w <= 2_000_000_000,
                    h <= 2_000_000_000,
            ;
            assert((self.max.x - self.min.x) * (self.max.y - self.min.y) == w * h)
                by (nonlinear_arith)
                requires
                    w == self.max.x - self.min.x,
                    h == self.max.y - self.min.y,
            ;
        }
        w * h
    }

    fn contains_point(&self, point: Point) -> (r: bool) {
        self.min.x <= point.x && point.x <= self.max.x && self.min.y <= point.y && point.y
            <= self.max.y
    }

    fn bounding_rect(&self) -> (r: (Point, Point)) {
        (self.min, self.max)
    }

    fn center_point(&self) -> (r: Point) {
        Point {
            x: self.min.x + (self.max.x - self.min.x) / 2,
            y: self.min.y + (self.max.y - self.min.y) / 2,
        }
    }

    fn contains_shape(&self, rhs: &Self) -> (r: bool) {
        self.area() >= rhs.area() && self.contains_point(rhs.center_point())
    }
}

/// A shape with an opaque identifier attached: all geometry is delegated
/// to the wrapped shape, so callers can carry metadata through the tree
/// without touching its logic.
pub struct Labeled<L, S> {
    pub label: L,
    pub shape: S,
}

impl<L, S: Shape> Shape for Labeled<L, S> {
    open spec fn spec_area(&self) -> nat {
        self.shape.spec_area()
    }

    open spec fn spec_contains_point(&self, p: Point) -> bool {
        self.shape.spec_contains_point(p)
    }

    open spec fn spec_center(&self) -> Point {
        self.shape.spec_center()
    }

    open spec fn spec_bounding_rect(&self) -> (Point, Point) {
        self.shape.spec_bounding_rect()
    }

    open spec fn wf(&self) -> bool {
        self.shape.wf()
    }

    fn area(&self) -> (r: u64) {
        self.shape.area()
    }

    fn contains_point(&self, point: Point) -> (r: bool) {
        self.shape.contains_point(point)
    }

    fn bounding_rect(&self) -> (r: (Point, Point)) {
        self.shape.bounding_rect()
    }

    fn center_point(&self) -> (r: Point) {
        self.shape.center_point()
    }

    fn contains_shape(&self, rhs: &Self) -> (r: bool) {
        self.shape.contains_shape(&rhs.shape)
    }
}

impl Tree<Rect> {
    /// Builds the containment tree of the given rectangles: they are
    /// sorted by descending area (equal areas keeping their input order)
    /// and inserted in that order under a degenerate container root.
    pub fn from_polygon(value: Vec<Rect>) -> (t: Self)
        requires
            forall|i: int| 0 <= i < value@.len() ==> (#[trigger] value@[i]).wf(),
        ensures
            t.forest() == place_all(Seq::empty(), sort_by_area(value@)),
            t.values() == value@.to_multiset(),
            nested_forest(t.forest()),
    {
        Tree::from_shapes(value, Rect::empty())
    }
}

impl<L> Tree<Labeled<L, Rect>> {
    /// Builds the containment tree of the given labeled rectangles, as
    /// `from_polygon` does; the container root carries the given label and
    /// a degenerate rectangle, and is never part of the result.
    pub fn from_polygon_id(value: Vec<Labeled<L, Rect>>, root_label: L) -> (t: Self)
        requires
            forall|i: int| 0 <= i < value@.len() ==> (#[trigger] value@[i]).wf(),
        ensures
            t.forest() == place_all(Seq::empty(), sort_by_area(value@)),
            t.values() == value@.to_multiset(),
            nested_forest(t.forest()),
    {
        Tree::from_shapes(value, Labeled { label: root_label, shape: Rect::empty() })
    }
}

} // verus!
