//! Axis-aligned integer geometry: points and half-open rectangles.
//!
//! `x` grows to the right and `y` grows upwards. A rectangle `(from, to)`
//! stands for the cells `[from.x, to.x) x [from.y, to.y)`.

use vstd::prelude::*;

verus! {

/// A point with integer coordinates.
#[derive(Clone, Copy, Debug, PartialEq, Eq, Hash, Structural)]
pub struct Point {
    pub x: i32,
    pub y: i32,
}

impl Point {
    /// The point `(x, y)`.
    pub fn new(x: i32, y: i32) -> (p: Point)
        ensures
            p == (Point { x, y }),
    {
        Point { x, y }
    }

    /// The origin: the bottom-left corner of every canvas.
    pub fn zero() -> (p: Point)
        ensures
            p == Point::origin(),
    {
        Point { x: 0, y: 0 }
    }

    /// The origin, for use in specifications.
    pub open spec fn origin() -> Point {
        Point { x: 0, y: 0 }
    }
}

/// The half-open rectangle `[from.x, to.x) x [from.y, to.y)`.
#[derive(Clone, Copy, Debug, PartialEq, Eq, Hash, Structural)]
pub struct Rect {
    pub from: Point,
    pub to: Point,
}

impl Rect {
    /// Extent along the x axis; negative when the corners are out of order.
    pub open spec fn dx(self) -> int {
        self.to.x - self.from.x
    }

    /// Extent along the y axis; negative when the corners are out of order.
    pub open spec fn dy(self) -> int {
        self.to.y - self.from.y
    }

    /// The area `(to.x - from.x) * (to.y - from.y)`.
    pub open spec fn area(self) -> int {
        self.dx() * self.dy()
    }

    /// Whether the cell with lower-left corner `(x, y)` lies in the rectangle.
    pub open spec fn contains(self, x: int, y: int) -> bool {
        self.from.x <= x < self.to.x && self.from.y <= y < self.to.y
    }

    /// Whether `p` lies strictly inside: on no edge of the rectangle.
    pub open spec fn strictly_contains(self, p: Point) -> bool {
        self.from.x < p.x < self.to.x && self.from.y < p.y < self.to.y
    }

    /// Whether the rectangle has at least one cell.
    pub open spec fn nonempty(self) -> bool {
        self.from.x < self.to.x && self.from.y < self.to.y
    }

    /// Whether the rectangle is nonempty and lies on a `width x height` canvas.
    pub open spec fn within(self, width: int, height: int) -> bool {
        0 <= self.from.x < self.to.x <= width && 0 <= self.from.y < self.to.y <= height
    }

    /// Whether the two rectangles share no cell because one lies entirely
    /// beside, above or below the other.
    pub open spec fn disjoint(self, other: Rect) -> bool {
        self.to.x <= other.from.x || other.to.x <= self.from.x || self.to.y <= other.from.y
            || other.to.y <= self.from.y
    }

    /// Whether the two rectangles share one whole edge, so that their union
    /// is again a rectangle.
    pub open spec fn mergeable(self, other: Rect) -> bool {
        ||| (self.from.y == other.from.y && self.to.y == other.to.y && (self.to.x == other.from.x
            || other.to.x == self.from.x))
        ||| (self.from.x == other.from.x && self.to.x == other.to.x && (self.to.y == other.from.y
            || other.to.y == self.from.y))
    }

    /// The smallest rectangle that covers both.
    pub open spec fn hull(self, other: Rect) -> Rect {
        Rect {
            from: Point {
                x: if self.from.x <= other.from.x { self.from.x } else { other.from.x },
                y: if self.from.y <= other.from.y { self.from.y } else { other.from.y },
            },
            to: Point {
                x: if self.to.x >= other.to.x { self.to.x } else { other.to.x },
                y: if self.to.y >= other.to.y { self.to.y } else { other.to.y },
            },
        }
    }

    /// The rectangle with the given corners. The corners are taken as they
    /// are: nothing orders them.
    pub fn new(from: Point, to: Point) -> (r: Rect)
        ensures
            r == (Rect { from, to }),
    {
        Rect { from, to }
    }

    /// The area of the rectangle, negative when exactly one pair of
    /// coordinates is out of order. Each extent must be representable as an
    /// `i32`.
    pub fn size(&self) -> (area: i64)
        requires
            i32::MIN <= self.dx() <= i32::MAX,
            i32::MIN <= self.dy() <= i32::MAX,
        ensures
            area == self.area(),
    {
        let dx: i64 = (self.to.x - self.from.x) as i64;
        let dy: i64 = (self.to.y - self.from.y) as i64;
        assert(-0x8000_0000 * 0x8000_0000 <= dx * dy <= 0x8000_0000 * 0x8000_0000)
            by (nonlinear_arith)
            requires
                -0x8000_0000 <= dx <= 0x7fff_ffff,
                -0x8000_0000 <= dy <= 0x7fff_ffff,
        ;
        dx * dy
    }

    /// Whether `p` lies strictly inside the rectangle.
    pub fn has_inside(&self, p: Point) -> (b: bool)
        ensures
            b == self.strictly_contains(p),
    {
        self.from.x < p.x && p.x < self.to.x && self.from.y < p.y && p.y < self.to.y
    }

    /// Whether the union of the two rectangles is a rectangle of which they
    /// are the two halves.
    pub fn can_merge_with(&self, other: &Rect) -> (b: bool)
        ensures
            b == self.mergeable(*other),
    {
        (self.from.y == other.from.y && self.to.y == other.to.y && (self.to.x == other.from.x
            || other.to.x == self.from.x)) || (self.from.x == other.from.x && self.to.x
            == other.to.x && (self.to.y == other.from.y || other.to.y == self.from.y))
    }

    /// The smallest rectangle that covers both.
    pub fn union_with(&self, other: &Rect) -> (r: Rect)
        ensures
            r == self.hull(*other),
    {
        Rect {
            from: Point {
                x: if self.from.x <= other.from.x { self.from.x } else { other.from.x },
                y: if self.from.y <= other.from.y { self.from.y } else { other.from.y },
            },
            to: Point {
                x: if self.to.x >= other.to.x { self.to.x } else { other.to.x },
                y: if self.to.y >= other.to.y { self.to.y } else { other.to.y },
            },
        }
    }
}

/// A point cut splits a rectangle into four quadrants of the same total area.
pub proof fn lemma_quadrant_areas(r: Rect, p: Point)
    ensures
        (Rect { from: r.from, to: p }).area() + (Rect {
            from: Point { x: p.x, y: r.from.y },
            to: Point { x: r.to.x, y: p.y },
        }).area() + (Rect { from: p, to: r.to }).area() + (Rect {
            from: Point { x: r.from.x, y: p.y },
            to: Point { x: p.x, y: r.to.y },
        }).area() == r.area(),
{
    let a: int = p.x - r.from.x;
    let b: int = r.to.x - p.x;
    let c: int = p.y - r.from.y;
    let d: int = r.to.y - p.y;
    assert(a * c + b * c + b * d + a * d == (a + b) * (c + d)) by (nonlinear_arith);
}

/// A line cut splits a rectangle into two halves of the same total area.
pub proof fn lemma_half_areas(r: Rect, lo: Rect, hi: Rect)
    requires
        (lo.from == r.from && hi.to == r.to) && ((lo.to.x == r.to.x && hi.from.x == r.from.x
            && lo.to.y == hi.from.y) || (lo.to.y == r.to.y && hi.from.y == r.from.y && lo.to.x
            == hi.from.x)),
    ensures
        lo.area() + hi.area() == r.area(),
{
    if lo.to.x == r.to.x && hi.from.x == r.from.x && lo.to.y == hi.from.y {
        let w: int = r.to.x - r.from.x;
        let c: int = lo.to.y - r.from.y;
        let d: int = r.to.y - lo.to.y;
        assert(w * c + w * d == w * (c + d)) by (nonlinear_arith);
    } else {
        let h: int = r.to.y - r.from.y;
        let a: int = lo.to.x - r.from.x;
        let b: int = r.to.x - lo.to.x;
        assert(a * h + b * h == (a + b) * h) by (nonlinear_arith);
    }
}

/// The union of two nonempty rectangles that share a whole edge has their
/// areas together.
pub proof fn lemma_hull_area(a: Rect, b: Rect)
    requires
        a.nonempty(),
        b.nonempty(),
        a.mergeable(b),
    ensures
        a.hull(b).area() == a.area() + b.area(),
        a.hull(b).nonempty(),
        a.disjoint(b),
{
    let u = a.hull(b);
    if a.from.y == b.from.y && a.to.y == b.to.y && (a.to.x == b.from.x || b.to.x == a.from.x) {
        let h: int = a.to.y - a.from.y;
        let wa: int = a.to.x - a.from.x;
        let wb: int = b.to.x - b.from.x;
        assert(wa * h + wb * h == (wa + wb) * h) by (nonlinear_arith);
    } else {
        let w: int = a.to.x - a.from.x;
        let ha: int = a.to.y - a.from.y;
        let hb: int = b.to.y - b.from.y;
        assert(w * ha + w * hb == w * (ha + hb)) by (nonlinear_arith);
    }
}

} // verus!
