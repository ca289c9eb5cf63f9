//! Points, splitting axes and the squared Euclidean distance.
use vstd::multiset::Multiset;
use vstd::prelude::*;

verus! {

/// A point of the plane. Coordinates are fixed-point integers: a caller that
/// works with real coordinates picks a unit and rounds to it.
#[derive(Clone, Copy, Debug, PartialEq, Eq, Structural)]
pub struct Point {
    pub x: i32,
    pub y: i32,
}

/// The coordinate that a node uses to route points to its children.
#[derive(Clone, Copy, Debug, PartialEq, Eq, Structural)]
pub enum Split {
    X,
    Y,
}

impl Split {
    pub open spec fn spec_opposite(self) -> Split {
        match self {
            Split::X => Split::Y,
            Split::Y => Split::X,
        }
    }

    /// The other axis.
    pub fn opposite(&self) -> (r: Split)
        ensures
            r == self.spec_opposite(),
    {
        match self {
            Split::Y => Split::X,
            Split::X => Split::Y,
        }
    }
}

/// The coordinate of `p` on axis `s`.
pub open spec fn coord(p: Point, s: Split) -> int {
    match s {
        Split::X => p.x as int,
        Split::Y => p.y as int,
    }
}

/// The routing rule: `true` ("go left") iff `p` lies at or below `pivot` on
/// axis `s`. Ties go left.
pub open spec fn goes_left(pivot: Point, s: Split, p: Point) -> bool {
    coord(p, s) <= coord(pivot, s)
}

/// The square of the Euclidean distance between `a` and `b`. It orders points
/// by distance exactly as the distance itself does.
pub open spec fn sq_dist(a: Point, b: Point) -> int {
    (a.x - b.x) * (a.x - b.x) + (a.y - b.y) * (a.y - b.y)
}

/// `n` is one of the points of `s` nearest to `query`.
pub open spec fn is_nearest(s: Multiset<Point>, query: Point, n: Point) -> bool {
    &&& s.contains(n)
    &&& forall|q: Point| #[trigger] s.contains(q) ==> sq_dist(query, n) <= sq_dist(query, q)
}

/// A point on the other side of a splitting line than `query` is at least as
/// far from `query` as the line is.
pub(crate) proof fn lemma_far_side(pivot: Point, s: Split, query: Point, q: Point)
    requires
        goes_left(pivot, s, query) != goes_left(pivot, s, q),
    ensures
        sq_dist(query, q) >= (coord(query, s) - coord(pivot, s)) * (coord(query, s) - coord(
            pivot,
            s,
        )),
{
    let a = coord(query, s) - coord(pivot, s);
    let b = coord(q, s) - coord(query, s);
    assert(b * b >= a * a) by (nonlinear_arith)
        requires
            (a <= 0 && b >= -a) || (a > 0 && b <= -a),
    ;
    let dx = query.x - q.x;
    let dy = query.y - q.y;
    assert(dx * dx >= 0 && dy * dy >= 0) by (nonlinear_arith);
    match s {
        Split::X => {
            assert(dx * dx == b * b) by (nonlinear_arith)
                requires
                    dx == -b,
            ;
        },
        Split::Y => {
            assert(dy * dy == b * b) by (nonlinear_arith)
                requires
                    dy == -b,
            ;
        },
    }
}

/// `|a - b|` as an unsigned integer.
pub(crate) fn abs_diff(a: i32, b: i32) -> (r: u64)
    ensures
        r as int == if a >= b { a - b } else { b - a },
        r < 0x1_0000_0000,
{
    if a >= b {
        (a as i64 - b as i64) as u64
    } else {
        (b as i64 - a as i64) as u64
    }
}

/// `d * d`, where `d` fits in 32 bits.
pub(crate) fn square(d: u64) -> (r: u128)
    requires
        d < 0x1_0000_0000,
    ensures
        r as int == d * d,
        r < 0x1_0000_0000_0000_0000,
{
    assert(d * d < 0x1_0000_0000_0000_0000) by (nonlinear_arith)
        requires
            d < 0x1_0000_0000,
    ;
    (d as u128) * (d as u128)
}

impl Point {
    pub fn new(x: i32, y: i32) -> (r: Point)
        ensures
            r.x == x,
            r.y == y,
    {
        Point { x, y }
    }

    /// The squared Euclidean distance to `other`.
    pub fn squared_distance(&self, other: &Point) -> (r: u128)
        ensures
            r as int == sq_dist(*self, *other),
    {
        let dx = square(abs_diff(self.x, other.x));
        let dy = square(abs_diff(self.y, other.y));
        proof {
            assert((self.x - other.x) * (self.x - other.x) == (if self.x >= other.x { self.x - other.x } else { other.x - self.x }) * (if self.x >= other.x { self.x - other.x } else { other.x - self.x })) by (nonlinear_arith);
            assert((self.y - other.y) * (self.y - other.y) == (if self.y >= other.y { self.y - other.y } else { other.y - self.y }) * (if self.y >= other.y { self.y - other.y } else { other.y - self.y })) by (nonlinear_arith);
        }
        dx + dy
    }
}

} // verus!
