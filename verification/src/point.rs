//! The `Point` value type, the lexicographic order used to find an extremal
//! point, and the exact orientation quantity that every geometric predicate
//! in this crate is built on.

use vstd::prelude::*;

verus! {

/// A position in the plane: an immutable pair of integer coordinates.
///
/// Coordinates are exact integers, so equality and every derived geometric
/// predicate (orientation, side-of-line) are exact as well; there is no
/// tolerance anywhere in this crate.
#[derive(Debug, PartialEq, Eq, Structural, Clone, Copy, Hash)]
pub struct Point {
    /// The x coordinate of the point
    pub x: i32,
    /// The y coordinate of the point
    pub y: i32,
}

impl Default for Point {
    /// The origin.
    fn default() -> (r: Self)
        ensures
            r.x == 0 && r.y == 0,
    {
        Point { x: 0, y: 0 }
    }
}

/// The total order over points used to find the extremal "leftmost" point:
/// compare `x` first, then `y` as tie-break.
pub open spec fn lex_le(a: Point, b: Point) -> bool {
    a.x < b.x || (a.x == b.x && a.y <= b.y)
}

/// Twice the signed area of the triangle `p1`, `p2`, `p3`: positive when
/// traversing `p1 -> p2 -> p3` turns counter-clockwise, zero when the three
/// points are collinear, negative when it turns clockwise.
pub open spec fn orientation(p1: Point, p2: Point, p3: Point) -> int {
    (p2.x - p1.x) * (p3.y - p1.y) - (p2.y - p1.y) * (p3.x - p1.x)
}

proof fn lemma_mul_in_box(a: int, b: int, m: int) by (nonlinear_arith)
    requires
        -m <= a <= m,
        -m <= b <= m,
        0 <= m,
    ensures
        -(m * m) <= a * b <= m * m,
{
}

impl Point {
    /// Reports whether `self` precedes `other` (or equals it) in the
    /// lexicographic order: `x` first, then `y` as tie-break.
    pub fn lex_le(&self, other: &Point) -> (r: bool)
        ensures
            r == lex_le(*self, *other),
    {
        self.x < other.x || (self.x == other.x && self.y <= other.y)
    }
}

/// Computes the `orientation` quantity exactly; the 128-bit intermediate
/// arithmetic cannot overflow for any pair of 32-bit coordinates.
pub fn orientation_value(p1: Point, p2: Point, p3: Point) -> (r: i128)
    ensures
        r == orientation(p1, p2, p3),
{
    let ax: i64 = p2.x as i64 - p1.x as i64;
    let ay: i64 = p2.y as i64 - p1.y as i64;
    let bx: i64 = p3.x as i64 - p1.x as i64;
    let by: i64 = p3.y as i64 - p1.y as i64;
    proof {
        lemma_mul_in_box(ax as int, by as int, 0x1_0000_0000);
        lemma_mul_in_box(ay as int, bx as int, 0x1_0000_0000);
    }
    (ax as i128) * (by as i128) - (ay as i128) * (bx as i128)
}

} // verus!
