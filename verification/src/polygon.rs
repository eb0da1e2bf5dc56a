//! Convex polygons: translation and point containment via exact
//! side-of-line tests.

use vstd::prelude::*;

use crate::point::{orientation, orientation_value, Point};

verus! {

/// A convex polygon
#[derive(Debug, PartialEq, Clone)]
pub struct Polygon {
    /// The vertices of the polygon
    pub vertices: Vec<Point>,
}

impl Default for Polygon {
    /// The empty polygon.
    fn default() -> (r: Self)
        ensures
            r.vertices@.len() == 0,
    {
        Polygon { vertices: Vec::new() }
    }
}

/// The side classification of `cr` (the orientation of a point against an
/// edge) is compatible with the reference classification `cref`: the point
/// is exactly on the edge's line, or on the same strict side as the
/// reference.  The coordinates are integers, so "on the line" is exactly a
/// zero orientation; no tolerance is involved.
pub open spec fn side_matches(cr: int, cref: int) -> bool {
    cr == 0 || (cr > 0 && cref > 0) || (cr < 0 && cref < 0)
}

/// What it means for a polygon given by `vertices` to contain `p`: anything
/// with fewer than two vertices contains nothing; otherwise `p` must lie on
/// the same side of every edge (or exactly on its line), where the edge from
/// the last vertex back to the first serves as the reference side.
pub open spec fn polygon_contains(vertices: Seq<Point>, p: Point) -> bool {
    &&& vertices.len() >= 2
    &&& forall|i: int|
        0 <= i < vertices.len() - 1 ==> side_matches(
            orientation(#[trigger] vertices[i], vertices[i + 1], p),
            orientation(vertices[vertices.len() - 1], vertices[0], p),
        )
}

impl Polygon {
    /// Apply translation specified by `translation`, represented as
    /// a relative point
    pub fn translate(&self, translation: Point) -> (r: Self)
        requires
            forall|i: int| 0 <= i < self.vertices@.len() ==> {
                &&& i32::MIN <= (#[trigger] self.vertices@[i]).x + translation.x <= i32::MAX
                &&& i32::MIN <= self.vertices@[i].y + translation.y <= i32::MAX
            },
        ensures
            r.vertices@.len() == self.vertices@.len(),
            forall|i: int| 0 <= i < self.vertices@.len() ==> {
                &&& (#[trigger] r.vertices@[i]).x == self.vertices@[i].x + translation.x
                &&& r.vertices@[i].y == self.vertices@[i].y + translation.y
            },
    {
        let n: usize = self.vertices.len();
        let mut translated_vertices: Vec<Point> = Vec::new();
        let mut i: usize = 0;
        while i < n
            invariant
                0 <= i <= n,
                n == self.vertices@.len(),
                translated_vertices@.len() == i,
                forall|j: int| 0 <= j < self.vertices@.len() ==> {
                    &&& i32::MIN <= (#[trigger] self.vertices@[j]).x + translation.x <= i32::MAX
                    &&& i32::MIN <= self.vertices@[j].y + translation.y <= i32::MAX
                },
                forall|j: int| 0 <= j < i ==> {
                    &&& (#[trigger] translated_vertices@[j]).x == self.vertices@[j].x
                        + translation.x
                    &&& translated_vertices@[j].y == self.vertices@[j].y + translation.y
                },
            decreases n - i,
        {
            let vertex: Point = self.vertices[i];
            translated_vertices.push(
                Point { x: vertex.x + translation.x, y: vertex.y + translation.y },
            );
            i = i + 1;
        }
        Polygon { vertices: translated_vertices }
    }

    /// Checks if a given point rests inside the polygon
    pub fn contains_point(&self, point: Point) -> (r: bool)
        ensures
            r == polygon_contains(self.vertices@, point),
    {
        // Anything less than a line cannot "contain" anything
        if self.vertices.len() < 2 {
            return false;
        }
        let n: usize = self.vertices.len();
        let last: Point = self.vertices[n - 1];
        let first: Point = self.vertices[0];
        let reference: i128 = orientation_value(last, first, point);
        // If the point lies on the same side of all lines of the polygon,
        // the point is contained in the polygon.
        let mut i: usize = 0;
        while i < n - 1
            invariant
                0 <= i <= n - 1,
                n == self.vertices@.len(),
                n >= 2,
                reference == orientation(
                    self.vertices@[n - 1],
                    self.vertices@[0],
                    point,
                ),
                forall|j: int|
                    0 <= j < i ==> side_matches(
                        orientation(#[trigger] self.vertices@[j], self.vertices@[j + 1], point),
                        orientation(self.vertices@[n - 1], self.vertices@[0], point),
                    ),
            decreases n - 1 - i,
        {
            let side: i128 = orientation_value(self.vertices[i], self.vertices[i + 1], point);
            if !(side == 0 || (side > 0 && reference > 0) || (side < 0 && reference < 0)) {
                return false;
            }
            i = i + 1;
        }
        true
    }
}

} // verus!
