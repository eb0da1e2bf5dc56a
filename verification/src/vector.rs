//! The `Vector` value type: the same coordinate pair as `Point`, carrying
//! direction semantics, with the exact (integer) parts of the usual vector
//! algebra.

use vstd::prelude::*;

use crate::point::Point;

verus! {

/// A free vector in the plane.
///
/// Structurally identical to [`Point`] but interpreted as a translation or
/// direction rather than a position; convertible from `Point` by
/// reinterpreting the coordinates.
#[derive(Debug, PartialEq, Eq, Structural, Clone, Copy, Hash)]
pub struct Vector {
    /// The x component of the vector
    pub x: i32,
    /// The y component of the vector
    pub y: i32,
}

impl Default for Vector {
    /// The zero vector.
    fn default() -> (r: Self)
        ensures
            r.x == 0 && r.y == 0,
    {
        Vector { x: 0, y: 0 }
    }
}

impl From<Point> for Vector {
    /// Reinterprets a position as the vector from the origin to it.
    fn from(point: Point) -> (r: Self)
        ensures
            r.x == point.x && r.y == point.y,
    {
        Vector { x: point.x, y: point.y }
    }
}

impl vstd::std_specs::convert::FromSpecImpl<Point> for Vector {
    open spec fn obeys_from_spec() -> bool {
        true
    }

    open spec fn from_spec(point: Point) -> Vector {
        Vector { x: point.x, y: point.y }
    }
}

proof fn lemma_product_bound(a: int, b: int, m: int) by (nonlinear_arith)
    requires
        -m <= a <= m,
        -m <= b <= m,
        0 <= m,
    ensures
        -(m * m) <= a * b <= m * m,
{
}

impl Vector {
    /// Componentwise vector addition.
    pub fn add(self, other: Vector) -> (r: Vector)
        requires
            i32::MIN <= self.x + other.x <= i32::MAX,
            i32::MIN <= self.y + other.y <= i32::MAX,
        ensures
            r.x == self.x + other.x,
            r.y == self.y + other.y,
    {
        Vector { x: self.x + other.x, y: self.y + other.y }
    }

    /// Componentwise vector subtraction.
    pub fn sub(self, other: Vector) -> (r: Vector)
        requires
            i32::MIN <= self.x - other.x <= i32::MAX,
            i32::MIN <= self.y - other.y <= i32::MAX,
        ensures
            r.x == self.x - other.x,
            r.y == self.y - other.y,
    {
        Vector { x: self.x - other.x, y: self.y - other.y }
    }

    /// Scales the vector by an integer factor.
    pub fn scaled(self, factor: i32) -> (r: Vector)
        requires
            i32::MIN <= self.x * factor <= i32::MAX,
            i32::MIN <= self.y * factor <= i32::MAX,
        ensures
            r.x == self.x * factor,
            r.y == self.y * factor,
    {
        Vector { x: self.x * factor, y: self.y * factor }
    }

    /// Calculates the dot product of itself and another vector; the 128-bit
    /// result cannot overflow for any pair of 32-bit component vectors.
    pub fn dot_product(self, other: Vector) -> (r: i128)
        ensures
            r == self.x * other.x + self.y * other.y,
    {
        proof {
            lemma_product_bound(self.x as int, other.x as int, 0x8000_0000);
            lemma_product_bound(self.y as int, other.y as int, 0x8000_0000);
        }
        (self.x as i128) * (other.x as i128) + (self.y as i128) * (other.y as i128)
    }

    /// Calculates the cross product of itself and another vector: the scalar
    /// z-component of the three-dimensional cross product.
    pub fn cross_product(self, other: Vector) -> (r: i128)
        ensures
            r == self.x * other.y - self.y * other.x,
    {
        proof {
            lemma_product_bound(self.x as int, other.y as int, 0x8000_0000);
            lemma_product_bound(self.y as int, other.x as int, 0x8000_0000);
        }
        (self.x as i128) * (other.y as i128) - (self.y as i128) * (other.x as i128)
    }

    /// Returns the vector's normal vector, i.e. a vector that is
    /// perpendicular to this vector.
    pub fn normal(self) -> (r: Vector)
        requires
            self.y > i32::MIN,
        ensures
            r.x == -self.y,
            r.y == self.x,
    {
        Vector { x: -self.y, y: self.x }
    }

    /// Negates the vector, returning a vector with the same magnitude
    /// pointing in the opposite direction.
    pub fn negative(self) -> (r: Vector)
        requires
            self.x > i32::MIN,
            self.y > i32::MIN,
        ensures
            r.x == -self.x,
            r.y == -self.y,
    {
        Vector { x: -self.x, y: -self.y }
    }
}

} // verus!
