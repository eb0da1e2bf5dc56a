//! Exact planar-geometry primitives for two-dimensional Euclidean space:
//! points, vectors, polygons and a convex-hull construction (gift wrapping),
//! all over integer coordinates so that every geometric predicate is exact.

pub mod convex_hull;
pub mod point;
pub mod polygon;
pub mod radians;
pub mod vector;

pub use convex_hull::ConvexHull;
pub use point::Point;
pub use polygon::Polygon;
pub use radians::RadiansError;
pub use vector::Vector;
