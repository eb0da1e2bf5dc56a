//! Gift-wrapping (Jarvis march) convex-hull construction: a lazy cursor over
//! a borrowed, non-empty point collection that yields the hull vertices in
//! counter-clockwise order, starting from the lexicographically smallest
//! point, and ends by detecting the return to the start.

use vstd::prelude::*;

use crate::point::{lex_le, orientation, orientation_value, Point};

verus! {

/// `p1 -> p2 -> p3` is a counter-clockwise (or collinear) turn.
pub open spec fn is_ccw_turn(p1: Point, p2: Point, p3: Point) -> bool {
    orientation(p1, p2, p3) >= 0
}

/// Reports whether traversing `p1 -> p2 -> p3` constitutes a
/// counter-clockwise or collinear turn; exact integer arithmetic, no
/// tolerance.
pub fn is_counter_clockwise_turn(p1: Point, p2: Point, p3: Point) -> (r: bool)
    ensures
        r == is_ccw_turn(p1, p2, p3),
{
    orientation_value(p1, p2, p3) >= 0
}

/// `p` is the smallest point of `pts` in the lexicographic order.
pub open spec fn is_lex_min(pts: Seq<Point>, p: Point) -> bool {
    pts.contains(p) && forall|i: int| 0 <= i < pts.len() ==> lex_le(p, #[trigger] pts[i])
}

/// The endpoint guess of the gift-wrapping scan from `current` after it has
/// examined `pts[1]`, ..., `pts[i - 1]`, starting from the guess `pts[0]`.
///
/// A scanned point replaces the guess when the guess is `current` itself (a
/// self-referential match that must never win) or when the scanned point
/// lies strictly clockwise of the edge from `current` to the guess.
pub open spec fn endpoint_at(pts: Seq<Point>, current: Point, i: int) -> Point
    decreases i,
{
    if i <= 1 {
        pts[0]
    } else {
        let e = endpoint_at(pts, current, i - 1);
        let p = pts[i - 1];
        if e == current || !is_ccw_turn(p, current, e) {
            p
        } else {
            e
        }
    }
}

/// The hull vertex selected by one full gift-wrapping scan from `current`.
pub open spec fn march_step(pts: Seq<Point>, current: Point) -> Point {
    endpoint_at(pts, current, pts.len() as int)
}

/// Finds the convex hull for a given set of points, yielded in counter
/// clockwise order.
///
/// The cursor borrows the caller-owned point collection, never mutates or
/// reorders it, and yields no point that is not present in the input.  It is
/// consumed exactly once: after `next` has returned `None` the sequence is
/// exhausted, and a fresh cursor must be constructed to recompute.
#[derive(Debug)]
pub struct ConvexHull<'a> {
    points: &'a [Point],
    leftmost_point: Point,
    current_point: Point,
    state: ConvexHullState,
}

#[derive(Debug)]
enum ConvexHullState {
    Initial,
    FindingNextPoint,
}

impl<'a> ConvexHull<'a> {
    /// The borrowed input points, as a sequence.
    pub closed spec fn points_seq(self) -> Seq<Point> {
        self.points@
    }

    /// The lexicographically smallest input point: the starting vertex and
    /// the termination sentinel.
    pub closed spec fn leftmost(self) -> Point {
        self.leftmost_point
    }

    /// The most recently selected hull vertex.
    pub closed spec fn current(self) -> Point {
        self.current_point
    }

    /// Whether the initial vertex has already been yielded.
    pub closed spec fn started(self) -> bool {
        self.state is FindingNextPoint
    }

    /// Well-formedness: established by construction, preserved by every
    /// production step.
    pub open spec fn wf(self) -> bool {
        &&& self.points_seq().len() > 0
        &&& is_lex_min(self.points_seq(), self.leftmost())
        &&& self.points_seq().contains(self.current())
        &&& (!self.started() ==> self.current() == self.leftmost())
    }

    /// Constructs a new [`ConvexHull`] over a given set of points.
    ///
    /// ## Errors
    /// Returns an error when zero points are given; succeeds on every
    /// non-empty input.
    pub fn try_new(points: &'a [Point]) -> (r: Result<Self, ()>)
        ensures
            r is Ok <==> points@.len() > 0,
            r matches Ok(h) ==> {
                &&& h.wf()
                &&& h.points_seq() == points@
                &&& is_lex_min(points@, h.leftmost())
                &&& h.current() == h.leftmost()
                &&& !h.started()
            },
    {
        if points.len() == 0 {
            Err(())
        } else {
            let mut leftmost_point: Point = points[0];
            let n: usize = points.len();
            let mut i: usize = 1;
            while i < n
                invariant
                    1 <= i <= n,
                    n == points@.len(),
                    points@.contains(leftmost_point),
                    forall|j: int| 0 <= j < i ==> lex_le(leftmost_point, #[trigger] points@[j]),
                decreases n - i,
            {
                if points[i].lex_le(&leftmost_point) {
                    leftmost_point = points[i];
                }
                i = i + 1;
            }
            Ok(Self {
                points,
                leftmost_point,
                current_point: leftmost_point,
                state: ConvexHullState::Initial,
            })
        }
    }

    /// Produces the next hull vertex, or `None` once the scan has returned
    /// to the starting point; the sequence is then exhausted.
    pub fn next(&mut self) -> (r: Option<Point>)
        requires
            old(self).wf(),
        ensures
            final(self).wf(),
            final(self).points_seq() == old(self).points_seq(),
            final(self).leftmost() == old(self).leftmost(),
            final(self).started(),
            !old(self).started() ==> {
                &&& r == Some(old(self).leftmost())
                &&& final(self).current() == old(self).current()
            },
            old(self).started() ==> {
                &&& final(self).current() == march_step(old(self).points_seq(), old(self).current())
                &&& r == (if final(self).current() == old(self).leftmost() {
                    Option::<Point>::None
                } else {
                    Some(final(self).current())
                })
            },
            r matches Some(p) ==> final(self).points_seq().contains(p),
            old(self).started() && supported(old(self).points_seq(), old(self).current())
                ==> forall|j: int|
                0 <= j < old(self).points_seq().len() ==> is_ccw_turn(
                    #[trigger] old(self).points_seq()[j],
                    old(self).current(),
                    final(self).current(),
                ),
    {
        proof {
            if self.started() && supported(self.points_seq(), self.current()) {
                lemma_march_step_closure(self.points_seq(), self.current());
            }
        }
        match self.state {
            ConvexHullState::Initial => {
                self.state = ConvexHullState::FindingNextPoint;
                Some(self.leftmost_point)
            },
            ConvexHullState::FindingNextPoint => self.find_next_point(),
        }
    }

    /// One full gift-wrapping scan: selects, from the current vertex, the
    /// endpoint that no other input point lies clockwise of, makes it the
    /// new current vertex, and yields it unless the scan has returned to the
    /// starting point.
    fn find_next_point(&mut self) -> (r: Option<Point>)
        requires
            old(self).wf(),
            old(self).started(),
        ensures
            final(self).wf(),
            final(self).points_seq() == old(self).points_seq(),
            final(self).leftmost() == old(self).leftmost(),
            final(self).started(),
            final(self).current() == march_step(old(self).points_seq(), old(self).current()),
            r == (if final(self).current() == old(self).leftmost() {
                Option::<Point>::None
            } else {
                Some(final(self).current())
            }),
    {
        let ghost pts = self.points@;
        let ghost cur = self.current_point;
        let first_point: Point = self.points[0];
        let mut endpoint: Point = first_point;
        let n: usize = self.points.len();
        let mut i: usize = 1;
        while i < n
            invariant
                1 <= i <= n,
                n == pts.len(),
                self.points@ == pts,
                self.current_point == cur,
                endpoint == endpoint_at(pts, cur, i as int),
            decreases n - i,
        {
            let point: Point = self.points[i];
            if endpoint == self.current_point
                || !is_counter_clockwise_turn(point, self.current_point, endpoint) {
                endpoint = point;
            }
            i = i + 1;
        }
        proof {
            lemma_endpoint_at_in_pts(pts, cur, n as int);
        }
        self.current_point = endpoint;
        if self.leftmost_point == endpoint {
            None
        } else {
            Some(endpoint)
        }
    }
}

/// The scan only ever selects one of the input points.
proof fn lemma_endpoint_at_in_pts(pts: Seq<Point>, current: Point, i: int)
    requires
        pts.len() > 0,
        1 <= i <= pts.len(),
    ensures
        pts.contains(endpoint_at(pts, current, i)),
    decreases i,
{
    if i <= 1 {
        assert(pts.contains(pts[0]));
    } else {
        lemma_endpoint_at_in_pts(pts, current, i - 1);
        assert(pts.contains(pts[i - 1]));
    }
}

/// CONTAINMENT: every vertex a full scan selects is drawn from the input.
pub proof fn lemma_march_step_in_pts(pts: Seq<Point>, current: Point)
    requires
        pts.len() > 0,
    ensures
        pts.contains(march_step(pts, current)),
{
    lemma_endpoint_at_in_pts(pts, current, pts.len() as int);
}

/// The scan's guess equals `current` exactly as long as every examined point
/// (including the initial guess) equals `current`.
proof fn lemma_endpoint_at_eq_current(pts: Seq<Point>, current: Point, i: int)
    requires
        pts.len() > 0,
        1 <= i <= pts.len(),
    ensures
        (endpoint_at(pts, current, i) == current) <==> (forall|j: int|
            0 <= j < i ==> #[trigger] pts[j] == current),
    decreases i,
{
    if i > 1 {
        lemma_endpoint_at_eq_current(pts, current, i - 1);
    }
}

/// The cross product of the direction `(dx, dy)` with the vector from `base`
/// to `q`: positive when `q` lies to the left of the directed line through
/// `base` along `(dx, dy)`, zero when it lies on the line.
pub open spec fn dir_cross(dx: int, dy: int, base: Point, q: Point) -> int {
    dx * (q.y - base.y) - dy * (q.x - base.x)
}

/// The dot product of the direction `(dx, dy)` with the vector from `base`
/// to `q`: positive when `q` lies ahead of `base` along the direction.
pub open spec fn dir_dot(dx: int, dy: int, base: Point, q: Point) -> int {
    dx * (q.x - base.x) + dy * (q.y - base.y)
}

/// `(dx, dy)` witnesses that `c` lies on the boundary of the hull of `pts`:
/// every point lies on the left side of (or on) the line through `c` with
/// direction `(dx, dy)`, and no point lies strictly ahead of `c` on that
/// line itself.
pub open spec fn supporting_dir(pts: Seq<Point>, c: Point, dx: int, dy: int) -> bool {
    &&& !(dx == 0 && dy == 0)
    &&& forall|j: int| 0 <= j < pts.len() ==> dir_cross(dx, dy, c, #[trigger] pts[j]) >= 0
    &&& forall|j: int|
        0 <= j < pts.len() ==> !(dir_cross(dx, dy, c, #[trigger] pts[j]) == 0 && dir_dot(
            dx,
            dy,
            c,
            pts[j],
        ) > 0)
}

/// `c` is a boundary vertex of `pts` with some supporting direction.
pub open spec fn supported(pts: Seq<Point>, c: Point) -> bool {
    exists|dx: int, dy: int| supporting_dir(pts, c, dx, dy)
}

/// No three pairwise-distinct input points are collinear.
pub open spec fn no_three_collinear(pts: Seq<Point>) -> bool {
    forall|a: Point, b: Point, c: Point|
        pts.contains(a) && pts.contains(b) && pts.contains(c) && a != b && a != c && b != c
            ==> #[trigger] orientation(a, b, c) != 0
}

/// `pts1` and `pts2` hold the same set of point values.
pub open spec fn same_point_set(pts1: Seq<Point>, pts2: Seq<Point>) -> bool {
    forall|p: Point| #![trigger pts1.contains(p)] #![trigger pts2.contains(p)]
        pts1.contains(p) <==> pts2.contains(p)
}

proof fn lemma_shift_orientation(qx: int, qy: int, cx: int, cy: int, ex: int, ey: int)
    by (nonlinear_arith)
    ensures
        (cx - qx) * (ey - qy) - (cy - qy) * (ex - qx) == (ex - cx) * (qy - cy) - (ey - cy) * (qx
            - cx),
{
}

proof fn lemma_orientation_antisymmetric(
    ax: int,
    ay: int,
    bx: int,
    by: int,
    cx: int,
    cy: int,
)
    by (nonlinear_arith)
    ensures
        (bx - ax) * (cy - ay) - (by - ay) * (cx - ax) == -((bx - cx) * (ay - cy) - (by - cy) * (ax
            - cx)),
{
}

#[verifier::rlimit(100)]
proof fn lemma_triple_cross_identity(
    ux: int,
    uy: int,
    vx: int,
    vy: int,
    wx: int,
    wy: int,
    dx: int,
    dy: int,
)
    ensures
        (ux * vy - uy * vx) * (dx * wy - dy * wx) + (vx * wy - vy * wx) * (dx * uy - dy * ux) + (wx
            * uy - wy * ux) * (dx * vy - dy * vx) == 0,
{
    broadcast use vstd::arithmetic::mul::group_mul_properties;
}

proof fn lemma_cross_antisymmetric(ux: int, uy: int, wx: int, wy: int)
    by (nonlinear_arith)
    ensures
        wx * uy - wy * ux == -(ux * wy - uy * wx),
{
}

proof fn lemma_mul_nonpos_nonneg(a: int, b: int)
    by (nonlinear_arith)
    requires
        a <= 0,
        b >= 0,
    ensures
        a * b <= 0,
{
}

proof fn lemma_factor_nonneg(b: int, u: int)
    by (nonlinear_arith)
    requires
        b * u >= 0,
        u > 0,
    ensures
        b >= 0,
{
}

proof fn lemma_interior_pivot(
    ux: int,
    uy: int,
    vx: int,
    vy: int,
    wx: int,
    wy: int,
    dx: int,
    dy: int,
)
    requires
        ux * vy - uy * vx < 0,
        ux * wy - uy * wx >= 0,
        dx * wy - dy * wx >= 0,
        dx * vy - dy * vx >= 0,
        dx * uy - dy * ux > 0,
    ensures
        vx * wy - vy * wx >= 0,
{
    lemma_triple_cross_identity(ux, uy, vx, vy, wx, wy, dx, dy);
    lemma_mul_nonpos_nonneg(ux * vy - uy * vx, dx * wy - dy * wx);
    lemma_cross_antisymmetric(ux, uy, wx, wy);
    lemma_mul_nonpos_nonneg(wx * uy - wy * ux, dx * vy - dy * vx);
    lemma_factor_nonneg(vx * wy - vy * wx, dx * uy - dy * ux);
}

proof fn lemma_boundary_collinear(ux: int, uy: int, wx: int, wy: int, dx: int, dy: int)
    by (nonlinear_arith)
    requires
        dx * uy - dy * ux == 0,
        dx * ux + dy * uy < 0,
        ux * wy - uy * wx >= 0,
        dx * wy - dy * wx >= 0,
    ensures
        dx * wy - dy * wx == 0,
{
}

proof fn lemma_boundary_behind(vx: int, vy: int, wx: int, wy: int, dx: int, dy: int)
    by (nonlinear_arith)
    requires
        dx * wy - dy * wx == 0,
        dx * wx + dy * wy <= 0,
        dx * vy - dy * vx >= 0,
        !(dx == 0 && dy == 0),
    ensures
        vx * wy - vy * wx >= 0,
{
}

proof fn lemma_perp_parallel_zero(ux: int, uy: int, dx: int, dy: int)
    by (nonlinear_arith)
    requires
        dx * uy - dy * ux == 0,
        dx * ux + dy * uy == 0,
        !(dx == 0 && dy == 0),
    ensures
        ux == 0 && uy == 0,
{
}

proof fn lemma_dot_at_base(ux: int, uy: int, ex: int, ey: int)
    by (nonlinear_arith)
    ensures
        ux * (ex - ex) + uy * (ey - ey) == 0,
{
}

proof fn lemma_neg_self_dot(ux: int, uy: int)
    by (nonlinear_arith)
    requires
        !(ux == 0 && uy == 0),
    ensures
        ux * (-ux) + uy * (-uy) < 0,
{
}

proof fn lemma_dir_cross_base_shift(
    ux: int,
    uy: int,
    cx: int,
    cy: int,
    ex: int,
    ey: int,
    qx: int,
    qy: int,
)
    by (nonlinear_arith)
    requires
        ux == ex - cx,
        uy == ey - cy,
    ensures
        ux * (qy - ey) - uy * (qx - ex) == ux * (qy - cy) - uy * (qx - cx),
{
}

proof fn lemma_orientation_self(cx: int, cy: int, qx: int, qy: int)
    by (nonlinear_arith)
    ensures
        (cx - qx) * (qy - qy) - (cy - qy) * (qx - qx) == 0,
{
}

proof fn lemma_orientation_from_self(cx: int, cy: int, ex: int, ey: int)
    by (nonlinear_arith)
    ensures
        (cx - cx) * (ey - cy) - (cy - cy) * (ex - cx) == 0,
{
}

/// Instantiates a supporting direction at one contained point value.
proof fn lemma_support_at(pts: Seq<Point>, c: Point, dx: int, dy: int, q: Point)
    requires
        supporting_dir(pts, c, dx, dy),
        pts.contains(q),
    ensures
        dir_cross(dx, dy, c, q) >= 0,
        !(dir_cross(dx, dy, c, q) == 0 && dir_dot(dx, dy, c, q) > 0),
{
    let j = choose|j: int| 0 <= j < pts.len() && pts[j] == q;
    assert(dir_cross(dx, dy, c, pts[j]) >= 0);
    assert(!(dir_cross(dx, dy, c, pts[j]) == 0 && dir_dot(dx, dy, c, pts[j]) > 0));
}

/// The replacement step of the scan keeps every previously-cleared point on
/// the counter-clockwise side: when `p` lies strictly clockwise of the edge
/// `cur -> e`, every point on the counter-clockwise side of `cur -> e` is
/// also on the counter-clockwise side of `cur -> p`.
proof fn lemma_beat_preserves_side(
    pts: Seq<Point>,
    cur: Point,
    dx: int,
    dy: int,
    e: Point,
    p: Point,
    q: Point,
)
    requires
        supporting_dir(pts, cur, dx, dy),
        pts.contains(e),
        pts.contains(p),
        pts.contains(q),
        e != cur,
        !is_ccw_turn(p, cur, e),
        is_ccw_turn(q, cur, e),
    ensures
        is_ccw_turn(q, cur, p),
{
    let ux: int = e.x - cur.x;
    let uy: int = e.y - cur.y;
    let vx: int = p.x - cur.x;
    let vy: int = p.y - cur.y;
    let wx: int = q.x - cur.x;
    let wy: int = q.y - cur.y;
    lemma_support_at(pts, cur, dx, dy, e);
    lemma_support_at(pts, cur, dx, dy, p);
    lemma_support_at(pts, cur, dx, dy, q);
    lemma_shift_orientation(p.x as int, p.y as int, cur.x as int, cur.y as int, e.x as int, e.y as int);
    lemma_shift_orientation(q.x as int, q.y as int, cur.x as int, cur.y as int, e.x as int, e.y as int);
    lemma_shift_orientation(q.x as int, q.y as int, cur.x as int, cur.y as int, p.x as int, p.y as int);
    assert(ux * vy - uy * vx < 0);
    assert(ux * wy - uy * wx >= 0);
    if dx * uy - dy * ux > 0 {
        lemma_interior_pivot(ux, uy, vx, vy, wx, wy, dx, dy);
    } else {
        assert(dx * uy - dy * ux == 0);
        if dx * ux + dy * uy == 0 {
            lemma_perp_parallel_zero(ux, uy, dx, dy);
            assert(false);
        } else {
            assert(dx * ux + dy * uy < 0);
            lemma_boundary_collinear(ux, uy, wx, wy, dx, dy);
            lemma_boundary_behind(vx, vy, wx, wy, dx, dy);
        }
    }
    assert(orientation(q, cur, p) == vx * wy - vy * wx);
}

/// After scanning `pts[1..i]`, every already-examined point (including the
/// initial guess `pts[0]`) lies on or to the counter-clockwise side of the
/// edge from `cur` to the current guess.
proof fn lemma_endpoint_at_closure(pts: Seq<Point>, cur: Point, dx: int, dy: int, i: int)
    requires
        pts.len() > 0,
        1 <= i <= pts.len(),
        supporting_dir(pts, cur, dx, dy),
    ensures
        forall|j: int| 0 <= j < i ==> is_ccw_turn(#[trigger] pts[j], cur, endpoint_at(pts, cur, i)),
    decreases i,
{
    if i <= 1 {
        lemma_orientation_self(cur.x as int, cur.y as int, pts[0].x as int, pts[0].y as int);
        assert(orientation(pts[0], cur, endpoint_at(pts, cur, i)) == 0);
    } else {
        lemma_endpoint_at_closure(pts, cur, dx, dy, i - 1);
        lemma_endpoint_at_in_pts(pts, cur, i - 1);
        lemma_endpoint_at_eq_current(pts, cur, i - 1);
        let e = endpoint_at(pts, cur, i - 1);
        let p = pts[i - 1];
        let e2 = endpoint_at(pts, cur, i);
        if e == cur {
            assert forall|j: int| 0 <= j < i implies is_ccw_turn(#[trigger] pts[j], cur, e2) by {
                if j < i - 1 {
                    assert(pts[j] == cur);
                    lemma_orientation_from_self(
                        cur.x as int, cur.y as int, e2.x as int, e2.y as int,
                    );
                    assert(orientation(cur, cur, e2) == 0);
                } else {
                    lemma_orientation_self(cur.x as int, cur.y as int, p.x as int, p.y as int);
                    assert(orientation(p, cur, p) == 0);
                }
            }
        } else if is_ccw_turn(p, cur, e) {
            assert(e2 == e);
            assert forall|j: int| 0 <= j < i implies is_ccw_turn(#[trigger] pts[j], cur, e2) by {
                if j == i - 1 {
                    assert(is_ccw_turn(p, cur, e));
                }
            }
        } else {
            assert(e2 == p);
            assert forall|j: int| 0 <= j < i implies is_ccw_turn(#[trigger] pts[j], cur, e2) by {
                if j < i - 1 {
                    assert(pts.contains(pts[j]));
                    assert(pts.contains(pts[i - 1]));
                    lemma_beat_preserves_side(pts, cur, dx, dy, e, p, pts[j]);
                } else {
                    lemma_orientation_self(cur.x as int, cur.y as int, p.x as int, p.y as int);
                    assert(orientation(p, cur, p) == 0);
                }
            }
        }
    }
}

/// CLOSURE: from a supported vertex, one full scan selects an endpoint such
/// that every input point lies on or to the counter-clockwise side of the
/// new edge; no input point lies clockwise of it.
pub proof fn lemma_march_step_closure(pts: Seq<Point>, cur: Point)
    requires
        pts.len() > 0,
        supported(pts, cur),
    ensures
        forall|j: int|
            0 <= j < pts.len() ==> is_ccw_turn(#[trigger] pts[j], cur, march_step(pts, cur)),
{
    let (dx, dy) = choose|dx: int, dy: int| supporting_dir(pts, cur, dx, dy);
    lemma_endpoint_at_closure(pts, cur, dx, dy, pts.len() as int);
}

/// The lexicographically smallest point is always supported: the vertical
/// line through it, directed downward, keeps every input point on one side
/// and nothing strictly ahead.
pub proof fn lemma_lex_min_supported(pts: Seq<Point>, p: Point)
    requires
        is_lex_min(pts, p),
    ensures
        supporting_dir(pts, p, 0, -1),
        supported(pts, p),
{
    assert forall|j: int| 0 <= j < pts.len() implies dir_cross(0, -1, p, #[trigger] pts[j])
        >= 0 by {
        assert(lex_le(p, pts[j]));
    }
    assert forall|j: int|
        0 <= j < pts.len() implies !(dir_cross(0, -1, p, #[trigger] pts[j]) == 0 && dir_dot(
        0,
        -1,
        p,
        pts[j],
    ) > 0) by {
        assert(lex_le(p, pts[j]));
    }
    assert(supporting_dir(pts, p, 0, -1));
}

/// A scan from a supported vertex that moves on to a distinct vertex keeps
/// the support invariant, provided no three distinct input points are
/// collinear: the new vertex is supported by the new edge's own direction.
pub proof fn lemma_march_step_preserves_support(pts: Seq<Point>, cur: Point)
    requires
        pts.len() > 0,
        pts.contains(cur),
        supported(pts, cur),
        no_three_collinear(pts),
        march_step(pts, cur) != cur,
    ensures
        supported(pts, march_step(pts, cur)),
{
    let e = march_step(pts, cur);
    lemma_march_step_closure(pts, cur);
    lemma_march_step_in_pts(pts, cur);
    let ux: int = e.x - cur.x;
    let uy: int = e.y - cur.y;
    assert(!(ux == 0 && uy == 0));
    assert forall|j: int| 0 <= j < pts.len() implies dir_cross(ux, uy, e, #[trigger] pts[j])
        >= 0 by {
        let q = pts[j];
        lemma_dir_cross_base_shift(
            ux, uy, cur.x as int, cur.y as int, e.x as int, e.y as int, q.x as int, q.y as int,
        );
        lemma_shift_orientation(
            q.x as int, q.y as int, cur.x as int, cur.y as int, e.x as int, e.y as int,
        );
        assert(is_ccw_turn(pts[j], cur, e));
    }
    assert forall|j: int|
        0 <= j < pts.len() implies !(dir_cross(ux, uy, e, #[trigger] pts[j]) == 0 && dir_dot(
        ux,
        uy,
        e,
        pts[j],
    ) > 0) by {
        let q = pts[j];
        if q == e {
            lemma_dot_at_base(ux, uy, e.x as int, e.y as int);
            assert(dir_dot(ux, uy, e, q) == 0);
        } else if q == cur {
            lemma_neg_self_dot(ux, uy);
            assert(dir_dot(ux, uy, e, q) == ux * (-ux) + uy * (-uy));
        } else {
            if dir_cross(ux, uy, e, q) == 0 {
                lemma_dir_cross_base_shift(
                    ux,
                    uy,
                    cur.x as int,
                    cur.y as int,
                    e.x as int,
                    e.y as int,
                    q.x as int,
                    q.y as int,
                );
                lemma_shift_orientation(
                    q.x as int, q.y as int, cur.x as int, cur.y as int, e.x as int, e.y as int,
                );
                assert(pts.contains(pts[j]));
                assert(orientation(q, cur, e) == 0);
                assert(false);
            }
        }
    }
    assert(supporting_dir(pts, e, ux, uy));
}

/// There is only one hull vertex a scan can select: two distinct candidate
/// endpoints cannot both keep every input point on their counter-clockwise
/// side, unless three distinct input points are collinear.
pub proof fn lemma_hull_vertex_unique(pts: Seq<Point>, cur: Point, e1: Point, e2: Point)
    requires
        pts.contains(cur),
        pts.contains(e1),
        pts.contains(e2),
        e1 != cur,
        e2 != cur,
        no_three_collinear(pts),
        forall|j: int| 0 <= j < pts.len() ==> is_ccw_turn(#[trigger] pts[j], cur, e1),
        forall|j: int| 0 <= j < pts.len() ==> is_ccw_turn(#[trigger] pts[j], cur, e2),
    ensures
        e1 == e2,
{
    if e1 != e2 {
        let j2 = choose|j: int| 0 <= j < pts.len() && pts[j] == e2;
        assert(is_ccw_turn(pts[j2], cur, e1));
        let j1 = choose|j: int| 0 <= j < pts.len() && pts[j] == e1;
        assert(is_ccw_turn(pts[j1], cur, e2));
        lemma_orientation_antisymmetric(
            e2.x as int, e2.y as int, cur.x as int, cur.y as int, e1.x as int, e1.y as int,
        );
        assert(orientation(e2, cur, e1) == 0);
        assert(false);
    }
}

/// ORDER-INDEPENDENCE: permuting (or otherwise rearranging) the input
/// points does not change the vertex a scan selects, provided the scan
/// starts from a supported vertex and no three distinct input points are
/// collinear.
pub proof fn lemma_march_step_permutation(pts1: Seq<Point>, pts2: Seq<Point>, cur: Point)
    requires
        pts1.len() > 0,
        pts2.len() > 0,
        same_point_set(pts1, pts2),
        pts1.contains(cur),
        supported(pts1, cur),
        no_three_collinear(pts1),
    ensures
        march_step(pts1, cur) == march_step(pts2, cur),
{
    let (dx, dy) = choose|dx: int, dy: int| supporting_dir(pts1, cur, dx, dy);
    assert forall|j: int| 0 <= j < pts2.len() implies dir_cross(dx, dy, cur, #[trigger] pts2[j])
        >= 0 by {
        assert(pts2.contains(pts2[j]));
        lemma_support_at(pts1, cur, dx, dy, pts2[j]);
    }
    assert forall|j: int|
        0 <= j < pts2.len() implies !(dir_cross(dx, dy, cur, #[trigger] pts2[j]) == 0 && dir_dot(
        dx,
        dy,
        cur,
        pts2[j],
    ) > 0) by {
        assert(pts2.contains(pts2[j]));
        lemma_support_at(pts1, cur, dx, dy, pts2[j]);
    }
    assert(supporting_dir(pts2, cur, dx, dy));
    let e1 = march_step(pts1, cur);
    let e2 = march_step(pts2, cur);
    lemma_march_step_closure(pts1, cur);
    lemma_march_step_closure(pts2, cur);
    lemma_march_step_in_pts(pts1, cur);
    lemma_march_step_in_pts(pts2, cur);
    lemma_endpoint_at_eq_current(pts1, cur, pts1.len() as int);
    lemma_endpoint_at_eq_current(pts2, cur, pts2.len() as int);
    if e1 == cur {
        assert forall|j: int| 0 <= j < pts2.len() implies #[trigger] pts2[j] == cur by {
            assert(pts2.contains(pts2[j]));
            let k = choose|k: int| 0 <= k < pts1.len() && pts1[k] == pts2[j];
            assert(pts1[k] == cur);
        }
        assert(e2 == cur);
    } else if e2 == cur {
        assert forall|j: int| 0 <= j < pts1.len() implies #[trigger] pts1[j] == cur by {
            assert(pts1.contains(pts1[j]));
            let k = choose|k: int| 0 <= k < pts2.len() && pts2[k] == pts1[j];
            assert(pts2[k] == cur);
        }
        assert(e1 == cur);
        assert(false);
    } else {
        assert(pts1.contains(e2));
        assert forall|j: int| 0 <= j < pts1.len() implies is_ccw_turn(
            #[trigger] pts1[j],
            cur,
            e2,
        ) by {
            assert(pts1.contains(pts1[j]));
            let k = choose|k: int| 0 <= k < pts2.len() && pts2[k] == pts1[j];
            assert(is_ccw_turn(pts2[k], cur, e2));
        }
        lemma_hull_vertex_unique(pts1, cur, e1, e2);
    }
}

/// The lexicographically smallest point of a sequence is unique as a value.
pub proof fn lemma_lex_min_unique(pts: Seq<Point>, p1: Point, p2: Point)
    requires
        is_lex_min(pts, p1),
        is_lex_min(pts, p2),
    ensures
        p1 == p2,
{
    let i1 = choose|i: int| 0 <= i < pts.len() && pts[i] == p1;
    let i2 = choose|i: int| 0 <= i < pts.len() && pts[i] == p2;
    assert(lex_le(p1, pts[i2]));
    assert(lex_le(p2, pts[i1]));
}

/// The lexicographically smallest point depends only on the set of values
/// in the input, not on their arrangement.
pub proof fn lemma_lex_min_permutation(pts1: Seq<Point>, pts2: Seq<Point>, p: Point)
    requires
        is_lex_min(pts1, p),
        same_point_set(pts1, pts2),
    ensures
        is_lex_min(pts2, p),
{
    assert(pts2.contains(p));
    assert forall|i: int| 0 <= i < pts2.len() implies lex_le(p, #[trigger] pts2[i]) by {
        assert(pts2.contains(pts2[i]));
        let k = choose|k: int| 0 <= k < pts1.len() && pts1[k] == pts2[i];
        assert(lex_le(p, pts1[k]));
    }
}

/// The vertex the march stands on after `k` full scans, starting from
/// `start`.
pub open spec fn march_at(pts: Seq<Point>, start: Point, k: nat) -> Point
    decreases k,
{
    if k == 0 {
        start
    } else {
        march_step(pts, march_at(pts, start, (k - 1) as nat))
    }
}

/// Every vertex the march ever stands on is an input point and is itself
/// supported, provided the start is supported and no three distinct input
/// points are collinear.  Combined with the closure law, every edge the
/// march traverses keeps the whole input on its counter-clockwise side.
pub proof fn lemma_march_stays_supported(pts: Seq<Point>, start: Point, k: nat)
    requires
        pts.len() > 0,
        pts.contains(start),
        supported(pts, start),
        no_three_collinear(pts),
    ensures
        pts.contains(march_at(pts, start, k)),
        supported(pts, march_at(pts, start, k)),
    decreases k,
{
    if k > 0 {
        lemma_march_stays_supported(pts, start, (k - 1) as nat);
        let cur = march_at(pts, start, (k - 1) as nat);
        lemma_march_step_in_pts(pts, cur);
        if march_step(pts, cur) != cur {
            lemma_march_step_preserves_support(pts, cur);
        }
    }
}

/// ORDER-INDEPENDENCE of the whole walk: over inputs holding the same set
/// of points, the march visits the identical vertex sequence, step for
/// step, provided the start is supported and no three distinct input points
/// are collinear.
pub proof fn lemma_march_sequence_permutation(
    pts1: Seq<Point>,
    pts2: Seq<Point>,
    start: Point,
    k: nat,
)
    requires
        pts1.len() > 0,
        pts2.len() > 0,
        same_point_set(pts1, pts2),
        pts1.contains(start),
        supported(pts1, start),
        no_three_collinear(pts1),
    ensures
        march_at(pts1, start, k) == march_at(pts2, start, k),
    decreases k,
{
    if k > 0 {
        lemma_march_sequence_permutation(pts1, pts2, start, (k - 1) as nat);
        lemma_march_stays_supported(pts1, start, (k - 1) as nat);
        let cur = march_at(pts1, start, (k - 1) as nat);
        lemma_march_step_permutation(pts1, pts2, cur);
    }
}

/// IDEMPOTENCE: the outcome of every production step is a function of the
/// cursor's abstract state alone.  Two well-formed cursors over equal point
/// sequences and in equal states share the same starting vertex and the
/// same scan outcome, so repeated construction and consumption over the
/// same input always replays the identical vertex sequence.
pub proof fn lemma_consumption_deterministic<'a, 'b>(h1: ConvexHull<'a>, h2: ConvexHull<'b>)
    requires
        h1.wf(),
        h2.wf(),
        h1.points_seq() == h2.points_seq(),
        h1.started() == h2.started(),
        h1.current() == h2.current(),
    ensures
        h1.leftmost() == h2.leftmost(),
        march_step(h1.points_seq(), h1.current()) == march_step(h2.points_seq(), h2.current()),
{
    lemma_lex_min_unique(h1.points_seq(), h1.leftmost(), h2.leftmost());
}

} // verus!
