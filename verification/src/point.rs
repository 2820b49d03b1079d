//! Two-dimensional points with exact integer coordinates.
//!
//! Coordinates are fixed-point values: a caller picks a unit (say one
//! thousandth) and hands every coordinate in as an integer count of that
//! unit. Working on integers keeps every distance computation exact, so
//! the convergence test of the clustering loop is a genuine fixed-point
//! test rather than a comparison of rounded values.

use vstd::prelude::*;

verus! {

/// Largest coordinate magnitude a point may carry.
///
/// The bound is what lets every squared distance, cluster sum and
/// cross-multiplied comparison in this crate fit in the machine integers
/// it is computed in.
pub const COORD_LIMIT: i64 = 1_000_000;

/// Largest number of points a dataset may hold, for the same reason.
pub const MAX_POINTS: usize = 1_000_000;

/// A 2D point with exact (fixed-point) integer coordinates.
#[derive(Clone, Copy, Debug, PartialEq, Eq, Structural)]
pub struct Point {
    pub x: i64,
    pub y: i64,
}

/// Squared Euclidean distance between two points, as a mathematical integer.
pub open spec fn dist_sq(a: Point, b: Point) -> int {
    (a.x - b.x) * (a.x - b.x) + (a.y - b.y) * (a.y - b.y)
}

impl Point {
    /// Both coordinates are within `COORD_LIMIT`.
    pub open spec fn bounded(self) -> bool {
        &&& -(COORD_LIMIT as int) <= self.x <= COORD_LIMIT as int
        &&& -(COORD_LIMIT as int) <= self.y <= COORD_LIMIT as int
    }

    pub fn new(x: i64, y: i64) -> (p: Point)
        ensures
            p == (Point { x, y }),
    {
        Point { x, y }
    }

    /// The point (0, 0), the zero value for accumulation.
    pub fn origin() -> (p: Point)
        ensures
            p == (Point { x: 0, y: 0 }),
    {
        Point { x: 0, y: 0 }
    }

    /// Squared Euclidean distance between `self` and `other`, computed
    /// exactly. Comparing squared distances orders points exactly as
    /// comparing the distances themselves would.
    pub fn distance_sq(&self, other: &Point) -> (d: i64)
        requires
            self.bounded(),
            other.bounded(),
        ensures
            d == dist_sq(*self, *other),
    {
        let dx: i64 = self.x - other.x;
        let dy: i64 = self.y - other.y;
        proof {
            lemma_mul_bound(dx as int, dx as int, 2_000_000, 2_000_000);
            lemma_mul_bound(dy as int, dy as int, 2_000_000, 2_000_000);
        }
        dx * dx + dy * dy
    }
}

/// A product of two bounded factors is bounded by the product of the bounds.
pub proof fn lemma_mul_bound(a: int, b: int, aa: int, bb: int)
    by (nonlinear_arith)
    requires
        0 <= aa,
        0 <= bb,
        -aa <= a <= aa,
        -bb <= b <= bb,
    ensures
        -(aa * bb) <= a * b <= aa * bb,
{
}

/// The distance from a point to itself is zero.
pub proof fn lemma_dist_sq_self(p: Point)
    ensures
        dist_sq(p, p) == 0,
{
}

/// Squared distance is symmetric in its arguments.
pub proof fn lemma_dist_sq_symmetric(a: Point, b: Point)
    by (nonlinear_arith)
    ensures
        dist_sq(a, b) == dist_sq(b, a),
{
}

/// Squared distance is never negative, and is zero exactly when the two
/// points agree in both coordinates.
pub proof fn lemma_dist_sq_zero(a: Point, b: Point)
    by (nonlinear_arith)
    ensures
        dist_sq(a, b) >= 0,
        dist_sq(a, b) == 0 <==> a == b,
{
}

} // verus!
