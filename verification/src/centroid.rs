//! Cluster centroids as exact rational values.
//!
//! A centroid is the arithmetic mean of the points of its cluster. Instead
//! of dividing and rounding, a centroid keeps the coordinate sums and the
//! member count, so its value is the exact rational `(sum_x/count,
//! sum_y/count)`. Two centroids are compared (for equality and for
//! distance) by cross-multiplying with the counts, which stays in machine
//! integers thanks to the bounds of [`crate::point`].

use vstd::prelude::*;
use crate::point::{Point, COORD_LIMIT, MAX_POINTS};

verus! {

/// The mean of a non-empty cluster, kept exactly: the coordinate sums of
/// the member points together with how many members there are. The value
/// it stands for is `(sum_x / count, sum_y / count)`.
#[derive(Clone, Copy, Debug, PartialEq, Eq, Structural)]
pub struct Centroid {
    pub sum_x: i64,
    pub sum_y: i64,
    pub count: usize,
}

/// `n * n`, named so that contracts about cross-multiplied comparisons
/// stay readable.
pub open spec fn sq(n: int) -> int {
    n * n
}

/// The two centroids stand for the same rational value:
/// `a.sum_x / a.count == b.sum_x / b.count` and likewise for y, written
/// without division.
pub open spec fn eq_val(a: Centroid, b: Centroid) -> bool {
    &&& a.sum_x * b.count == b.sum_x * a.count
    &&& a.sum_y * b.count == b.sum_y * a.count
}

/// Squared distance from point `p` to the value of centroid `c`,
/// multiplied by `sq(c.count)` to clear the denominators.
pub open spec fn dsq_num(p: Point, c: Centroid) -> int {
    (p.x * c.count - c.sum_x) * (p.x * c.count - c.sum_x)
        + (p.y * c.count - c.sum_y) * (p.y * c.count - c.sum_y)
}

/// The value of centroid `a` is strictly nearer to `p` than the value of
/// centroid `b`: `dsq_num(p, a) / sq(a.count) < dsq_num(p, b) / sq(b.count)`,
/// written without division.
pub open spec fn strictly_closer(p: Point, a: Centroid, b: Centroid) -> bool {
    dsq_num(p, a) * sq(b.count as int) < dsq_num(p, b) * sq(a.count as int)
}

impl Centroid {
    /// A real cluster mean: at least one member, and sums that a mean of
    /// bounded points can reach.
    pub open spec fn wf(self) -> bool {
        &&& 1 <= self.count <= MAX_POINTS
        &&& -(self.count * COORD_LIMIT) <= self.sum_x <= self.count * COORD_LIMIT
        &&& -(self.count * COORD_LIMIT) <= self.sum_y <= self.count * COORD_LIMIT
    }

    pub fn new(sum_x: i64, sum_y: i64, count: usize) -> (c: Centroid)
        ensures
            c == (Centroid { sum_x, sum_y, count }),
    {
        Centroid { sum_x, sum_y, count }
    }

    /// The centroid of the one-point cluster `{ p }`, whose value is `p`
    /// itself.
    pub fn from_point(p: &Point) -> (c: Centroid)
        ensures
            c == (Centroid { sum_x: p.x, sum_y: p.y, count: 1 }),
            p.bounded() ==> c.wf(),
    {
        Centroid { sum_x: p.x, sum_y: p.y, count: 1 }
    }

    /// Whether `self` and `other` stand for the same exact rational value.
    pub fn same_value(&self, other: &Centroid) -> (r: bool)
        ensures
            r == eq_val(*self, *other),
    {
        proof {
            crate::point::lemma_mul_bound(
                self.sum_x as int, other.count as int, 0x8000_0000_0000_0000, 0xFFFF_FFFF_FFFF_FFFF);
            crate::point::lemma_mul_bound(
                other.sum_x as int, self.count as int, 0x8000_0000_0000_0000, 0xFFFF_FFFF_FFFF_FFFF);
            crate::point::lemma_mul_bound(
                self.sum_y as int, other.count as int, 0x8000_0000_0000_0000, 0xFFFF_FFFF_FFFF_FFFF);
            crate::point::lemma_mul_bound(
                other.sum_y as int, self.count as int, 0x8000_0000_0000_0000, 0xFFFF_FFFF_FFFF_FFFF);
        }
        let sx = self.sum_x as i128 * other.count as i128;
        let ox = other.sum_x as i128 * self.count as i128;
        let sy = self.sum_y as i128 * other.count as i128;
        let oy = other.sum_y as i128 * self.count as i128;
        sx == ox && sy == oy
    }
}

/// Whether the value of centroid `a` is strictly nearer to `p` than the
/// value of centroid `b`; ties and farther values both answer `false`.
pub fn is_strictly_closer(p: &Point, a: &Centroid, b: &Centroid) -> (r: bool)
    requires
        p.bounded(),
        a.wf(),
        b.wf(),
    ensures
        r == strictly_closer(*p, *a, *b),
{
    proof {
        crate::point::lemma_mul_bound(p.x as int, a.count as int, 1_000_000, 1_000_000);
        crate::point::lemma_mul_bound(p.y as int, a.count as int, 1_000_000, 1_000_000);
        crate::point::lemma_mul_bound(p.x as int, b.count as int, 1_000_000, 1_000_000);
        crate::point::lemma_mul_bound(p.y as int, b.count as int, 1_000_000, 1_000_000);
    }
    let ax = p.x as i128 * a.count as i128 - a.sum_x as i128;
    let ay = p.y as i128 * a.count as i128 - a.sum_y as i128;
    let bx = p.x as i128 * b.count as i128 - b.sum_x as i128;
    let by = p.y as i128 * b.count as i128 - b.sum_y as i128;
    proof {
        crate::point::lemma_mul_bound(ax as int, ax as int, 2_000_000_000_000, 2_000_000_000_000);
        crate::point::lemma_mul_bound(ay as int, ay as int, 2_000_000_000_000, 2_000_000_000_000);
        crate::point::lemma_mul_bound(bx as int, bx as int, 2_000_000_000_000, 2_000_000_000_000);
        crate::point::lemma_mul_bound(by as int, by as int, 2_000_000_000_000, 2_000_000_000_000);
    }
    let da = ax * ax + ay * ay;
    let db = bx * bx + by * by;
    proof {
        crate::point::lemma_mul_bound(a.count as int, a.count as int, 1_000_000, 1_000_000);
        crate::point::lemma_mul_bound(b.count as int, b.count as int, 1_000_000, 1_000_000);
    }
    let ca = a.count as i128 * a.count as i128;
    let cb = b.count as i128 * b.count as i128;
    proof {
        crate::point::lemma_mul_bound(da as int, cb as int, 8_000_000_000_000_000_000_000_000, 1_000_000_000_000);
        crate::point::lemma_mul_bound(db as int, ca as int, 8_000_000_000_000_000_000_000_000, 1_000_000_000_000);
    }
    da * cb < db * ca
}

/// On one-member centroids, the comparison that drives the assignment step
/// is exactly the comparison of squared point distances.
pub proof fn lemma_closer_on_points(p: Point, a: Point, b: Point)
    ensures
        strictly_closer(
            p,
            (Centroid { sum_x: a.x, sum_y: a.y, count: 1 }),
            (Centroid { sum_x: b.x, sum_y: b.y, count: 1 }),
        ) <==> crate::point::dist_sq(p, a) < crate::point::dist_sq(p, b),
{
    let ca = (Centroid { sum_x: a.x, sum_y: a.y, count: 1 });
    let cb = (Centroid { sum_x: b.x, sum_y: b.y, count: 1 });
    assert(dsq_num(p, ca) == crate::point::dist_sq(p, a));
    assert(dsq_num(p, cb) == crate::point::dist_sq(p, b));
    assert(sq(ca.count as int) == 1);
    assert(sq(cb.count as int) == 1);
}

/// A square is never negative, and the square of a positive number is
/// positive.
pub proof fn lemma_sq(n: int)
    by (nonlinear_arith)
    ensures
        sq(n) >= 0,
        n > 0 ==> sq(n) > 0,
{
}

/// Cross-multiplied transitivity of the rational order: if `aj/mj >= am/mm`
/// and `an/mn < am/mm`, then `an/mn < aj/mj`, with the fractions written as
/// cross products over positive denominators.
proof fn lemma_ratio_trans_lt(aj: int, am: int, an: int, mj: int, mm: int, mn: int)
    by (nonlinear_arith)
    requires
        mj > 0,
        mm > 0,
        mn > 0,
        aj * mm >= am * mj,
        an * mm < am * mn,
    ensures
        an * mj < aj * mn,
{
}

/// Cross-multiplied transitivity of rational equality over a positive
/// middle denominator.
proof fn lemma_cross_eq_trans(ax: int, an: int, bx: int, bn: int, cx: int, cn: int)
    by (nonlinear_arith)
    requires
        bn > 0,
        ax * bn == bx * an,
        bx * cn == cx * bn,
    ensures
        ax * cn == cx * an,
{
}

/// Distances to centroid values order transitively: if `a` is not strictly
/// closer to `p` than `b`, and `c` is strictly closer than `b`, then `c` is
/// strictly closer than `a`.
pub proof fn lemma_closer_trans(p: Point, a: Centroid, b: Centroid, c: Centroid)
    requires
        a.count > 0,
        b.count > 0,
        c.count > 0,
        !strictly_closer(p, a, b),
        strictly_closer(p, c, b),
    ensures
        strictly_closer(p, c, a),
{
    lemma_sq(a.count as int);
    lemma_sq(b.count as int);
    lemma_sq(c.count as int);
    lemma_ratio_trans_lt(
        dsq_num(p, a),
        dsq_num(p, b),
        dsq_num(p, c),
        sq(a.count as int),
        sq(b.count as int),
        sq(c.count as int),
    );
}

/// Value equality of centroids is an equivalence on well-counted
/// centroids: reflexive, symmetric, and transitive.
pub proof fn lemma_eq_val_equivalence(a: Centroid, b: Centroid, c: Centroid)
    requires
        b.count > 0,
    ensures
        eq_val(a, a),
        eq_val(a, b) ==> eq_val(b, a),
        eq_val(a, b) && eq_val(b, c) ==> eq_val(a, c),
{
    if eq_val(a, b) && eq_val(b, c) {
        lemma_cross_eq_trans(a.sum_x as int, a.count as int, b.sum_x as int, b.count as int, c.sum_x as int, c.count as int);
        lemma_cross_eq_trans(a.sum_y as int, a.count as int, b.sum_y as int, b.count as int, c.sum_y as int, c.count as int);
    }
}

/// One coordinate of the scaled difference vector, rescaled to the other
/// centroid's denominator.
proof fn lemma_coord_scale(px: int, na: int, sa: int, nb: int, sb: int)
    by (nonlinear_arith)
    requires
        sa * nb == sb * na,
    ensures
        (px * na - sa) * nb == (px * nb - sb) * na,
{
}

/// Squaring both sides of a cross-multiplied equality.
proof fn lemma_sq_cross(u: int, v: int, m: int, w: int)
    by (nonlinear_arith)
    requires
        u * w == v * m,
    ensures
        (u * u) * (w * w) == (v * v) * (m * m),
{
}

/// Centroids of equal value are at the same distance from every point,
/// stated with the denominators cleared.
pub proof fn lemma_eq_val_same_distance(p: Point, a: Centroid, b: Centroid)
    requires
        a.count > 0,
        b.count > 0,
        eq_val(a, b),
    ensures
        dsq_num(p, a) * sq(b.count as int) == dsq_num(p, b) * sq(a.count as int),
{
    let na = a.count as int;
    let nb = b.count as int;
    let ux = p.x * na - a.sum_x;
    let uy = p.y * na - a.sum_y;
    let vx = p.x * nb - b.sum_x;
    let vy = p.y * nb - b.sum_y;
    lemma_coord_scale(p.x as int, na, a.sum_x as int, nb, b.sum_x as int);
    lemma_coord_scale(p.y as int, na, a.sum_y as int, nb, b.sum_y as int);
    lemma_sq_cross(ux, vx, na, nb);
    lemma_sq_cross(uy, vy, na, nb);
    assert((ux * ux + uy * uy) * (nb * nb) == (ux * ux) * (nb * nb) + (uy * uy) * (nb * nb))
        by (nonlinear_arith);
    assert((vx * vx + vy * vy) * (na * na) == (vx * vx) * (na * na) + (vy * vy) * (na * na))
        by (nonlinear_arith);
}

/// Whether one centroid is strictly closer to a point than another depends
/// only on the two centroid values, not on how they are represented.
pub proof fn lemma_closer_respects_values(
    p: Point,
    a: Centroid,
    a2: Centroid,
    b: Centroid,
    b2: Centroid,
)
    requires
        a.count > 0,
        a2.count > 0,
        b.count > 0,
        b2.count > 0,
        eq_val(a, a2),
        eq_val(b, b2),
    ensures
        strictly_closer(p, a, b) == strictly_closer(p, a2, b2),
{
    lemma_eq_val_same_distance(p, a, a2);
    lemma_eq_val_same_distance(p, b, b2);
    lemma_sq(a.count as int);
    lemma_sq(a2.count as int);
    lemma_sq(b.count as int);
    lemma_sq(b2.count as int);
    lemma_ratio_lt_subst(
        dsq_num(p, a),
        sq(a.count as int),
        dsq_num(p, a2),
        sq(a2.count as int),
        dsq_num(p, b),
        sq(b.count as int),
        dsq_num(p, b2),
        sq(b2.count as int),
    );
}

/// The rational order is invariant under changing both fractions to equal
/// fractions with other positive denominators.
proof fn lemma_ratio_lt_subst(
    da: int,
    ma: int,
    da2: int,
    ma2: int,
    db: int,
    mb: int,
    db2: int,
    mb2: int,
)
    by (nonlinear_arith)
    requires
        ma > 0,
        ma2 > 0,
        mb > 0,
        mb2 > 0,
        da * ma2 == da2 * ma,
        db * mb2 == db2 * mb,
    ensures
        (da * mb < db * ma) == (da2 * mb2 < db2 * ma2),
{
}

} // verus!
