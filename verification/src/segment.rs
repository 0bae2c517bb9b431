use vstd::prelude::*;
use crate::geom::{
    fits, in_box, in_range, lemma_diff_products_fit, lemma_mul_abs_le, sgn, sig, v, vdet, vdot, vsub, Point,
    DIST_LIMIT, COORD_LIMIT, P, R,
};

verus! {

// ---------------------------------------------------------------------------
// Mathematical model of the line and segment predicates
// ---------------------------------------------------------------------------

pub open spec fn imin(a: int, b: int) -> int {
    if a < b {
        a
    } else {
        b
    }
}

pub open spec fn imax(a: int, b: int) -> int {
    if a < b {
        b
    } else {
        a
    }
}

/// Squared distance from `q` to the line through `p1` and `p2`, as the
/// fraction `(numerator, denominator)`.
pub open spec fn dist2_lp_spec(p1: (int, int), p2: (int, int), q: (int, int)) -> (int, int) {
    let d = vdet(vsub(p2, p1), vsub(q, p1));
    (d * d, vdot(vsub(p2, p1), vsub(p2, p1)))
}

/// Squared distance from `q` to the segment from `p1` to `p2`, as a fraction.
pub open spec fn dist2_sp_spec(p1: (int, int), p2: (int, int), q: (int, int)) -> (int, int) {
    if vdot(vsub(p2, p1), vsub(q, p1)) <= 0 {
        (vdot(vsub(q, p1), vsub(q, p1)), 1)
    } else if vdot(vsub(p1, p2), vsub(q, p2)) <= 0 {
        (vdot(vsub(q, p2), vsub(q, p2)), 1)
    } else {
        dist2_lp_spec(p1, p2, q)
    }
}

/// `q` lies on the line through `p1` and `p2`.
pub open spec fn crs_lp_spec(p1: (int, int), p2: (int, int), q: (int, int)) -> bool {
    vdet(vsub(p2, p1), vsub(q, p1)) == 0
}

/// `q` lies on the closed segment from `p1` to `p2`.
pub open spec fn crs_sp_spec(p1: (int, int), p2: (int, int), q: (int, int)) -> bool {
    crs_lp_spec(p1, p2, q) && vdot(vsub(q, p1), vsub(q, p2)) <= 0
}

/// The axis-aligned bounding boxes of the two segments meet.
pub open spec fn boxes_meet(p1: (int, int), p2: (int, int), q1: (int, int), q2: (int, int)) -> bool {
    !(imax(p1.0, p2.0) < imin(q1.0, q2.0) || imax(q1.0, q2.0) < imin(p1.0, p2.0) || imax(p1.1, p2.1)
        < imin(q1.1, q2.1) || imax(q1.1, q2.1) < imin(p1.1, p2.1))
}

/// The closed segments `p1 p2` and `q1 q2` have a common point: their boxes
/// meet and each segment's end points are not strictly on one side of the
/// other segment's line.
pub open spec fn crs_ss_spec(p1: (int, int), p2: (int, int), q1: (int, int), q2: (int, int)) -> bool {
    boxes_meet(p1, p2, q1, q2) && sgn(vdet(vsub(p2, p1), vsub(q1, p1))) * sgn(
        vdet(vsub(p2, p1), vsub(q2, p1)),
    ) <= 0 && sgn(vdet(vsub(q2, q1), vsub(p1, q1))) * sgn(vdet(vsub(q2, q1), vsub(p2, q1))) <= 0
}

/// Projection of `q` on the line through `p1` and `p2`, as the rational point
/// `(x numerator, y numerator, common denominator)`.
pub open spec fn proj_spec(p1: (int, int), p2: (int, int), q: (int, int)) -> (int, int, int) {
    let d = vdot(vsub(p2, p1), vsub(p2, p1));
    let t = vdot(vsub(p2, p1), vsub(q, p1));
    (p1.0 * d + (p2.0 - p1.0) * t, p1.1 * d + (p2.1 - p1.1) * t, d)
}

/// Intersection of the lines `p1 p2` and `q1 q2` as a rational point
/// `(x numerator, y numerator, common denominator)`; none when they are parallel.
pub open spec fn pi_ll_spec(p1: (int, int), p2: (int, int), q1: (int, int), q2: (int, int)) -> Option<
    (int, int, int),
> {
    let d = vdet(vsub(q2, q1), vsub(p2, p1));
    if d == 0 {
        None
    } else {
        let t = vdet(vsub(q2, q1), vsub(q1, p1));
        Some((p1.0 * d + (p2.0 - p1.0) * t, p1.1 * d + (p2.1 - p1.1) * t, d))
    }
}

/// A rational point `(x numerator, y numerator, denominator)` with a non-zero
/// denominator stands for the integer point `p`.
pub open spec fn rpt_is(r: (int, int, int), p: (int, int)) -> bool {
    r.0 == r.2 * p.0 && r.1 == r.2 * p.1
}

pub open spec fn rp(r: P<R<i64>>) -> (int, int, int) {
    (r.0.0 as int, r.1.0 as int, r.0.1 as int)
}

pub open spec fn in_dist_range(p: Point) -> bool {
    in_box(p, DIST_LIMIT as int)
}

/// Coordinates for which the segment predicates (`crs_lp`, `crs_sp`,
/// `crs_ss`) compute exactly: every product of two coordinate differences,
/// and every sum or difference of two such products, fits in `i64`.
pub open spec fn in_seg_range(p: Point) -> bool {
    in_box(p, 1073741823)
}

/// Every point of `ps` is in the segment range.
pub open spec fn all_in_seg_range(ps: Seq<Point>) -> bool {
    forall|i: int| 0 <= i < ps.len() ==> #[trigger] in_seg_range(ps[i])
}

/// Points in range are in the segment range.
pub proof fn lemma_seg_range(ps: Seq<Point>)
    requires
        crate::geom::all_in_range(ps),
    ensures
        all_in_seg_range(ps),
{
    assert forall|i: int| 0 <= i < ps.len() implies #[trigger] in_seg_range(ps[i]) by {
        assert(in_range(ps[i]));
    }
}

/// The differences of points in the segment range, their products, dot
/// products and cross products fit.
pub proof fn lemma_seg_diffs4(a: Point, b: Point, c: Point, d: Point)
    requires
        in_seg_range(a),
        in_seg_range(b),
        in_seg_range(c),
        in_seg_range(d),
    ensures
        fits(a.0 - b.0),
        fits(a.1 - b.1),
        fits(c.0 - d.0),
        fits(c.1 - d.1),
        fits(vsub(v(a), v(b)).0 * vsub(v(c), v(d)).0),
        fits(vsub(v(a), v(b)).1 * vsub(v(c), v(d)).1),
        fits(vsub(v(a), v(b)).0 * vsub(v(c), v(d)).1),
        fits(vsub(v(a), v(b)).1 * vsub(v(c), v(d)).0),
        fits(vdot(vsub(v(a), v(b)), vsub(v(c), v(d)))),
        fits(vdet(vsub(v(a), v(b)), vsub(v(c), v(d)))),
{
    let x = vsub(v(a), v(b));
    let y = vsub(v(c), v(d));
    let m: int = 2147483646;
    crate::geom::lemma_products_bounded(x, y, m);
}

// ---------------------------------------------------------------------------
// Bounds
// ---------------------------------------------------------------------------

/// The same for four points: differences `a - b` and `c - d`.
pub proof fn lemma_range_diffs4(a: Point, b: Point, c: Point, d: Point)
    requires
        in_range(a),
        in_range(b),
        in_range(c),
        in_range(d),
    ensures
        fits(a.0 - b.0),
        fits(a.1 - b.1),
        fits(c.0 - d.0),
        fits(c.1 - d.1),
        fits(vsub(v(a), v(b)).0 * vsub(v(c), v(d)).0),
        fits(vsub(v(a), v(b)).1 * vsub(v(c), v(d)).1),
        fits(vsub(v(a), v(b)).0 * vsub(v(c), v(d)).1),
        fits(vsub(v(a), v(b)).1 * vsub(v(c), v(d)).0),
        fits(vdot(vsub(v(a), v(b)), vsub(v(c), v(d)))),
        fits(vdet(vsub(v(a), v(b)), vsub(v(c), v(d)))),
        -2199023255552 <= vdot(vsub(v(a), v(b)), vsub(v(c), v(d))) <= 2199023255552,
        -2199023255552 <= vdet(vsub(v(a), v(b)), vsub(v(c), v(d))) <= 2199023255552,
{
    lemma_diff_products_fit(vsub(v(a), v(b)), vsub(v(c), v(d)), COORD_LIMIT as int);
}

/// The numerators of a projection or line intersection, `p * d + e * t` with
/// `p` in range, `e` a difference of points in range and `d`, `t` products of
/// differences, fit.
pub proof fn lemma_numerator_fits(p: int, e: int, d: int, t: int)
    requires
        -524288 <= p <= 524288,
        -1048576 <= e <= 1048576,
        -2199023255552 <= d <= 2199023255552,
        -2199023255552 <= t <= 2199023255552,
    ensures
        fits(p * d),
        fits(e * t),
        fits(p * d + e * t),
        -3458764513820540928 <= p * d + e * t <= 27670116110564327424,
        -1152921504606846976 <= p * d <= 1152921504606846976,
{
    lemma_mul_abs_le(p, d, 524288, 2199023255552);
    lemma_mul_abs_le(e, t, 1048576, 2199023255552);
}

impl P<i64> {
    /// Squared distance between the segment `s` and the point `q`, as a fraction.
    pub fn dist2_sp(s: (P<i64>, P<i64>), q: P<i64>) -> (r: R<i64>)
        requires
            in_dist_range(s.0),
            in_dist_range(s.1),
            in_dist_range(q),
        ensures
            (r.0 as int, r.1 as int) == dist2_sp_spec(v(s.0), v(s.1), v(q)),
    {
        let (p1, p2) = s;
        proof {
            lemma_dist_diffs(p2, p1, q);
            lemma_dist_diffs(p1, p2, q);
            lemma_dist_diffs(q, p1, q);
            lemma_dist_diffs(q, p2, q);
        }
        if (p2 - p1).dot(q - p1) <= 0 {
            R((q - p1).abs2(), 1)
        } else if (p1 - p2).dot(q - p2) <= 0 {
            R((q - p2).abs2(), 1)
        } else {
            P::dist2_lp((p1, p2), q)
        }
    }

    /// Squared distance between the line through `s` and the point `q`, as a fraction.
    pub fn dist2_lp(s: (P<i64>, P<i64>), q: P<i64>) -> (r: R<i64>)
        requires
            in_dist_range(s.0),
            in_dist_range(s.1),
            in_dist_range(q),
        ensures
            (r.0 as int, r.1 as int) == dist2_lp_spec(v(s.0), v(s.1), v(q)),
    {
        let (p1, p2) = s;
        proof {
            lemma_dist_diffs(p2, p1, q);
            lemma_dist_diffs(p2, p1, p2);
        }
        let det = (p2 - p1).det(q - p1);
        proof {
            lemma_mul_abs_le(det as int, det as int, 2147483648, 2147483648);
        }
        R(det * det, (p2 - p1).abs2())
    }

    /// Whether `q` lies on the segment `s`.
    pub fn crs_sp(s: (P<i64>, P<i64>), q: P<i64>) -> (b: bool)
        requires
            in_seg_range(s.0),
            in_seg_range(s.1),
            in_seg_range(q),
        ensures
            b == crs_sp_spec(v(s.0), v(s.1), v(q)),
    {
        let (p1, p2) = s;
        proof {
            lemma_seg_diffs4(q, p1, q, p2);
        }
        P::crs_lp((p1, p2), q) && (q - p1).dot(q - p2) <= 0
    }

    /// Whether `q` lies on the line through `s`.
    pub fn crs_lp(s: (P<i64>, P<i64>), q: P<i64>) -> (b: bool)
        requires
            in_seg_range(s.0),
            in_seg_range(s.1),
            in_seg_range(q),
        ensures
            b == crs_lp_spec(v(s.0), v(s.1), v(q)),
    {
        let (p1, p2) = s;
        proof {
            lemma_seg_diffs4(p2, p1, q, p1);
        }
        (p2 - p1).det(q - p1) == 0
    }

    /// Whether the closed segments `s` and `t` have a common point.
    pub fn crs_ss(s: (P<i64>, P<i64>), t: (P<i64>, P<i64>)) -> (b: bool)
        requires
            in_seg_range(s.0),
            in_seg_range(s.1),
            in_seg_range(t.0),
            in_seg_range(t.1),
        ensures
            b == crs_ss_spec(v(s.0), v(s.1), v(t.0), v(t.1)),
    {
        let (p1, p2) = s;
        let (q1, q2) = t;
        let (lp0, up0) = sorted_pair(p1.0, p2.0);
        let (lq0, uq0) = sorted_pair(q1.0, q2.0);
        let (lp1, up1) = sorted_pair(p1.1, p2.1);
        let (lq1, uq1) = sorted_pair(q1.1, q2.1);
        if up0 < lq0 || uq0 < lp0 || up1 < lq1 || uq1 < lp1 {
            return false;
        }
        proof {
            lemma_seg_diffs4(p2, p1, q1, p1);
            lemma_seg_diffs4(p2, p1, q2, p1);
            lemma_seg_diffs4(q2, q1, p1, q1);
            lemma_seg_diffs4(q2, q1, p2, q1);
        }
        return sig((p2 - p1).det(q1 - p1)) * sig((p2 - p1).det(q2 - p1)) <= 0 && sig(
            (q2 - q1).det(p1 - q1),
        ) * sig((q2 - q1).det(p2 - q1)) <= 0;
    }

    /// Projection of `q` on the line through `s`.
    pub fn proj(s: (P<i64>, P<i64>), q: P<i64>) -> (r: P<R<i64>>)
        requires
            in_range(s.0),
            in_range(s.1),
            in_range(q),
        ensures
            rp(r) == proj_spec(v(s.0), v(s.1), v(q)),
            r.0.1 == r.1.1,
    {
        let (p1, p2) = s;
        proof {
            lemma_range_diffs4(p2, p1, p2, p1);
            lemma_range_diffs4(p2, p1, q, p1);
        }
        let d = (p2 - p1).abs2();
        let t = (p2 - p1).dot(q - p1);
        proof {
            lemma_numerator_fits(p1.0 as int, (p2.0 - p1.0) as int, d as int, t as int);
            lemma_numerator_fits(p1.1 as int, (p2.1 - p1.1) as int, d as int, t as int);
        }
        let r = p1 * d + (p2 - p1) * t;
        P(R(r.0, d), R(r.1, d))
    }

    /// Intersection of the lines through `s` and `t`; `None` when they are parallel.
    pub fn pi_ll(s: (P<i64>, P<i64>), t: (P<i64>, P<i64>)) -> (r: Option<P<R<i64>>>)
        requires
            in_range(s.0),
            in_range(s.1),
            in_range(t.0),
            in_range(t.1),
        ensures
            r is None <==> pi_ll_spec(v(s.0), v(s.1), v(t.0), v(t.1)) is None,
            r matches Some(r) ==> Some(rp(r)) == pi_ll_spec(v(s.0), v(s.1), v(t.0), v(t.1))
                && r.0.1 == r.1.1,
    {
        let (p1, p2) = s;
        let (q1, q2) = t;
        proof {
            lemma_range_diffs4(q2, q1, p2, p1);
            lemma_range_diffs4(q2, q1, q1, p1);
        }
        let d = (q2 - q1).det(p2 - p1);
        if d == 0 {
            return None;
        }
        let t = (q2 - q1).det(q1 - p1);
        proof {
            lemma_numerator_fits(p1.0 as int, (p2.0 - p1.0) as int, d as int, t as int);
            lemma_numerator_fits(p1.1 as int, (p2.1 - p1.1) as int, d as int, t as int);
        }
        let r = p1 * d + (p2 - p1) * t;
        Some(P(R(r.0, d), R(r.1, d)))
    }
}

/// The two values in increasing order.
fn sorted_pair(a: i64, b: i64) -> (r: (i64, i64))
    ensures
        r.0 == imin(a as int, b as int),
        r.1 == imax(a as int, b as int),
{
    if a < b {
        (a, b)
    } else {
        (b, a)
    }
}

/// Differences and products of differences of points of the distance range.
pub proof fn lemma_dist_diffs(a: Point, b: Point, c: Point)
    requires
        in_dist_range(a),
        in_dist_range(b),
        in_dist_range(c),
    ensures
        fits(a.0 - b.0),
        fits(a.1 - b.1),
        fits(c.0 - b.0),
        fits(c.1 - b.1),
        fits(vsub(v(a), v(b)).0 * vsub(v(c), v(b)).0),
        fits(vsub(v(a), v(b)).1 * vsub(v(c), v(b)).1),
        fits(vsub(v(a), v(b)).0 * vsub(v(c), v(b)).1),
        fits(vsub(v(a), v(b)).1 * vsub(v(c), v(b)).0),
        fits(vdot(vsub(v(a), v(b)), vsub(v(c), v(b)))),
        fits(vdet(vsub(v(a), v(b)), vsub(v(c), v(b)))),
        -2147483648 <= vdet(vsub(v(a), v(b)), vsub(v(c), v(b))) <= 2147483648,
{
    lemma_diff_products_fit(vsub(v(a), v(b)), vsub(v(c), v(b)), DIST_LIMIT as int);
}

/// Whether three points are collinear does not depend on which two span
/// the line, nor on their order.
pub proof fn lemma_crs_lp_symmetric(p1: (int, int), p2: (int, int), q: (int, int))
    ensures
        crs_lp_spec(p1, p2, q) == crs_lp_spec(p2, p1, q),
        crs_lp_spec(p1, p2, q) == crs_lp_spec(p1, q, p2),
        crs_lp_spec(p1, p2, q) == crs_lp_spec(q, p2, p1),
{
    assert(vdet(vsub(p1, p2), vsub(q, p2)) == -vdet(vsub(p2, p1), vsub(q, p1))) by (nonlinear_arith);
    assert(vdet(vsub(q, p1), vsub(p2, p1)) == -vdet(vsub(p2, p1), vsub(q, p1))) by (nonlinear_arith);
    assert(vdet(vsub(p2, q), vsub(p1, q)) == -vdet(vsub(p2, p1), vsub(q, p1))) by (nonlinear_arith);
}

/// Whether a point lies on a segment does not depend on the segment's
/// direction.
pub proof fn lemma_crs_sp_symmetric(p1: (int, int), p2: (int, int), q: (int, int))
    ensures
        crs_sp_spec(p1, p2, q) == crs_sp_spec(p2, p1, q),
{
    lemma_crs_lp_symmetric(p1, p2, q);
    assert(vdot(vsub(q, p1), vsub(q, p2)) == vdot(vsub(q, p2), vsub(q, p1))) by (nonlinear_arith);
}

/// Whether two segments meet depends neither on their order nor on their
/// directions.
pub proof fn lemma_crs_ss_symmetric(p1: (int, int), p2: (int, int), q1: (int, int), q2: (int, int))
    ensures
        crs_ss_spec(p1, p2, q1, q2) == crs_ss_spec(q1, q2, p1, p2),
        crs_ss_spec(p1, p2, q1, q2) == crs_ss_spec(p2, p1, q1, q2),
        crs_ss_spec(p1, p2, q1, q2) == crs_ss_spec(p1, p2, q2, q1),
{
    let a1 = vdet(vsub(p2, p1), vsub(q1, p1));
    let a2 = vdet(vsub(p2, p1), vsub(q2, p1));
    let b1 = vdet(vsub(q2, q1), vsub(p1, q1));
    let b2 = vdet(vsub(q2, q1), vsub(p2, q1));
    // Reversing p: the determinants of its line change sign; those of q's
    // line swap.
    assert(vdet(vsub(p1, p2), vsub(q1, p2)) == -vdet(vsub(p2, p1), vsub(q1, p1))) by (nonlinear_arith);
    assert(vdet(vsub(p1, p2), vsub(q2, p2)) == -vdet(vsub(p2, p1), vsub(q2, p1))) by (nonlinear_arith);
    assert(vdet(vsub(q1, q2), vsub(p1, q2)) == -vdet(vsub(q2, q1), vsub(p1, q1))) by (nonlinear_arith);
    assert(vdet(vsub(q1, q2), vsub(p2, q2)) == -vdet(vsub(q2, q1), vsub(p2, q1))) by (nonlinear_arith);
    assert(sgn(-a1) == -sgn(a1) && sgn(-a2) == -sgn(a2));
    assert(sgn(-b1) == -sgn(b1) && sgn(-b2) == -sgn(b2));
    assert(sgn(a1) * sgn(a2) == sgn(a2) * sgn(a1)) by (nonlinear_arith);
    assert(sgn(b1) * sgn(b2) == sgn(b2) * sgn(b1)) by (nonlinear_arith);
    assert((-sgn(a1)) * (-sgn(a2)) == sgn(a1) * sgn(a2)) by (nonlinear_arith);
    assert((-sgn(b1)) * (-sgn(b2)) == sgn(b1) * sgn(b2)) by (nonlinear_arith);
}

proof fn lemma_scale_term(m: int, a: int, b: int)
    by (nonlinear_arith)
    ensures
        m * m * (a * (a - b)) == (m * a) * (m * a - m * b),
{
}

proof fn lemma_factor_term(n: int, m: int, d: int)
    by (nonlinear_arith)
    ensures
        (n * d) * (n * d - m * d) == (n * (n - m)) * (d * d),
{
}

/// `q == p1 + (num / den) (p2 - p1)`, written without division.
pub open spec fn scaled_point(p1: (int, int), p2: (int, int), q: (int, int), num: int, den: int) -> bool {
    den * (q.0 - p1.0) == num * (p2.0 - p1.0) && den * (q.1 - p1.1) == num * (p2.1 - p1.1)
}

/// `q` lies on the closed segment from `p1` to `p2`: it is `p1 + t (p2 - p1)`
/// for a rational `t` between 0 and 1.
pub open spec fn on_segment(p1: (int, int), p2: (int, int), q: (int, int)) -> bool {
    exists|num: int, den: int| 0 < den && 0 <= num <= den && #[trigger] scaled_point(p1, p2, q, num, den)
}

/// The test of `crs_sp` holds exactly when `q` lies on the closed segment
/// from `p1` to `p2` (when `p1 == p2`, exactly when `q` is that point).
pub proof fn lemma_crs_sp_on_segment(p1: (int, int), p2: (int, int), q: (int, int))
    ensures
        crs_sp_spec(p1, p2, q) <==> on_segment(p1, p2, q),
{
    let d = vsub(p2, p1);
    let w = vsub(q, p1);
    let den = vdot(d, d);
    let num = vdot(d, w);
    if crs_sp_spec(p1, p2, q) {
        assert(vdet(d, w) == 0);
        assert(vdot(w, vsub(q, p2)) <= 0);
        if d.0 == 0 && d.1 == 0 {
            assert(vdot(w, w) <= 0);
            assert(w.0 == 0 && w.1 == 0) by (nonlinear_arith)
                requires
                    w.0 * w.0 + w.1 * w.1 <= 0,
            ;
            assert(scaled_point(p1, p2, q, 0, 1));
        } else {
            assert(den > 0) by (nonlinear_arith)
                requires
                    den == d.0 * d.0 + d.1 * d.1,
                    d.0 != 0 || d.1 != 0,
            ;
            assert(den * w.0 == num * d.0 && den * w.1 == num * d.1) by (nonlinear_arith)
                requires
                    den == d.0 * d.0 + d.1 * d.1,
                    num == d.0 * w.0 + d.1 * w.1,
                    d.0 * w.1 - d.1 * w.0 == 0,
            ;
            let ww = vdot(w, w);
            assert(ww <= num) by (nonlinear_arith)
                requires
                    vsub(q, p2) == (w.0 - d.0, w.1 - d.1),
                    w.0 * (w.0 - d.0) + w.1 * (w.1 - d.1) <= 0,
                    ww == w.0 * w.0 + w.1 * w.1,
                    num == d.0 * w.0 + d.1 * w.1,
            ;
            assert(ww >= 0) by (nonlinear_arith)
                requires
                    ww == w.0 * w.0 + w.1 * w.1,
            ;
            assert(num * num == (num * d.0) * w.0 + (num * d.1) * w.1) by (nonlinear_arith)
                requires
                    num == d.0 * w.0 + d.1 * w.1,
            ;
            assert((den * w.0) * w.0 + (den * w.1) * w.1 == den * ww) by (nonlinear_arith)
                requires
                    ww == w.0 * w.0 + w.1 * w.1,
            ;
            assert(num * num == den * ww);
            assert(num <= den) by (nonlinear_arith)
                requires
                    num * num == den * ww,
                    0 <= ww <= num,
                    den > 0,
            ;
            assert(scaled_point(p1, p2, q, num, den));
        }
    }
    if on_segment(p1, p2, q) {
        let (n, m) = choose|n: int, m: int| 0 < m && 0 <= n <= m && #[trigger] scaled_point(p1, p2, q, n, m);
        assert(vdet(d, w) == 0) by (nonlinear_arith)
            requires
                m * w.0 == n * d.0,
                m * w.1 == n * d.1,
                m > 0,
                vdet(d, w) == d.0 * w.1 - d.1 * w.0,
        ;
        let x = vdot(w, vsub(q, p2));
        assert(x == w.0 * (w.0 - d.0) + w.1 * (w.1 - d.1));
        lemma_scale_term(m, w.0, d.0);
        lemma_scale_term(m, w.1, d.1);
        assert(m * m * x == m * m * (w.0 * (w.0 - d.0)) + m * m * (w.1 * (w.1 - d.1))) by (nonlinear_arith)
            requires
                x == w.0 * (w.0 - d.0) + w.1 * (w.1 - d.1),
        ;
        lemma_factor_term(n, m, d.0);
        lemma_factor_term(n, m, d.1);
        assert((n * (n - m)) * (d.0 * d.0) + (n * (n - m)) * (d.1 * d.1) == (n * (n - m)) * (d.0 * d.0
            + d.1 * d.1)) by (nonlinear_arith);
        assert(m * m * x == (n * (n - m)) * (d.0 * d.0 + d.1 * d.1));
        assert(n * (n - m) <= 0) by (nonlinear_arith)
            requires
                0 <= n <= m,
        ;
        assert(d.0 * d.0 + d.1 * d.1 >= 0) by (nonlinear_arith);
        assert((n * (n - m)) * (d.0 * d.0 + d.1 * d.1) <= 0) by (nonlinear_arith)
            requires
                n * (n - m) <= 0,
                d.0 * d.0 + d.1 * d.1 >= 0,
        ;
        assert(x <= 0) by (nonlinear_arith)
            requires
                m * m * x <= 0,
                m > 0,
        ;
    }
}

/// `den * p1 + a * (p2 - p1) == den * q1 + b * (q2 - q1)`: the points at
/// fractions `a / den` of the segment `p1 p2` and `b / den` of `q1 q2`
/// coincide.
pub open spec fn common_at(
    p1: (int, int),
    p2: (int, int),
    q1: (int, int),
    q2: (int, int),
    a: int,
    b: int,
    den: int,
) -> bool {
    &&& den * p1.0 + a * (p2.0 - p1.0) == den * q1.0 + b * (q2.0 - q1.0)
    &&& den * p1.1 + a * (p2.1 - p1.1) == den * q1.1 + b * (q2.1 - q1.1)
}

/// The closed segments `p1 p2` and `q1 q2` have a common point.
pub open spec fn segments_meet(p1: (int, int), p2: (int, int), q1: (int, int), q2: (int, int)) -> bool {
    exists|a: int, b: int, den: int|
        0 < den && 0 <= a <= den && 0 <= b <= den && #[trigger] common_at(p1, p2, q1, q2, a, b, den)
}

/// A point at fraction `a / den` of the way from `x1` to `x2` lies between
/// them.
proof fn lemma_between(x1: int, x2: int, a: int, den: int)
    requires
        0 < den,
        0 <= a <= den,
    ensures
        den * imin(x1, x2) <= den * x1 + a * (x2 - x1) <= den * imax(x1, x2),
{
    if x1 <= x2 {
        assert(0 <= a * (x2 - x1) <= den * (x2 - x1)) by (nonlinear_arith)
            requires
                0 <= a <= den,
                x1 <= x2,
        ;
        assert(den * x1 + den * (x2 - x1) == den * x2) by (nonlinear_arith);
    } else {
        assert(den * (x2 - x1) <= a * (x2 - x1) <= 0) by (nonlinear_arith)
            requires
                0 <= a <= den,
                x2 < x1,
        ;
        assert(den * x1 + den * (x2 - x1) == den * x2) by (nonlinear_arith);
    }
}

/// When `(den - b) * a1 + b * a2 == 0` with `0 <= b <= den` and `den > 0`,
/// `a1` and `a2` are not both of one strict sign.
proof fn lemma_opposite_signs(a1: int, a2: int, b: int, den: int)
    requires
        0 < den,
        0 <= b <= den,
        (den - b) * a1 + b * a2 == 0,
    ensures
        sgn(a1) * sgn(a2) <= 0,
{
    if a1 > 0 && a2 > 0 {
        assert((den - b) * a1 + b * a2 > 0) by (nonlinear_arith)
            requires
                0 < den,
                0 <= b <= den,
                a1 > 0,
                a2 > 0,
        ;
    }
    if a1 < 0 && a2 < 0 {
        assert((den - b) * a1 + b * a2 < 0) by (nonlinear_arith)
            requires
                0 < den,
                0 <= b <= den,
                a1 < 0,
                a2 < 0,
        ;
    }
}

/// Seen from the line `p1 p2`, the point at fraction `b / den` of `q1 q2`
/// has the weighted cross product of the ends: when it lies on the line,
/// the weighted sum is zero.
proof fn lemma_weighted_det(
    p1: (int, int),
    p2: (int, int),
    q1: (int, int),
    q2: (int, int),
    a: int,
    b: int,
    den: int,
)
    requires
        common_at(p1, p2, q1, q2, a, b, den),
    ensures
        (den - b) * vdet(vsub(p2, p1), vsub(q1, p1)) + b * vdet(vsub(p2, p1), vsub(q2, p1)) == 0,
{
    let d = vsub(p2, p1);
    let u = vsub(q1, p1);
    let v = vsub(q2, p1);
    let w0 = (den - b) * u.0 + b * v.0;
    let w1 = (den - b) * u.1 + b * v.1;
    assert(w0 == a * d.0) by (nonlinear_arith)
        requires
            den * p1.0 + a * (p2.0 - p1.0) == den * q1.0 + b * (q2.0 - q1.0),
            w0 == (den - b) * u.0 + b * v.0,
            u.0 == q1.0 - p1.0,
            v.0 == q2.0 - p1.0,
            d.0 == p2.0 - p1.0,
    ;
    assert(w1 == a * d.1) by (nonlinear_arith)
        requires
            den * p1.1 + a * (p2.1 - p1.1) == den * q1.1 + b * (q2.1 - q1.1),
            w1 == (den - b) * u.1 + b * v.1,
            u.1 == q1.1 - p1.1,
            v.1 == q2.1 - p1.1,
            d.1 == p2.1 - p1.1,
    ;
    assert(d.0 * w1 - d.1 * w0 == 0) by (nonlinear_arith)
        requires
            w0 == a * d.0,
            w1 == a * d.1,
    ;
    lemma_det_combo(d.0, d.1, u.0, u.1, v.0, v.1, den - b, b);
}

proof fn lemma_mul_sum(d: int, x: int, a: int, y: int, b: int)
    by (nonlinear_arith)
    ensures
        d * (x * a + y * b) == x * (d * a) + y * (d * b),
{
}

proof fn lemma_mul_diff(x: int, p: int, q: int)
    by (nonlinear_arith)
    ensures
        x * (p - q) == x * p - x * q,
{
}

proof fn lemma_det_combo(d0: int, d1: int, u0: int, u1: int, v0: int, v1: int, x: int, y: int)
    ensures
        d0 * (x * u1 + y * v1) - d1 * (x * u0 + y * v0) == x * (d0 * u1 - d1 * u0) + y * (d0 * v1
            - d1 * v0),
{
    lemma_mul_sum(d0, x, u1, y, v1);
    lemma_mul_sum(d1, x, u0, y, v0);
    lemma_mul_diff(x, d0 * u1, d1 * u0);
    lemma_mul_diff(y, d0 * v1, d1 * v0);
    assert(d1 * u0 == u0 * d1 && d0 * u1 == u1 * d0 && d0 * v1 == v1 * d0 && d1 * v0 == v0 * d1)
        by (nonlinear_arith);
}

/// When the closed segments have a common point, the test of `crs_ss`
/// holds: it never misses a meeting.
proof fn lemma_meeting_segments_cross(p1: (int, int), p2: (int, int), q1: (int, int), q2: (int, int))
    requires
        segments_meet(p1, p2, q1, q2),
    ensures
        crs_ss_spec(p1, p2, q1, q2),
{
    let (a, b, den) = choose|a: int, b: int, den: int|
        0 < den && 0 <= a <= den && 0 <= b <= den && #[trigger] common_at(p1, p2, q1, q2, a, b, den);
    lemma_between(p1.0, p2.0, a, den);
    lemma_between(p1.1, p2.1, a, den);
    lemma_between(q1.0, q2.0, b, den);
    lemma_between(q1.1, q2.1, b, den);
    assert(boxes_meet(p1, p2, q1, q2)) by {
        if imax(p1.0, p2.0) < imin(q1.0, q2.0) {
            assert(den * imax(p1.0, p2.0) < den * imin(q1.0, q2.0)) by (nonlinear_arith)
                requires
                    0 < den,
                    imax(p1.0, p2.0) < imin(q1.0, q2.0),
            ;
        }
        if imax(q1.0, q2.0) < imin(p1.0, p2.0) {
            assert(den * imax(q1.0, q2.0) < den * imin(p1.0, p2.0)) by (nonlinear_arith)
                requires
                    0 < den,
                    imax(q1.0, q2.0) < imin(p1.0, p2.0),
            ;
        }
        if imax(p1.1, p2.1) < imin(q1.1, q2.1) {
            assert(den * imax(p1.1, p2.1) < den * imin(q1.1, q2.1)) by (nonlinear_arith)
                requires
                    0 < den,
                    imax(p1.1, p2.1) < imin(q1.1, q2.1),
            ;
        }
        if imax(q1.1, q2.1) < imin(p1.1, p2.1) {
            assert(den * imax(q1.1, q2.1) < den * imin(p1.1, p2.1)) by (nonlinear_arith)
                requires
                    0 < den,
                    imax(q1.1, q2.1) < imin(p1.1, p2.1),
            ;
        }
    }
    lemma_weighted_det(p1, p2, q1, q2, a, b, den);
    lemma_opposite_signs(vdet(vsub(p2, p1), vsub(q1, p1)), vdet(vsub(p2, p1), vsub(q2, p1)), b, den);
    assert(common_at(q1, q2, p1, p2, b, a, den));
    lemma_weighted_det(q1, q2, p1, p2, b, a, den);
    lemma_opposite_signs(vdet(vsub(q2, q1), vsub(p1, q1)), vdet(vsub(q2, q1), vsub(p2, q1)), a, den);
}

/// For `w = p - q`: `det(d, e) w + det(e, w) d + det(w, d) e == 0`, one
/// coordinate at a time.
proof fn lemma_three_dets(d0: int, d1: int, e0: int, e1: int, w0: int, w1: int)
    ensures
        (d0 * e1 - d1 * e0) * w0 + (e0 * w1 - e1 * w0) * d0 + (w0 * d1 - w1 * d0) * e0 == 0,
        (d0 * e1 - d1 * e0) * w1 + (e0 * w1 - e1 * w0) * d1 + (w0 * d1 - w1 * d0) * e1 == 0,
{
    assert((d0 * e1 - d1 * e0) * w0 + (e0 * w1 - e1 * w0) * d0 + (w0 * d1 - w1 * d0) * e0 == 0)
        by (nonlinear_arith);
    assert((d0 * e1 - d1 * e0) * w1 + (e0 * w1 - e1 * w0) * d1 + (w0 * d1 - w1 * d0) * e1 == 0)
        by (nonlinear_arith);
}

/// When the test of `crs_ss` holds for segments that are not parallel, they
/// have a common point: it finds every crossing of such segments.
proof fn lemma_crossing_segments_meet(p1: (int, int), p2: (int, int), q1: (int, int), q2: (int, int))
    requires
        sgn(vdet(vsub(p2, p1), vsub(q1, p1))) * sgn(vdet(vsub(p2, p1), vsub(q2, p1))) <= 0,
        sgn(vdet(vsub(q2, q1), vsub(p1, q1))) * sgn(vdet(vsub(q2, q1), vsub(p2, q1))) <= 0,
        vdet(vsub(p2, p1), vsub(q2, q1)) != 0,
    ensures
        segments_meet(p1, p2, q1, q2),
{
    let d = vsub(p2, p1);
    let e = vsub(q2, q1);
    let w = vsub(p1, q1);
    let dd = vdet(d, e);
    let a1 = vdet(d, vsub(q1, p1));
    let a2 = vdet(d, vsub(q2, p1));
    let b1 = vdet(e, vsub(p1, q1));
    let b2 = vdet(e, vsub(p2, q1));
    assert(a2 == a1 + dd) by (nonlinear_arith)
        requires
            a1 == d.0 * (q1.1 - p1.1) - d.1 * (q1.0 - p1.0),
            a2 == d.0 * (q2.1 - p1.1) - d.1 * (q2.0 - p1.0),
            dd == d.0 * (q2.1 - q1.1) - d.1 * (q2.0 - q1.0),
    ;
    assert(b2 == b1 - dd) by (nonlinear_arith)
        requires
            b1 == e.0 * (p1.1 - q1.1) - e.1 * (p1.0 - q1.0),
            b2 == e.0 * (p2.1 - q1.1) - e.1 * (p2.0 - q1.0),
            dd == d.0 * e.1 - d.1 * e.0,
            d == (p2.0 - p1.0, p2.1 - p1.1),
    ;
    assert(a1 == w.0 * d.1 - w.1 * d.0) by (nonlinear_arith)
        requires
            a1 == d.0 * (q1.1 - p1.1) - d.1 * (q1.0 - p1.0),
            w == (p1.0 - q1.0, p1.1 - q1.1),
    ;
    lemma_three_dets(d.0, d.1, e.0, e.1, w.0, w.1);
    // dd * w + b1 * d == -a1 * e, coordinate by coordinate.
    assert(b1 == e.0 * w.1 - e.1 * w.0);
    assert(dd == d.0 * e.1 - d.1 * e.0);
    assert(dd * w.0 + b1 * d.0 == -a1 * e.0 && dd * w.1 + b1 * d.1 == -a1 * e.1) by (nonlinear_arith)
        requires
            (d.0 * e.1 - d.1 * e.0) * w.0 + (e.0 * w.1 - e.1 * w.0) * d.0 + (w.0 * d.1 - w.1 * d.0) * e.0 == 0,
            (d.0 * e.1 - d.1 * e.0) * w.1 + (e.0 * w.1 - e.1 * w.0) * d.1 + (w.0 * d.1 - w.1 * d.0) * e.1 == 0,
            a1 == w.0 * d.1 - w.1 * d.0,
            b1 == e.0 * w.1 - e.1 * w.0,
            dd == d.0 * e.1 - d.1 * e.0,
    ;
    if dd > 0 {
        assert(0 <= b1 <= dd && 0 <= -a1 <= dd) by {
            if b1 < 0 || b1 > dd || a1 > 0 || -a1 > dd {
                assert(sgn(a1) * sgn(a2) > 0 || sgn(b1) * sgn(b2) > 0);
            }
        }
        assert(common_at(p1, p2, q1, q2, b1, -a1, dd)) by (nonlinear_arith)
            requires
                dd * w.0 + b1 * d.0 == -a1 * e.0,
                dd * w.1 + b1 * d.1 == -a1 * e.1,
                w == (p1.0 - q1.0, p1.1 - q1.1),
                d == (p2.0 - p1.0, p2.1 - p1.1),
                e == (q2.0 - q1.0, q2.1 - q1.1),
        ;
    } else {
        assert(0 <= -b1 <= -dd && 0 <= a1 <= -dd) by {
            if b1 > 0 || -b1 > -dd || a1 < 0 || a1 > -dd {
                assert(sgn(a1) * sgn(a2) > 0 || sgn(b1) * sgn(b2) > 0);
            }
        }
        assert(common_at(p1, p2, q1, q2, -b1, a1, -dd)) by (nonlinear_arith)
            requires
                dd * w.0 + b1 * d.0 == -a1 * e.0,
                dd * w.1 + b1 * d.1 == -a1 * e.1,
                w == (p1.0 - q1.0, p1.1 - q1.1),
                d == (p2.0 - p1.0, p2.1 - p1.1),
                e == (q2.0 - q1.0, q2.1 - q1.1),
        ;
    }
}

/// For `a` and `b` both parallel to `u`, whose coordinate `c` is not zero:
/// when the products of `a` and `b` in coordinate `c` is not positive,
/// neither is their dot product.
proof fn lemma_parallel_dot(a: (int, int), b: (int, int), u: (int, int), first: bool)
    requires
        vdet(u, a) == 0,
        vdet(u, b) == 0,
        first ==> u.0 != 0 && a.0 * b.0 <= 0,
        !first ==> u.1 != 0 && a.1 * b.1 <= 0,
    ensures
        vdot(a, b) <= 0,
{
    assert(u.0 * a.1 == u.1 * a.0 && u.0 * b.1 == u.1 * b.0);
    if first {
        assert((u.0 * u.0) * (a.1 * b.1) == (u.1 * u.1) * (a.0 * b.0)) by (nonlinear_arith)
            requires
                u.0 * a.1 == u.1 * a.0,
                u.0 * b.1 == u.1 * b.0,
        ;
        assert(a.1 * b.1 <= 0) by (nonlinear_arith)
            requires
                (u.0 * u.0) * (a.1 * b.1) == (u.1 * u.1) * (a.0 * b.0),
                a.0 * b.0 <= 0,
                u.0 != 0,
        ;
    } else {
        assert((u.1 * u.1) * (a.0 * b.0) == (u.0 * u.0) * (a.1 * b.1)) by (nonlinear_arith)
            requires
                u.0 * a.1 == u.1 * a.0,
                u.0 * b.1 == u.1 * b.0,
        ;
        assert(a.0 * b.0 <= 0) by (nonlinear_arith)
            requires
                (u.1 * u.1) * (a.0 * b.0) == (u.0 * u.0) * (a.1 * b.1),
                a.1 * b.1 <= 0,
                u.1 != 0,
        ;
    }
}

proof fn lemma_between_product(x: int, y: int, z: int)
    requires
        imin(y, z) <= x <= imax(y, z),
    ensures
        (x - y) * (x - z) <= 0,
{
    if y <= z {
        assert((x - y) * (x - z) <= 0) by (nonlinear_arith)
            requires
                y <= x <= z,
        ;
    } else {
        assert((x - y) * (x - z) <= 0) by (nonlinear_arith)
            requires
                z <= x <= y,
        ;
    }
}

/// On a line with direction `u`, the point `x` lies on the closed segment
/// `y z` when its coordinate `c` (one where `u` is not zero) lies between
/// theirs.
proof fn lemma_on_line_between(x: (int, int), y: (int, int), z: (int, int), u: (int, int), first: bool)
    requires
        vdet(u, vsub(x, y)) == 0,
        vdet(u, vsub(x, z)) == 0,
        vdet(vsub(z, y), vsub(x, y)) == 0,
        first ==> u.0 != 0 && imin(y.0, z.0) <= x.0 <= imax(y.0, z.0),
        !first ==> u.1 != 0 && imin(y.1, z.1) <= x.1 <= imax(y.1, z.1),
    ensures
        on_segment(y, z, x),
{
    if first {
        lemma_between_product(x.0, y.0, z.0);
    } else {
        lemma_between_product(x.1, y.1, z.1);
    }
    lemma_parallel_dot(vsub(x, y), vsub(x, z), u, first);
    lemma_crs_sp_on_segment(y, z, x);
}

/// `det(u, a - b)` is `det(u, a - c) - det(u, b - c)`.
proof fn lemma_det_shift(u: (int, int), a: (int, int), b: (int, int), c: (int, int))
    ensures
        vdet(u, vsub(a, b)) == vdet(u, vsub(a, c)) - vdet(u, vsub(b, c)),
{
    assert(vdet(u, vsub(a, b)) == vdet(u, vsub(a, c)) - vdet(u, vsub(b, c))) by (nonlinear_arith);
}

/// When the test of `crs_ss` holds for parallel segments, they have a
/// common point: they lie on one line and overlap there.
proof fn lemma_parallel_crossing_segments_meet(
    p1: (int, int),
    p2: (int, int),
    q1: (int, int),
    q2: (int, int),
)
    requires
        crs_ss_spec(p1, p2, q1, q2),
        vdet(vsub(p2, p1), vsub(q2, q1)) == 0,
    ensures
        segments_meet(p1, p2, q1, q2),
{
    let d = vsub(p2, p1);
    let e = vsub(q2, q1);
    let a1 = vdet(d, vsub(q1, p1));
    let a2 = vdet(d, vsub(q2, p1));
    let b1 = vdet(e, vsub(p1, q1));
    let b2 = vdet(e, vsub(p2, q1));
    lemma_det_shift(d, q2, q1, p1);
    assert(vdet(d, vsub(q2, q1)) == 0);
    assert(a2 == a1);
    lemma_det_shift(e, p2, p1, q1);
    assert(vdet(e, vsub(p2, p1)) == -vdet(d, e)) by (nonlinear_arith)
        requires
            d == vsub(p2, p1),
    ;
    assert(b2 == b1);
    assert(a1 == 0) by {
        if a1 != 0 {
            assert(sgn(a1) * sgn(a2) > 0);
        }
    }
    assert(b1 == 0) by {
        if b1 != 0 {
            assert(sgn(b1) * sgn(b2) > 0);
        }
    }
    // The candidates: an end of one segment on the other.
    let u = if d.0 != 0 || d.1 != 0 {
        d
    } else {
        e
    };
    if u.0 == 0 && u.1 == 0 {
        // Both segments are single points, and their boxes meet.
        assert(p1 == p2 && q1 == q2);
        assert(p1 == q1);
        assert(common_at(p1, p2, q1, q2, 0, 0, 1));
        return;
    }
    // All four points lie on one line with direction `u`.
    lemma_det_shift(u, p1, q1, p1);
    lemma_det_shift(u, p1, q2, p1);
    lemma_det_shift(u, p2, q1, p1);
    lemma_det_shift(u, p2, q2, p1);
    lemma_det_shift(u, q1, p1, q1);
    lemma_det_shift(u, q1, p2, q1);
    lemma_det_shift(u, q2, p1, q1);
    lemma_det_shift(u, q2, p2, q1);
    lemma_det_shift(u, q2, q1, p1);
    lemma_det_shift(u, p2, p1, q1);
    if u == d {
        assert(vdet(u, vsub(q1, p1)) == 0 && vdet(u, vsub(q2, p1)) == 0 && vdet(u, vsub(p2, p1)) == 0)
            by (nonlinear_arith)
            requires
                u == d,
                d == vsub(p2, p1),
                a1 == 0,
                a2 == 0,
                a1 == vdet(d, vsub(q1, p1)),
                a2 == vdet(d, vsub(q2, p1)),
        ;
    } else {
        assert(d.0 == 0 && d.1 == 0);
        assert(p1 == p2);
        assert(vdet(u, vsub(p1, q1)) == 0 && vdet(u, vsub(q2, q1)) == 0) by (nonlinear_arith)
            requires
                u == e,
                e == vsub(q2, q1),
                b1 == 0,
                b1 == vdet(e, vsub(p1, q1)),
        ;
        assert(vsub(p2, p1) == (0int, 0int));
        assert(vdet(u, vsub(p2, p1)) == 0) by (nonlinear_arith)
            requires
                vsub(p2, p1) == (0int, 0int),
        ;
        lemma_det_shift(u, p1, q1, q1);
        assert(vdet(u, vsub(q1, q1)) == 0) by (nonlinear_arith);
    }
    let first = u.0 != 0;
    // Some end point lies within the other segment's range in that
    // coordinate, since the boxes meet.
    lemma_det_shift(d, p1, p1, p1);
    lemma_det_shift(e, q1, q1, q1);
    assert(vdet(vsub(q2, q1), vsub(p1, q1)) == b1);
    assert(vdet(vsub(q2, q1), vsub(p2, q1)) == b2);
    assert(vdet(vsub(p2, p1), vsub(q1, p1)) == a1);
    assert(vdet(vsub(p2, p1), vsub(q2, p1)) == a2);
    if first {
        if imin(q1.0, q2.0) <= p1.0 <= imax(q1.0, q2.0) {
            lemma_on_line_between(p1, q1, q2, u, true);
            let (n, m) = choose|n: int, m: int| 0 < m && 0 <= n <= m && #[trigger] scaled_point(q1, q2, p1, n, m);
            assert(common_at(p1, p2, q1, q2, 0, n, m)) by (nonlinear_arith)
                requires
                    m * (p1.0 - q1.0) == n * (q2.0 - q1.0),
                    m * (p1.1 - q1.1) == n * (q2.1 - q1.1),
            ;
        } else if imin(q1.0, q2.0) <= p2.0 <= imax(q1.0, q2.0) {
            lemma_on_line_between(p2, q1, q2, u, true);
            let (n, m) = choose|n: int, m: int| 0 < m && 0 <= n <= m && #[trigger] scaled_point(q1, q2, p2, n, m);
            assert(common_at(p1, p2, q1, q2, m, n, m)) by (nonlinear_arith)
                requires
                    m * (p2.0 - q1.0) == n * (q2.0 - q1.0),
                    m * (p2.1 - q1.1) == n * (q2.1 - q1.1),
            ;
        } else if imin(p1.0, p2.0) <= q1.0 <= imax(p1.0, p2.0) {
            lemma_on_line_between(q1, p1, p2, u, true);
            let (n, m) = choose|n: int, m: int| 0 < m && 0 <= n <= m && #[trigger] scaled_point(p1, p2, q1, n, m);
            assert(common_at(p1, p2, q1, q2, n, 0, m)) by (nonlinear_arith)
                requires
                    m * (q1.0 - p1.0) == n * (p2.0 - p1.0),
                    m * (q1.1 - p1.1) == n * (p2.1 - p1.1),
            ;
        } else {
            lemma_on_line_between(q2, p1, p2, u, true);
            let (n, m) = choose|n: int, m: int| 0 < m && 0 <= n <= m && #[trigger] scaled_point(p1, p2, q2, n, m);
            assert(common_at(p1, p2, q1, q2, n, m, m)) by (nonlinear_arith)
                requires
                    m * (q2.0 - p1.0) == n * (p2.0 - p1.0),
                    m * (q2.1 - p1.1) == n * (p2.1 - p1.1),
            ;
        }
    } else {
        if imin(q1.1, q2.1) <= p1.1 <= imax(q1.1, q2.1) {
            lemma_on_line_between(p1, q1, q2, u, false);
            let (n, m) = choose|n: int, m: int| 0 < m && 0 <= n <= m && #[trigger] scaled_point(q1, q2, p1, n, m);
            assert(common_at(p1, p2, q1, q2, 0, n, m)) by (nonlinear_arith)
                requires
                    m * (p1.0 - q1.0) == n * (q2.0 - q1.0),
                    m * (p1.1 - q1.1) == n * (q2.1 - q1.1),
            ;
        } else if imin(q1.1, q2.1) <= p2.1 <= imax(q1.1, q2.1) {
            lemma_on_line_between(p2, q1, q2, u, false);
            let (n, m) = choose|n: int, m: int| 0 < m && 0 <= n <= m && #[trigger] scaled_point(q1, q2, p2, n, m);
            assert(common_at(p1, p2, q1, q2, m, n, m)) by (nonlinear_arith)
                requires
                    m * (p2.0 - q1.0) == n * (q2.0 - q1.0),
                    m * (p2.1 - q1.1) == n * (q2.1 - q1.1),
            ;
        } else if imin(p1.1, p2.1) <= q1.1 <= imax(p1.1, p2.1) {
            lemma_on_line_between(q1, p1, p2, u, false);
            let (n, m) = choose|n: int, m: int| 0 < m && 0 <= n <= m && #[trigger] scaled_point(p1, p2, q1, n, m);
            assert(common_at(p1, p2, q1, q2, n, 0, m)) by (nonlinear_arith)
                requires
                    m * (q1.0 - p1.0) == n * (p2.0 - p1.0),
                    m * (q1.1 - p1.1) == n * (p2.1 - p1.1),
            ;
        } else {
            lemma_on_line_between(q2, p1, p2, u, false);
            let (n, m) = choose|n: int, m: int| 0 < m && 0 <= n <= m && #[trigger] scaled_point(p1, p2, q2, n, m);
            assert(common_at(p1, p2, q1, q2, n, m, m)) by (nonlinear_arith)
                requires
                    m * (q2.0 - p1.0) == n * (p2.0 - p1.0),
                    m * (q2.1 - p1.1) == n * (p2.1 - p1.1),
            ;
        }
    }
}

/// The test of `crs_ss` holds exactly when the closed segments have a common
/// point (touching ends, overlaps on one line and single-point segments
/// included).
pub proof fn lemma_crs_ss_meet(p1: (int, int), p2: (int, int), q1: (int, int), q2: (int, int))
    ensures
        crs_ss_spec(p1, p2, q1, q2) <==> segments_meet(p1, p2, q1, q2),
{
    if segments_meet(p1, p2, q1, q2) {
        lemma_meeting_segments_cross(p1, p2, q1, q2);
    }
    if crs_ss_spec(p1, p2, q1, q2) {
        if vdet(vsub(p2, p1), vsub(q2, q1)) == 0 {
            lemma_parallel_crossing_segments_meet(p1, p2, q1, q2);
        } else {
            lemma_crossing_segments_meet(p1, p2, q1, q2);
        }
    }
}

/// The open segments `p1 p2` and `q1 q2` cross at one point inside both:
/// each segment's ends lie strictly on the two sides of the other's line.
pub open spec fn proper_cross(p1: (int, int), p2: (int, int), q1: (int, int), q2: (int, int)) -> bool {
    &&& sgn(vdet(vsub(p2, p1), vsub(q1, p1))) * sgn(vdet(vsub(p2, p1), vsub(q2, p1))) < 0
    &&& sgn(vdet(vsub(q2, q1), vsub(p1, q1))) * sgn(vdet(vsub(q2, q1), vsub(p2, q1))) < 0
}

/// Segments that cross properly meet, are not parallel, and their lines
/// meet at a point that is none of the four ends.
pub proof fn lemma_proper_cross(p1: (int, int), p2: (int, int), q1: (int, int), q2: (int, int))
    requires
        proper_cross(p1, p2, q1, q2),
    ensures
        crs_ss_spec(p1, p2, q1, q2),
        pi_ll_spec(p1, p2, q1, q2) is Some,
        !rpt_is(pi_ll_spec(p1, p2, q1, q2).unwrap(), p1),
        !rpt_is(pi_ll_spec(p1, p2, q1, q2).unwrap(), p2),
        !rpt_is(pi_ll_spec(p1, p2, q1, q2).unwrap(), q1),
        !rpt_is(pi_ll_spec(p1, p2, q1, q2).unwrap(), q2),
{
    let d = vsub(p2, p1);
    let e = vsub(q2, q1);
    let a1 = vdet(d, vsub(q1, p1));
    let a2 = vdet(d, vsub(q2, p1));
    let b1 = vdet(e, vsub(p1, q1));
    let b2 = vdet(e, vsub(p2, q1));
    let dd = vdet(d, e);
    assert(a2 == a1 + dd) by (nonlinear_arith)
        requires
            a1 == d.0 * (q1.1 - p1.1) - d.1 * (q1.0 - p1.0),
            a2 == d.0 * (q2.1 - p1.1) - d.1 * (q2.0 - p1.0),
            dd == d.0 * (q2.1 - q1.1) - d.1 * (q2.0 - q1.0),
    ;
    assert(a1 != 0 && a2 != 0 && b1 != 0 && b2 != 0);
    assert(dd != 0) by {
        if dd == 0 {
            assert(sgn(a1) * sgn(a2) == sgn(a1) * sgn(a1));
            assert(sgn(a1) * sgn(a1) > 0);
        }
    }
    lemma_crossing_segments_meet(p1, p2, q1, q2);
    lemma_meeting_segments_cross(p1, p2, q1, q2);
    // pi_ll's denominator and parameter.
    let big_d = vdet(e, d);
    let t = vdet(e, vsub(q1, p1));
    assert(big_d == -dd) by (nonlinear_arith)
        requires
            big_d == e.0 * d.1 - e.1 * d.0,
            dd == d.0 * e.1 - d.1 * e.0,
    ;
    let r = pi_ll_spec(p1, p2, q1, q2).unwrap();
    assert(r == (p1.0 * big_d + d.0 * t, p1.1 * big_d + d.1 * t, big_d));
    assert(t == -b1) by (nonlinear_arith)
        requires
            t == e.0 * (q1.1 - p1.1) - e.1 * (q1.0 - p1.0),
            b1 == e.0 * (p1.1 - q1.1) - e.1 * (p1.0 - q1.0),
    ;
    // An end of q at r would lie on p's line.
    assert forall|x: (int, int)| rpt_is(r, x) implies vdet(d, vsub(x, p1)) == 0 by {
        assert(big_d * (x.0 - p1.0) == t * d.0 && big_d * (x.1 - p1.1) == t * d.1) by (nonlinear_arith)
            requires
                r.0 == r.2 * x.0,
                r.1 == r.2 * x.1,
                r == (p1.0 * big_d + d.0 * t, p1.1 * big_d + d.1 * t, big_d),
        ;
        assert(big_d * vdet(d, vsub(x, p1)) == 0) by (nonlinear_arith)
            requires
                big_d * (x.0 - p1.0) == t * d.0,
                big_d * (x.1 - p1.1) == t * d.1,
        ;
        assert(vdet(d, vsub(x, p1)) == 0) by (nonlinear_arith)
            requires
                big_d * vdet(d, vsub(x, p1)) == 0,
                big_d != 0,
        ;
    }
    if rpt_is(r, p1) {
        assert(t * d.0 == 0 && t * d.1 == 0) by (nonlinear_arith)
            requires
                r.0 == r.2 * p1.0,
                r.1 == r.2 * p1.1,
                r == (p1.0 * big_d + d.0 * t, p1.1 * big_d + d.1 * t, big_d),
        ;
        assert(d.0 != 0 || d.1 != 0) by {
            if d.0 == 0 && d.1 == 0 {
                assert(dd == 0) by (nonlinear_arith)
                    requires
                        d.0 == 0 && d.1 == 0,
                        dd == d.0 * e.1 - d.1 * e.0,
                ;
            }
        }
        assert(t == 0) by (nonlinear_arith)
            requires
                t * d.0 == 0,
                t * d.1 == 0,
                d.0 != 0 || d.1 != 0,
        ;
    }
    if rpt_is(r, p2) {
        assert((t - big_d) * d.0 == 0 && (t - big_d) * d.1 == 0) by (nonlinear_arith)
            requires
                r.0 == r.2 * p2.0,
                r.1 == r.2 * p2.1,
                r == (p1.0 * big_d + d.0 * t, p1.1 * big_d + d.1 * t, big_d),
                d == (p2.0 - p1.0, p2.1 - p1.1),
        ;
        assert(d.0 != 0 || d.1 != 0) by {
            if d.0 == 0 && d.1 == 0 {
                assert(dd == 0) by (nonlinear_arith)
                    requires
                        d.0 == 0 && d.1 == 0,
                        dd == d.0 * e.1 - d.1 * e.0,
                ;
            }
        }
        assert(t == big_d) by (nonlinear_arith)
            requires
                (t - big_d) * d.0 == 0,
                (t - big_d) * d.1 == 0,
                d.0 != 0 || d.1 != 0,
        ;
        assert(b2 == b1 - dd) by (nonlinear_arith)
            requires
                b1 == e.0 * (p1.1 - q1.1) - e.1 * (p1.0 - q1.0),
                b2 == e.0 * (p2.1 - q1.1) - e.1 * (p2.0 - q1.0),
                dd == d.0 * e.1 - d.1 * e.0,
                d == (p2.0 - p1.0, p2.1 - p1.1),
        ;
    }
}

/// `den * den` times the squared distance from `q` to the point
/// `p1 + (num / den) (p2 - p1)`.
pub open spec fn scaled_dist2(p1: (int, int), p2: (int, int), q: (int, int), num: int, den: int) -> int {
    let x = (den * (p1.0 - q.0) + num * (p2.0 - p1.0), den * (p1.1 - q.1) + num * (p2.1 - p1.1));
    x.0 * x.0 + x.1 * x.1
}

proof fn lemma_mul_sum2(x: int, y: int, z: int, w: int)
    by (nonlinear_arith)
    ensures
        (x + y) * (z + w) == x * z + x * w + y * z + y * w,
{
}

proof fn lemma_sq_prod(a: int, b: int)
    by (nonlinear_arith)
    ensures
        (a * a) * (b * b) == (a * b) * (a * b),
{
}

proof fn lemma_sq_sum(x: int, y: int)
    by (nonlinear_arith)
    ensures
        (x + y) * (x + y) == x * x + 2 * (x * y) + y * y,
        (x - y) * (x - y) == x * x - 2 * (x * y) + y * y,
{
}

proof fn lemma_prod4(a: int, b: int, c: int, e: int)
    by (nonlinear_arith)
    ensures
        (a * b) * (c * e) == (b * c) * (e * a),
{
}

proof fn lemma_lin(x: int, y: int, z: int, u: int, v: int)
    by (nonlinear_arith)
    ensures
        (x * y - z * u) * v == x * (y * v) - z * (u * v),
        v * (x * y - z * u) == x * (v * y) - z * (v * u),
{
}

proof fn lemma_mul_comm(a: int, b: int)
    by (nonlinear_arith)
    ensures
        a * b == b * a,
{
}

proof fn lemma_mul_neg(a: int, b: int)
    by (nonlinear_arith)
    ensures
        (a * -1) * (a * -1) == a * a,
        a * (b * -1) == (a * b) * -1,
{
}

/// `|a|^2 |d|^2 == dot(a, d)^2 + det(d, a)^2`.
proof fn lemma_lagrange2(a0: int, a1: int, d0: int, d1: int)
    ensures
        (a0 * a0 + a1 * a1) * (d0 * d0 + d1 * d1) == (a0 * d0 + a1 * d1) * (a0 * d0 + a1 * d1) + (
        d0 * a1 - d1 * a0) * (d0 * a1 - d1 * a0),
{
    lemma_mul_sum2(a0 * a0, a1 * a1, d0 * d0, d1 * d1);
    lemma_sq_prod(a0, d0);
    lemma_sq_prod(a0, d1);
    lemma_sq_prod(a1, d0);
    lemma_sq_prod(a1, d1);
    lemma_sq_sum(a0 * d0, a1 * d1);
    lemma_sq_sum(d0 * a1, d1 * a0);
    lemma_prod4(a0, d0, a1, d1);
    lemma_mul_comm(a0, d1);
    lemma_mul_comm(a1, d0);
    lemma_sq_prod(d0, a1);
    lemma_sq_prod(d1, a0);
    lemma_mul_comm(d0 * a1, d1 * a0);
}

/// `|num d - den w|^2 * |d|^2 == (num |d|^2 - den dot(d, w))^2 + den^2 det(d, w)^2`.
proof fn lemma_lagrange(d0: int, d1: int, w0: int, w1: int, num: int, den: int)
    ensures
        ((num * d0 - den * w0) * (num * d0 - den * w0) + (num * d1 - den * w1) * (num * d1 - den
            * w1)) * (d0 * d0 + d1 * d1) == (num * (d0 * d0 + d1 * d1) - den * (d0 * w0 + d1 * w1))
            * (num * (d0 * d0 + d1 * d1) - den * (d0 * w0 + d1 * w1)) + (den * (d0 * w1 - d1 * w0))
            * (den * (d0 * w1 - d1 * w0)),
{
    let a0 = num * d0 - den * w0;
    let a1 = num * d1 - den * w1;
    lemma_lagrange2(a0, a1, d0, d1);
    lemma_lin(num, d0, den, w0, d0);
    lemma_lin(num, d1, den, w1, d1);
    lemma_mul_comm(w0, d0);
    lemma_mul_comm(w1, d1);
    assert(a0 * d0 + a1 * d1 == num * (d0 * d0 + d1 * d1) - den * (d0 * w0 + d1 * w1)) by {
        lemma_mul_sum_scalar(num, d0 * d0, d1 * d1);
        lemma_mul_sum_scalar(den, d0 * w0, d1 * w1);
    }
    lemma_lin(num, d1, den, w1, d0);
    lemma_lin(num, d0, den, w0, d1);
    lemma_mul_comm(d0, d1);
    assert(d0 * a1 - d1 * a0 == den * (d1 * w0) - den * (d0 * w1));
    lemma_mul_diff_scalar(den, d0 * w1, d1 * w0);
    lemma_mul_comm(w1, d0);
    lemma_mul_comm(w0, d1);
    let c = d0 * w1 - d1 * w0;
    assert(d0 * a1 - d1 * a0 == (den * c) * -1);
    lemma_mul_neg(den * c, 0);
}

/// `scaled_dist2` in the terms of `lemma_lagrange`.
proof fn lemma_scaled_dist2(p1: (int, int), p2: (int, int), q: (int, int), num: int, den: int)
    ensures
        scaled_dist2(p1, p2, q, num, den) == (num * (p2.0 - p1.0) - den * (q.0 - p1.0)) * (num * (p2.0
            - p1.0) - den * (q.0 - p1.0)) + (num * (p2.1 - p1.1) - den * (q.1 - p1.1)) * (num * (p2.1
            - p1.1) - den * (q.1 - p1.1)),
{
    lemma_mul_diff_scalar(den, p1.0, q.0);
    lemma_mul_diff_scalar(den, q.0, p1.0);
    lemma_mul_diff_scalar(den, p1.1, q.1);
    lemma_mul_diff_scalar(den, q.1, p1.1);
}

proof fn lemma_expand_sq(num: int, den: int, a: int, b: int)
    ensures
        (num * a - den * b) * (num * a - den * b) == (num * num) * (a * a) - 2 * ((num * den) * (a
            * b)) + (den * den) * (b * b),
{
    lemma_sq_sum(num * a, den * b);
    lemma_sq_prod(num, a);
    lemma_sq_prod(den, b);
    lemma_prod_swap(num, a, den, b);
}

proof fn lemma_prod_swap(a: int, b: int, c: int, e: int)
    by (nonlinear_arith)
    ensures
        (a * b) * (c * e) == (a * c) * (b * e),
{
}

proof fn lemma_start_case(nn: int, nd: int, dd: int, s: int)
    by (nonlinear_arith)
    requires
        nn >= 0,
        nd >= 0,
        dd >= 0,
        s <= 0,
    ensures
        nn * dd - 2 * (nd * s) >= 0,
{
}

proof fn lemma_end_case(num: int, den: int, dd: int, s: int, ww: int)
    requires
        0 < den,
        0 <= num <= den,
        dd >= 0,
        s >= dd,
    ensures
        (den * den) * (dd - 2 * s + ww) <= (num * num) * dd - 2 * ((num * den) * s) + (den * den) * ww,
{
    let nn = num * num;
    let nd = num * den;
    let de2 = den * den;
    assert(de2 >= nd && nn - 2 * nd + de2 >= 0) by (nonlinear_arith)
        requires
            0 < den,
            0 <= num <= den,
            nn == num * num,
            nd == num * den,
            de2 == den * den,
    ;
    lemma_end_ineq(nn, nd, de2, dd, s);
    assert(de2 * (dd - 2 * s + ww) == de2 * dd - 2 * (de2 * s) + de2 * ww) by (nonlinear_arith);
}

proof fn lemma_end_ineq(nn: int, nd: int, de2: int, dd: int, s: int)
    by (nonlinear_arith)
    requires
        de2 >= nd,
        s >= dd,
        dd >= 0,
        nn - 2 * nd + de2 >= 0,
    ensures
        nn * dd - 2 * (nd * s) - de2 * dd + 2 * (de2 * s) >= 0,
{
    assert((s - dd) * (de2 - nd) >= 0);
    assert(dd * (nn - 2 * nd + de2) >= 0);
}

proof fn lemma_mul_sum_scalar(x: int, a: int, b: int)
    by (nonlinear_arith)
    ensures
        x * (a + b) == x * a + x * b,
{
}

proof fn lemma_mul_diff_scalar(x: int, a: int, b: int)
    by (nonlinear_arith)
    ensures
        x * (a - b) == x * a - x * b,
{
}

/// `dist2_lp` is the smallest squared distance from `q` to a point of the
/// line through `p1` and `p2` (two distinct points), reached at the
/// projection: for every rational point `p1 + (num / den) (p2 - p1)` its
/// squared distance is at least the fraction, with equality at
/// `num / den == dot(p2 - p1, q - p1) / |p2 - p1|^2`.
pub proof fn lemma_dist2_lp_is_min(p1: (int, int), p2: (int, int), q: (int, int))
    requires
        p1 != p2,
    ensures
        dist2_lp_spec(p1, p2, q).1 > 0,
        forall|num: int, den: int|
            0 < den ==> den * den * dist2_lp_spec(p1, p2, q).0 <= dist2_lp_spec(p1, p2, q).1
                * #[trigger] scaled_dist2(p1, p2, q, num, den),
        ({
            let dd = vdot(vsub(p2, p1), vsub(p2, p1));
            let s = vdot(vsub(p2, p1), vsub(q, p1));
            dd * dd * dist2_lp_spec(p1, p2, q).0 == dist2_lp_spec(p1, p2, q).1 * scaled_dist2(
                p1,
                p2,
                q,
                s,
                dd,
            )
        }),
{
    let d = vsub(p2, p1);
    let w = vsub(q, p1);
    let dd = vdot(d, d);
    let c = vdet(d, w);
    let s = vdot(d, w);
    assert(dd > 0) by (nonlinear_arith)
        requires
            dd == d.0 * d.0 + d.1 * d.1,
            d.0 != 0 || d.1 != 0,
    ;
    assert forall|num: int, den: int| 0 < den implies den * den * dist2_lp_spec(p1, p2, q).0 <= dist2_lp_spec(
        p1,
        p2,
        q,
    ).1 * #[trigger] scaled_dist2(p1, p2, q, num, den) by {
        lemma_scaled_dist2(p1, p2, q, num, den);
        lemma_lagrange(d.0, d.1, w.0, w.1, num, den);
        let a = scaled_dist2(p1, p2, q, num, den);
        let x = num * dd - den * s;
        assert(x * x >= 0) by (nonlinear_arith);
        assert(den * den * (c * c) == (den * c) * (den * c)) by (nonlinear_arith);
        lemma_mul_comm(a, dd);
        assert(a * dd == x * x + (den * c) * (den * c));
    }
    lemma_scaled_dist2(p1, p2, q, s, dd);
    lemma_lagrange(d.0, d.1, w.0, w.1, s, dd);
    assert(s * dd - dd * s == 0) by (nonlinear_arith);
    assert(dd * dd * (c * c) == (dd * c) * (dd * c)) by (nonlinear_arith);
}

/// `dist2_sp` is the smallest squared distance from `q` to a point of the
/// closed segment from `p1` to `p2`: every rational point
/// `p1 + (num / den) (p2 - p1)` with `0 <= num <= den` is at least that far,
/// and one of them is exactly that far.
pub proof fn lemma_dist2_sp_is_min(p1: (int, int), p2: (int, int), q: (int, int))
    ensures
        dist2_sp_spec(p1, p2, q).1 > 0,
        forall|num: int, den: int|
            0 < den && 0 <= num <= den ==> den * den * dist2_sp_spec(p1, p2, q).0 <= dist2_sp_spec(
                p1,
                p2,
                q,
            ).1 * #[trigger] scaled_dist2(p1, p2, q, num, den),
        exists|num: int, den: int|
            0 < den && 0 <= num <= den && den * den * dist2_sp_spec(p1, p2, q).0 == dist2_sp_spec(
                p1,
                p2,
                q,
            ).1 * #[trigger] scaled_dist2(p1, p2, q, num, den),
{
    let d = vsub(p2, p1);
    let w = vsub(q, p1);
    let dd = vdot(d, d);
    let s = vdot(d, w);
    let ww = vdot(w, w);
    let r = dist2_sp_spec(p1, p2, q);
    assert(dd >= 0 && ww >= 0) by (nonlinear_arith)
        requires
            dd == d.0 * d.0 + d.1 * d.1,
            ww == w.0 * w.0 + w.1 * w.1,
    ;
    // scaled_dist2 == num^2 dd - 2 num den s + den^2 ww.
    assert forall|num: int, den: int| true implies #[trigger] scaled_dist2(p1, p2, q, num, den) == (num
        * num) * dd - 2 * ((num * den) * s) + (den * den) * ww by {
        lemma_scaled_dist2(p1, p2, q, num, den);
        lemma_expand_sq(num, den, d.0, w.0);
        lemma_expand_sq(num, den, d.1, w.1);
        lemma_mul_sum_scalar(num * num, d.0 * d.0, d.1 * d.1);
        lemma_mul_sum_scalar(num * den, d.0 * w.0, d.1 * w.1);
        lemma_mul_sum_scalar(den * den, w.0 * w.0, w.1 * w.1);
    }
    if s <= 0 {
        assert(r == (ww, 1int));
        assert forall|num: int, den: int| 0 < den && 0 <= num <= den implies den * den * r.0 <= r.1
            * #[trigger] scaled_dist2(p1, p2, q, num, den) by {
            assert(num * num >= 0 && num * den >= 0) by (nonlinear_arith)
                requires
                    0 <= num,
                    0 < den,
            ;
            lemma_start_case(num * num, num * den, dd, s);
            let sc = scaled_dist2(p1, p2, q, num, den);
            assert(sc == (num * num) * dd - 2 * ((num * den) * s) + (den * den) * ww);
            assert(r.0 == ww && r.1 == 1);
            assert(den * den * r.0 == (den * den) * ww);
            assert(r.1 * sc == sc);
            assert((den * den) * ww <= sc);
        }
        assert(scaled_dist2(p1, p2, q, 0, 1) == (0int * 0int) * dd - 2 * ((0int * 1int) * s) + (1int
            * 1int) * ww);
        assert(scaled_dist2(p1, p2, q, 0, 1) == ww);
    } else if vdot(vsub(p1, p2), vsub(q, p2)) <= 0 {
        let s2 = vdot(vsub(p1, p2), vsub(q, p2));
        assert(s2 == dd - s) by (nonlinear_arith)
            requires
                s2 == (p1.0 - p2.0) * (q.0 - p2.0) + (p1.1 - p2.1) * (q.1 - p2.1),
                dd == d.0 * d.0 + d.1 * d.1,
                s == d.0 * w.0 + d.1 * w.1,
                d == (p2.0 - p1.0, p2.1 - p1.1),
                w == (q.0 - p1.0, q.1 - p1.1),
        ;
        let w2 = vdot(vsub(q, p2), vsub(q, p2));
        assert(w2 == dd - 2 * s + ww) by (nonlinear_arith)
            requires
                w2 == (q.0 - p2.0) * (q.0 - p2.0) + (q.1 - p2.1) * (q.1 - p2.1),
                dd == d.0 * d.0 + d.1 * d.1,
                s == d.0 * w.0 + d.1 * w.1,
                ww == w.0 * w.0 + w.1 * w.1,
                d == (p2.0 - p1.0, p2.1 - p1.1),
                w == (q.0 - p1.0, q.1 - p1.1),
        ;
        assert(r == (w2, 1int));
        assert forall|num: int, den: int| 0 < den && 0 <= num <= den implies den * den * r.0 <= r.1
            * #[trigger] scaled_dist2(p1, p2, q, num, den) by {
            lemma_end_case(num, den, dd, s, ww);
        }
        assert(scaled_dist2(p1, p2, q, 1, 1) == (1int * 1int) * dd - 2 * ((1int * 1int) * s) + (1int
            * 1int) * ww);
        assert(scaled_dist2(p1, p2, q, 1, 1) == w2);
    } else {
        assert(p1 != p2) by {
            if p1 == p2 {
                assert(s == 0) by (nonlinear_arith)
                    requires
                        d == (p2.0 - p1.0, p2.1 - p1.1),
                        p1 == p2,
                        s == d.0 * w.0 + d.1 * w.1,
                ;
            }
        }
        lemma_dist2_lp_is_min(p1, p2, q);
        assert(r == dist2_lp_spec(p1, p2, q));
        let s2 = vdot(vsub(p1, p2), vsub(q, p2));
        assert(s2 == dd - s) by (nonlinear_arith)
            requires
                s2 == (p1.0 - p2.0) * (q.0 - p2.0) + (p1.1 - p2.1) * (q.1 - p2.1),
                dd == d.0 * d.0 + d.1 * d.1,
                s == d.0 * w.0 + d.1 * w.1,
                d == (p2.0 - p1.0, p2.1 - p1.1),
                w == (q.0 - p1.0, q.1 - p1.1),
        ;
        assert(0 < s < dd);
        assert(dd * dd * r.0 == r.1 * scaled_dist2(p1, p2, q, s, dd));
    }
}

} // verus!
