use vstd::prelude::*;
use crate::geom::{
    all_in_range, fits, in_range, lemma_diff_products_fit, v, vdet, vdot, vsub, Point, P, R,
};
use crate::segment::{
    all_in_seg_range, crs_sp_spec, crs_ss_spec, in_seg_range, lemma_range_diffs4, lemma_seg_diffs4,
    lemma_seg_range, pi_ll_spec, rp, rpt_is, proper_cross, lemma_proper_cross, segments_meet,
    lemma_crs_ss_meet,
};

verus! {

// ---------------------------------------------------------------------------
// Mathematical model
// ---------------------------------------------------------------------------

/// Index of the vertex after `i` on the closed polygon.
pub open spec fn nxt(ps: Seq<Point>, i: int) -> int {
    (i + 1) % (ps.len() as int)
}

/// Index of the vertex before `i` on the closed polygon.
pub open spec fn prv(ps: Seq<Point>, i: int) -> int {
    if i == 0 {
        ps.len() - 1
    } else {
        i - 1
    }
}

/// The `i`-th side of the polygon, seen from `q`.
pub open spec fn rel_edge(ps: Seq<Point>, q: Point, i: int) -> ((int, int), (int, int)) {
    (vsub(v(ps[i]), v(q)), vsub(v(ps[nxt(ps, i)]), v(q)))
}

/// The end points of a side ordered by their y coordinate.
pub open spec fn low_high(e: ((int, int), (int, int))) -> ((int, int), (int, int)) {
    if e.0.1 > e.1.1 {
        (e.1, e.0)
    } else {
        e
    }
}

/// The side (relative to `q`) crosses the ray from `q` toward `+x`, counted
/// with the half-open rule on y.
pub open spec fn crosses_ray(e: ((int, int), (int, int))) -> bool {
    let (a, b) = low_high(e);
    a.1 <= 0 && b.1 > 0 && vdet(a, b) > 0
}

/// `q` lies on the side (given relative to `q`).
pub open spec fn touches(e: ((int, int), (int, int))) -> bool {
    vdet(e.0, e.1) == 0 && vdot(e.0, e.1) <= 0
}

/// Number of the first `k` sides that cross the ray from `q`.
pub open spec fn crossings(ps: Seq<Point>, q: Point, k: int) -> nat
    decreases k,
{
    if k <= 0 {
        0
    } else {
        crossings(ps, q, k - 1) + if crosses_ray(rel_edge(ps, q, k - 1)) {
            1nat
        } else {
            0nat
        }
    }
}

/// `q` lies on one of the first `k` sides.
pub open spec fn touches_before(ps: Seq<Point>, q: Point, k: int) -> bool {
    exists|i: int| 0 <= i < k && #[trigger] touches(rel_edge(ps, q, i))
}

/// `q` lies on the boundary of the polygon: on the closed segment of one of
/// its sides.
pub open spec fn on_boundary(ps: Seq<Point>, q: Point) -> bool {
    exists|i: int| 0 <= i < ps.len() && #[trigger] crs_sp_spec(v(ps[i]), v(ps[nxt(ps, i)]), v(q))
}

/// Inside/outside test of a point against a polygon: 0 on the boundary;
/// otherwise 1 when the ray from `q` crosses the boundary an odd number of
/// times (inside), -1 when even (outside).
pub open spec fn contains_p_spec(ps: Seq<Point>, q: Point) -> int {
    if touches_before(ps, q, ps.len() as int) {
        0
    } else if crossings(ps, q, ps.len() as int) % 2 == 1 {
        1
    } else {
        -1
    }
}

/// Where the segment `q1 q2` meets the line of the side `a b`: the
/// intersection of the lines, or `a` itself when the lines are parallel and
/// `a` lies between `q1` and `q2`.
pub open spec fn cut_point(q1: (int, int), q2: (int, int), a: (int, int), b: (int, int)) -> Option<
    (int, int, int),
> {
    match pi_ll_spec(q1, q2, a, b) {
        Some(r) => Some(r),
        None => if vdot(vsub(q1, a), vsub(q2, a)) <= 0 {
            Some((a.0, a.1, 1))
        } else {
            None
        },
    }
}

/// The segment from vertex `a` toward `q2` leaves the polygon through the
/// corner at `a`, whose sides go to `b` (next vertex) and `c` (previous).
pub open spec fn corner_blocks(a: (int, int), b: (int, int), c: (int, int), q2: (int, int)) -> bool {
    let p = vsub(b, a);
    let q = vsub(q2, a);
    let r = vsub(c, a);
    let pr = vdet(p, r);
    let pq = vdet(p, q);
    let qr = vdet(q, r);
    (pr == 0 && vdot(p, r) < 0 && pq > 0) || (pr > 0 && pq > 0 && qr > 0) || (pr < 0 && (pq > 0
        || qr > 0))
}

/// The `i`-th side shows that the segment `q1 q2` leaves the polygon.
pub open spec fn edge_blocks(ps: Seq<Point>, q1: Point, q2: Point, i: int) -> bool {
    let a = v(ps[i]);
    let b = v(ps[nxt(ps, i)]);
    let c = v(ps[prv(ps, i)]);
    crs_ss_spec(v(q1), v(q2), a, b) && match cut_point(v(q1), v(q2), a, b) {
        None => false,
        Some(r) => !rpt_is(r, v(q2)) && !rpt_is(r, b) && if rpt_is(r, a) {
            corner_blocks(a, b, c, v(q2))
        } else if rpt_is(r, v(q1)) {
            vdet(vsub(b, a), vsub(v(q2), a)) > 0
        } else {
            true
        },
    }
}

/// The closed polygon `ps` (clockwise) contains the segment `q1 q2`: both
/// end points are inside or on the boundary, and no side shows the segment
/// leaving it.
pub open spec fn contains_s_spec(ps: Seq<Point>, q1: Point, q2: Point) -> bool {
    contains_p_spec(ps, q1) >= 0 && contains_p_spec(ps, q2) >= 0 && forall|i: int|
        0 <= i < ps.len() ==> !#[trigger] edge_blocks(ps, q1, q2, i)
}

// ---------------------------------------------------------------------------
// Lemmas
// ---------------------------------------------------------------------------

/// Seen from `q`, touching a side is lying on its closed segment.
pub proof fn lemma_touches_is_on_segment(a: (int, int), b: (int, int), q: (int, int))
    ensures
        touches((vsub(a, q), vsub(b, q))) == crs_sp_spec(a, b, q),
{
    assert(vdet(vsub(a, q), vsub(b, q)) == vdet(vsub(b, a), vsub(q, a))) by (nonlinear_arith);
    assert(vdot(vsub(a, q), vsub(b, q)) == vdot(vsub(q, a), vsub(q, b))) by (nonlinear_arith);
}

/// The value of the inside/outside test is 0 exactly on the boundary.
pub proof fn lemma_contains_p_zero_on_boundary(ps: Seq<Point>, q: Point)
    ensures
        (contains_p_spec(ps, q) == 0) == on_boundary(ps, q),
        contains_p_spec(ps, q) == -1 || contains_p_spec(ps, q) == 0 || contains_p_spec(ps, q) == 1,
{
    let n = ps.len() as int;
    if touches_before(ps, q, n) {
        let i = choose|i: int| 0 <= i < n && #[trigger] touches(rel_edge(ps, q, i));
        lemma_touches_is_on_segment(v(ps[i]), v(ps[nxt(ps, i)]), v(q));
    }
    if on_boundary(ps, q) {
        let i = choose|i: int|
            0 <= i < n && #[trigger] crs_sp_spec(v(ps[i]), v(ps[nxt(ps, i)]), v(q));
        lemma_touches_is_on_segment(v(ps[i]), v(ps[nxt(ps, i)]), v(q));
        assert(touches(rel_edge(ps, q, i)));
    }
}

/// `q` lies strictly outside the bounding box of the polygon's vertices.
pub open spec fn outside_bbox(ps: Seq<Point>, q: Point) -> bool {
    ||| forall|i: int| 0 <= i < ps.len() ==> (#[trigger] ps[i]).0 < q.0
    ||| forall|i: int| 0 <= i < ps.len() ==> (#[trigger] ps[i]).0 > q.0
    ||| forall|i: int| 0 <= i < ps.len() ==> (#[trigger] ps[i]).1 < q.1
    ||| forall|i: int| 0 <= i < ps.len() ==> (#[trigger] ps[i]).1 > q.1
}

/// A point cannot lie on a segment whose end points are strictly on one
/// side of it (in x or in y).
proof fn lemma_no_touch_same_side(a: (int, int), b: (int, int))
    requires
        (a.0 < 0 && b.0 < 0) || (a.0 > 0 && b.0 > 0) || (a.1 < 0 && b.1 < 0) || (a.1 > 0 && b.1
            > 0),
    ensures
        !touches((a, b)),
{
    if vdet(a, b) == 0 {
        let d = vdot(a, b);
        assert(a.0 * d == b.0 * (a.0 * a.0 + a.1 * a.1)) by (nonlinear_arith)
            requires
                a.0 * b.1 - a.1 * b.0 == 0,
                d == a.0 * b.0 + a.1 * b.1,
        ;
        assert(a.1 * d == b.1 * (a.0 * a.0 + a.1 * a.1)) by (nonlinear_arith)
            requires
                a.0 * b.1 - a.1 * b.0 == 0,
                d == a.0 * b.0 + a.1 * b.1,
        ;
        if a.0 != 0 {
            assert(a.0 * a.0 > 0) by (nonlinear_arith)
                requires
                    a.0 != 0,
            ;
        }
        if a.1 != 0 {
            assert(a.1 * a.1 > 0) by (nonlinear_arith)
                requires
                    a.1 != 0,
            ;
        }
        crate::geom::lemma_square_nonneg(a.0);
        crate::geom::lemma_square_nonneg(a.1);
        assert(d > 0) by (nonlinear_arith)
            requires
                a.0 * d == b.0 * (a.0 * a.0 + a.1 * a.1),
                a.1 * d == b.1 * (a.0 * a.0 + a.1 * a.1),
                (a.0 < 0 && b.0 < 0) || (a.0 > 0 && b.0 > 0) || (a.1 < 0 && b.1 < 0) || (a.1 > 0
                    && b.1 > 0),
                a.0 * a.0 >= 0,
                a.1 * a.1 >= 0,
                a.0 != 0 ==> a.0 * a.0 > 0,
                a.1 != 0 ==> a.1 * a.1 > 0,
        ;
    }
}

/// With every vertex strictly to the right of `q`, a side crosses the ray
/// from `q` exactly when one of its end points is above `q` and the other not.
proof fn lemma_cross_right(a: (int, int), b: (int, int))
    requires
        a.0 > 0,
        b.0 > 0,
    ensures
        crosses_ray((a, b)) == ((a.1 > 0) != (b.1 > 0)),
{
    assert(vdet(a, b) > 0 <== a.1 <= 0 && b.1 > 0) by (nonlinear_arith)
        requires
            a.0 > 0,
            b.0 > 0,
    ;
    assert(vdet(b, a) > 0 <== b.1 <= 0 && a.1 > 0) by (nonlinear_arith)
        requires
            a.0 > 0,
            b.0 > 0,
    ;
}

/// With every vertex strictly to the left of `q`, no side crosses the ray.
proof fn lemma_cross_left(a: (int, int), b: (int, int))
    requires
        a.0 < 0,
        b.0 < 0,
    ensures
        !crosses_ray((a, b)),
{
    assert(a.1 <= 0 && b.1 > 0 ==> vdet(a, b) < 0) by (nonlinear_arith)
        requires
            a.0 < 0,
            b.0 < 0,
    ;
    assert(b.1 <= 0 && a.1 > 0 ==> vdet(b, a) < 0) by (nonlinear_arith)
        requires
            a.0 < 0,
            b.0 < 0,
    ;
}

/// Counting the sides that cross the ray from a point left of every vertex:
/// over the first `k` sides (an open chain) the count is odd exactly when
/// the chain starts and ends on different sides of the horizontal line.
proof fn lemma_crossings_parity(ps: Seq<Point>, q: Point, k: int)
    requires
        0 <= k < ps.len(),
        forall|i: int| 0 <= i < ps.len() ==> (#[trigger] ps[i]).0 > q.0,
    ensures
        crossings(ps, q, k) % 2 == if (ps[0].1 > q.1) == (ps[k].1 > q.1) {
            0nat
        } else {
            1nat
        },
    decreases k,
{
    if k > 0 {
        lemma_crossings_parity(ps, q, k - 1);
        vstd::arithmetic::div_mod::lemma_small_mod(k as nat, ps.len());
        assert(nxt(ps, k - 1) == k);
        let e = rel_edge(ps, q, k - 1);
        assert(ps[k - 1].0 > q.0);
        assert(ps[k].0 > q.0);
        lemma_cross_right(e.0, e.1);
    }
}

/// What `contains_s` rules out: when it holds, both ends lie in the closed
/// polygon and the segment crosses no side properly (at a point inside both
/// the segment and the side).
pub proof fn lemma_contained_segment_crosses_no_side(ps: Seq<Point>, q1: Point, q2: Point)
    requires
        contains_s_spec(ps, q1, q2),
    ensures
        contains_p_spec(ps, q1) >= 0,
        contains_p_spec(ps, q2) >= 0,
        forall|i: int|
            0 <= i < ps.len() ==> !#[trigger] proper_cross(v(q1), v(q2), v(ps[i]), v(ps[nxt(ps, i)])),
{
    assert forall|i: int| 0 <= i < ps.len() implies !#[trigger] proper_cross(
        v(q1),
        v(q2),
        v(ps[i]),
        v(ps[nxt(ps, i)]),
    ) by {
        if proper_cross(v(q1), v(q2), v(ps[i]), v(ps[nxt(ps, i)])) {
            lemma_proper_cross(v(q1), v(q2), v(ps[i]), v(ps[nxt(ps, i)]));
            assert(edge_blocks(ps, q1, q2, i));
        }
    }
}

/// When both ends lie in the closed polygon and the segment meets no side,
/// `contains_s` holds.
pub proof fn lemma_untouched_segment_contained(ps: Seq<Point>, q1: Point, q2: Point)
    requires
        contains_p_spec(ps, q1) >= 0,
        contains_p_spec(ps, q2) >= 0,
        forall|i: int|
            0 <= i < ps.len() ==> !#[trigger] segments_meet(v(q1), v(q2), v(ps[i]), v(ps[nxt(ps, i)])),
    ensures
        contains_s_spec(ps, q1, q2),
{
    assert forall|i: int| 0 <= i < ps.len() implies !#[trigger] edge_blocks(ps, q1, q2, i) by {
        lemma_crs_ss_meet(v(q1), v(q2), v(ps[i]), v(ps[nxt(ps, i)]));
    }
}

// ---------------------------------------------------------------------------
// Invariance under the choice of the first vertex and of the orientation
// ---------------------------------------------------------------------------

/// The polygon listed from its `k`-th vertex on.
pub open spec fn rotated(ps: Seq<Point>, k: int) -> Seq<Point> {
    ps.subrange(k, ps.len() as int) + ps.subrange(0, k)
}

proof fn lemma_mod_once(x: int, n: int)
    requires
        n > 0,
        0 <= x < 2 * n,
    ensures
        x % n == if x < n {
            x
        } else {
            x - n
        },
{
    if x < n {
        vstd::arithmetic::div_mod::lemma_fundamental_div_mod_converse(x, n, 0, x);
    } else {
        vstd::arithmetic::div_mod::lemma_fundamental_div_mod_converse(x, n, 1, x - n);
    }
}

/// Side `i` of the rotated polygon is side `(i + k) % n` of the polygon.
proof fn lemma_rotated_edge(ps: Seq<Point>, q: Point, k: int, i: int)
    requires
        0 <= k < ps.len(),
        0 <= i < ps.len(),
    ensures
        rel_edge(rotated(ps, k), q, i) == rel_edge(ps, q, (i + k) % (ps.len() as int)),
{
    let n = ps.len() as int;
    let r = rotated(ps, k);
    assert(r.len() == n);
    lemma_mod_once(i + k, n);
    lemma_mod_once(i + 1, n);
    lemma_mod_once((i + k) % n + 1, n);
    let j = (i + 1) % n;
    lemma_mod_once(j + k, n);
    assert(r[i] == ps[(i + k) % n]);
    assert(r[j] == ps[(j + k) % n]);
    assert((j + k) % n == ((i + k) % n + 1) % n);
}

/// Crossings of the first `j` sides of the rotated polygon.
proof fn lemma_rotated_crossings(ps: Seq<Point>, q: Point, k: int, j: int)
    requires
        0 <= k < ps.len(),
        0 <= j <= ps.len(),
    ensures
        j <= ps.len() - k ==> crossings(rotated(ps, k), q, j) == crossings(ps, q, k + j) - crossings(
            ps,
            q,
            k,
        ),
        j > ps.len() - k ==> crossings(rotated(ps, k), q, j) == crossings(ps, q, ps.len() as int)
            - crossings(ps, q, k) + crossings(ps, q, j - (ps.len() - k)),
    decreases j,
{
    let n = ps.len() as int;
    if j > 0 {
        lemma_rotated_crossings(ps, q, k, j - 1);
        lemma_rotated_edge(ps, q, k, j - 1);
        lemma_mod_once(j - 1 + k, n);
        assert(crossings(ps, q, 0) == 0);
        if j > n - k {
            let t = j - (n - k);
            assert(crossings(ps, q, t) == crossings(ps, q, t - 1) + if crosses_ray(
                rel_edge(ps, q, t - 1),
            ) {
                1nat
            } else {
                0nat
            });
        }
    }
}

/// Where a point lies against a polygon does not depend on which vertex the
/// polygon is listed from.
pub proof fn lemma_contains_p_rotation(ps: Seq<Point>, q: Point, k: int)
    requires
        0 <= k < ps.len(),
    ensures
        contains_p_spec(rotated(ps, k), q) == contains_p_spec(ps, q),
{
    let n = ps.len() as int;
    let r = rotated(ps, k);
    lemma_rotated_crossings(ps, q, k, n);
    if touches_before(ps, q, n) {
        let i = choose|i: int| 0 <= i < n && #[trigger] touches(rel_edge(ps, q, i));
        let j = if i >= k {
            i - k
        } else {
            i + n - k
        };
        lemma_rotated_edge(ps, q, k, j);
        lemma_mod_once(j + k, n);
        assert(touches(rel_edge(r, q, j)));
    }
    if touches_before(r, q, n) {
        let j = choose|j: int| 0 <= j < n && #[trigger] touches(rel_edge(r, q, j));
        lemma_rotated_edge(ps, q, k, j);
        lemma_mod_once(j + k, n);
        assert(touches(rel_edge(ps, q, (j + k) % n)));
    }
}

/// Side `i` of the reversed polygon is side `n - 2 - i` of the polygon
/// (side `n - 1` for the last), walked the other way.
proof fn lemma_reversed_edge(ps: Seq<Point>, q: Point, i: int)
    requires
        0 <= i < ps.len(),
    ensures
        ({
            let e = rel_edge(ps, q, if i < ps.len() - 1 {
                ps.len() - 2 - i
            } else {
                ps.len() - 1
            });
            rel_edge(ps.reverse(), q, i) == (e.1, e.0)
        }),
{
    let n = ps.len() as int;
    lemma_mod_once(i + 1, n);
    lemma_mod_once(n - 2 - i + 1, n);
    lemma_mod_once(n - 1 + 1, n);
}

/// Crossing the ray and touching `q` do not depend on the side's direction.
proof fn lemma_side_reversed(e: ((int, int), (int, int)))
    ensures
        crosses_ray((e.1, e.0)) == crosses_ray(e),
        touches((e.1, e.0)) == touches(e),
{
    assert(vdet(e.1, e.0) == -vdet(e.0, e.1)) by (nonlinear_arith);
    assert(vdot(e.1, e.0) == vdot(e.0, e.1)) by (nonlinear_arith);
}

/// Crossings of the first `j` sides of the reversed polygon.
proof fn lemma_reversed_crossings(ps: Seq<Point>, q: Point, j: int)
    requires
        0 <= j <= ps.len(),
        ps.len() > 0,
    ensures
        j < ps.len() ==> crossings(ps.reverse(), q, j) == crossings(ps, q, ps.len() - 1) - crossings(
            ps,
            q,
            ps.len() - 1 - j,
        ),
        j == ps.len() ==> crossings(ps.reverse(), q, j) == crossings(ps, q, ps.len() as int),
    decreases j,
{
    let n = ps.len() as int;
    if j > 0 {
        lemma_reversed_crossings(ps, q, j - 1);
        lemma_reversed_edge(ps, q, j - 1);
        let e = rel_edge(ps, q, if j - 1 < n - 1 {
            n - 2 - (j - 1)
        } else {
            n - 1
        });
        lemma_side_reversed(e);
    }
}

/// Where a point lies against a polygon does not depend on the polygon's
/// orientation.
pub proof fn lemma_contains_p_reversal(ps: Seq<Point>, q: Point)
    ensures
        contains_p_spec(ps.reverse(), q) == contains_p_spec(ps, q),
{
    let n = ps.len() as int;
    let r = ps.reverse();
    if n > 0 {
        lemma_reversed_crossings(ps, q, n);
        if touches_before(ps, q, n) {
            let i = choose|i: int| 0 <= i < n && #[trigger] touches(rel_edge(ps, q, i));
            let j = if i == n - 1 {
                n - 1
            } else {
                n - 2 - i
            };
            lemma_reversed_edge(ps, q, j);
            lemma_side_reversed(rel_edge(ps, q, i));
            assert(touches(rel_edge(r, q, j)));
        }
        if touches_before(r, q, n) {
            let j = choose|j: int| 0 <= j < n && #[trigger] touches(rel_edge(r, q, j));
            lemma_reversed_edge(ps, q, j);
            let i = if j < n - 1 {
                n - 2 - j
            } else {
                n - 1
            };
            lemma_side_reversed(rel_edge(ps, q, i));
            assert(touches(rel_edge(ps, q, i)));
        }
    } else {
        assert(r.len() == 0);
    }
}

/// A point strictly outside the bounding box of the polygon's vertices is
/// outside the polygon.
pub proof fn lemma_outside_bbox(ps: Seq<Point>, q: Point)
    requires
        outside_bbox(ps, q),
    ensures
        contains_p_spec(ps, q) == -1,
{
    let n = ps.len() as int;
    assert forall|i: int| 0 <= i < n implies !#[trigger] touches(rel_edge(ps, q, i)) by {
        let j = nxt(ps, i);
        assert(0 <= j < n) by {
            vstd::arithmetic::div_mod::lemma_mod_bound(i + 1, n);
        }
        assert(ps[i] == ps[i]);
        assert(ps[j] == ps[j]);
        lemma_no_touch_same_side(rel_edge(ps, q, i).0, rel_edge(ps, q, i).1);
    }
    assert(!touches_before(ps, q, n));
    if n > 0 {
        if forall|i: int| 0 <= i < n ==> (#[trigger] ps[i]).0 > q.0 {
            lemma_crossings_parity(ps, q, n - 1);
            vstd::arithmetic::div_mod::lemma_mod_self_0(n);
            assert(nxt(ps, n - 1) == 0);
            let e = rel_edge(ps, q, n - 1);
            assert(ps[n - 1].0 > q.0);
            assert(ps[0].0 > q.0);
            lemma_cross_right(e.0, e.1);
            assert(crossings(ps, q, n) % 2 == 0);
        } else {
            lemma_no_crossings(ps, q, n);
        }
    }
}

/// When every vertex is strictly left of, above or below `q`, no side
/// crosses the ray from `q`.
proof fn lemma_no_crossings(ps: Seq<Point>, q: Point, k: int)
    requires
        0 <= k <= ps.len(),
        ps.len() > 0,
        (forall|i: int| 0 <= i < ps.len() ==> (#[trigger] ps[i]).0 < q.0) || (forall|i: int|
            0 <= i < ps.len() ==> (#[trigger] ps[i]).1 < q.1) || (forall|i: int|
            0 <= i < ps.len() ==> (#[trigger] ps[i]).1 > q.1),
    ensures
        crossings(ps, q, k) == 0,
    decreases k,
{
    if k > 0 {
        lemma_no_crossings(ps, q, k - 1);
        let i = k - 1;
        let j = nxt(ps, i);
        assert(0 <= j < ps.len()) by {
            vstd::arithmetic::div_mod::lemma_mod_bound(i + 1, ps.len() as int);
        }
        assert(ps[i] == ps[i]);
        assert(ps[j] == ps[j]);
        let e = rel_edge(ps, q, i);
        if e.0.0 < 0 && e.1.0 < 0 {
            lemma_cross_left(e.0, e.1);
        }
    }
}

/// A segment reduced to one point is contained in the polygon exactly when
/// that point is inside it or on its boundary.
pub proof fn lemma_point_segment(ps: Seq<Point>, q: Point)
    ensures
        contains_s_spec(ps, q, q) == (contains_p_spec(ps, q) >= 0),
{
    assert forall|i: int| 0 <= i < ps.len() implies !#[trigger] edge_blocks(ps, q, q, i) by {
        let a = v(ps[i]);
        let b = v(ps[nxt(ps, i)]);
        assert(vdet(vsub(b, a), vsub(v(q), v(q))) == 0) by (nonlinear_arith);
        let d = vsub(v(q), a);
        if vdot(d, d) <= 0 {
            assert(d.0 == 0 && d.1 == 0) by (nonlinear_arith)
                requires
                    d.0 * d.0 + d.1 * d.1 <= 0,
            ;
        }
    }
}

// ---------------------------------------------------------------------------
// Executable tests
// ---------------------------------------------------------------------------

/// Whether the rational point `r` (with a non-zero denominator) is the
/// integer point `p`, each coordinate compared as fractions are.
fn frac_point_is(r: P<R<i64>>, p: Point) -> (b: bool)
    requires
        r.0.1 == r.1.1,
        r.0.1 != 0,
        -2199023255552 <= r.0.1 <= 2199023255552,
        in_range(p),
    ensures
        b == rpt_is(rp(r), v(p)),
{
    proof {
        crate::geom::lemma_mul_abs_le(r.0.1 as int, p.0 as int, 2199023255552, 524288);
        crate::geom::lemma_mul_abs_le(r.1.1 as int, p.1 as int, 2199023255552, 524288);
    }
    let x: R<i64> = R::from(p.0);
    let y: R<i64> = R::from(p.1);
    r.0.same_value(&x) && r.1.same_value(&y)
}

impl P<i64> {
    /// Inside/outside test of the point `q` against the polygon `ps`:
    /// 1 inside, 0 on the boundary, -1 outside.
    pub fn contains_p(ps: &Vec<P<i64>>, q: P<i64>) -> (r: i32)
        requires
            all_in_seg_range(ps@),
            in_seg_range(q),
        ensures
            r == contains_p_spec(ps@, q),
            r == -1 || r == 0 || r == 1,
            (r == 0) == on_boundary(ps@, q),
    {
        proof {
            lemma_contains_p_zero_on_boundary(ps@, q);
        }
        let n = ps.len();
        let mut ret: i32 = -1;
        for i in 0..n
            invariant
                n == ps.len(),
                all_in_seg_range(ps@),
                in_seg_range(q),
                ret == (if crossings(ps@, q, i as int) % 2 == 1 {
                    1int
                } else {
                    -1int
                }),
                !touches_before(ps@, q, i as int),
        {
            let ghost e = rel_edge(ps@, q, i as int);
            let j = (i + 1) % n;
            assert(in_seg_range(ps@[i as int]));
            assert(in_seg_range(ps@[j as int]));
            proof {
                lemma_seg_diffs4(ps@[i as int], q, ps@[j as int], q);
                lemma_seg_diffs4(ps@[j as int], q, ps@[i as int], q);
            }
            let mut a = ps[i] - q;
            let mut b = ps[j] - q;
            if a.1 > b.1 {
                std::mem::swap(&mut a, &mut b);
            }
            assert((v(a), v(b)) == low_high(e));
            let dt = a.det(b);
            if a.1 <= 0 && b.1 > 0 && dt > 0 {
                ret = -ret;
            }
            proof {
                assert(vdet(v(a), v(b)) == 0 <==> vdet(e.0, e.1) == 0) by (nonlinear_arith)
                    requires
                        (v(a), v(b)) == e || (v(b), v(a)) == e,
                ;
                assert(vdot(v(a), v(b)) == vdot(e.0, e.1)) by (nonlinear_arith)
                    requires
                        (v(a), v(b)) == e || (v(b), v(a)) == e,
                ;
            }
            if dt == 0 && a.dot(b) <= 0 {
                assert(touches(rel_edge(ps@, q, i as int)));
                proof {
                    lemma_contains_p_zero_on_boundary(ps@, q);
                }
                return 0;
            }
            assert(!touches(rel_edge(ps@, q, i as int)));
            assert(crossings(ps@, q, i + 1) == crossings(ps@, q, i as int) + if crosses_ray(e) {
                1nat
            } else {
                0nat
            });
        }
        ret
    }

    /// Whether the closed polygon `ps` (clockwise) contains the whole segment `s`.
    pub fn contains_s(ps: &Vec<P<i64>>, s: (P<i64>, P<i64>)) -> (b: bool)
        requires
            all_in_range(ps@),
            in_range(s.0),
            in_range(s.1),
        ensures
            b == contains_s_spec(ps@, s.0, s.1),
    {
        let (q1, q2) = s;
        proof {
            lemma_seg_range(ps@);
        }
        if P::contains_p(ps, q1) < 0 || P::contains_p(ps, q2) < 0 {
            return false;
        }
        let n = ps.len();
        for i in 0..n
            invariant
                n == ps.len(),
                all_in_range(ps@),
                in_range(q1),
                in_range(q2),
                contains_p_spec(ps@, q1) >= 0,
                contains_p_spec(ps@, q2) >= 0,
                q1 == s.0,
                q2 == s.1,
                forall|j: int| 0 <= j < i ==> !#[trigger] edge_blocks(ps@, q1, q2, j),
        {
            if side_blocks(ps, q1, q2, i) {
                assert(!contains_s_spec(ps@, q1, q2));
                return false;
            }
        }
        true
    }
}

/// Whether the `i`-th side of the polygon shows the segment `q1 q2` leaving it.
fn side_blocks(ps: &Vec<P<i64>>, q1: Point, q2: Point, i: usize) -> (blocks: bool)
    requires
        all_in_range(ps@),
        in_range(q1),
        in_range(q2),
        i < ps.len(),
    ensures
        blocks == edge_blocks(ps@, q1, q2, i as int),
{
    let n = ps.len();
    let j = (i + 1) % n;
    let k = if i == 0 {
        n - 1
    } else {
        i - 1
    };
    let a = ps[i];
    let b = ps[j];
    let c = ps[k];
    assert(in_range(a));
    assert(in_range(b));
    assert(in_range(c));
    if !P::crs_ss((q1, q2), (a, b)) {
        return false;
    }
    proof {
        lemma_range_diffs4(b, a, q2, q1);
        lemma_range_diffs4(q1, a, q2, a);
        lemma_det_swap_bound(v(q2), v(q1), v(b), v(a));
    }
    let mut r = P::pi_ll((q1, q2), (a, b));
    if r.is_none() && (q1 - a).dot(q2 - a) <= 0 {
        r = Some(P::<R<i64>>::from(a));
    }
    assert(r is None <==> cut_point(v(q1), v(q2), v(a), v(b)) is None);
    match r {
        None => false,
        Some(r) => {
            assert(Some(rp(r)) == cut_point(v(q1), v(q2), v(a), v(b)));
            if frac_point_is(r, q2) || frac_point_is(r, b) {
                false
            } else if frac_point_is(r, a) {
                proof {
                    lemma_range_diffs4(b, a, c, a);
                    lemma_range_diffs4(b, a, q2, a);
                    lemma_range_diffs4(q2, a, c, a);
                }
                let p = b - a;
                let q = q2 - a;
                let rr = c - a;
                let pr = p.det(rr);
                let pq = p.det(q);
                let qr = q.det(rr);
                (pr == 0 && p.dot(rr) < 0 && pq > 0) || (pr > 0 && pq > 0 && qr > 0) || (pr < 0
                    && (pq > 0 || qr > 0))
            } else if frac_point_is(r, q1) {
                proof {
                    lemma_range_diffs4(b, a, q2, a);
                }
                (b - a).det(q2 - a) > 0
            } else {
                true
            }
        },
    }
}

/// The denominator of a line intersection of points in range is bounded.
pub proof fn lemma_det_swap_bound(q2: (int, int), q1: (int, int), b: (int, int), a: (int, int))
    requires
        -2199023255552 <= vdet(vsub(b, a), vsub(q2, q1)) <= 2199023255552,
    ensures
        -2199023255552 <= vdet(vsub(q2, q1), vsub(b, a)) <= 2199023255552,
{
    assert(vdet(vsub(q2, q1), vsub(b, a)) == -vdet(vsub(b, a), vsub(q2, q1))) by (nonlinear_arith);
}

} // verus!
