use vstd::prelude::*;
use rand::Rng;
use std::cmp::Ordering;
use crate::geom::{all_in_range, fits, in_box, in_range, Point, COORD_LIMIT, P};
use crate::polygon::{contains_p_spec, contains_s_spec, lemma_outside_bbox, outside_bbox};
use crate::problem::{Input, Output, UseBonus};
use crate::score::{
    checkable, compute_score, dislikes, dislikes_upto, edge_len2, iabs, lemma_min_dist2_bounds,
    min_dist2, scorable, score_spec, stretch_within,
};
use crate::segment::lemma_range_diffs4;

verus! {

/// `rand::Rng::gen_range(0..n)` on `rand::thread_rng()`: a random index
/// below `n` (the range must not be empty, else `gen_range` panics). Which
/// index comes out is left to chance and is not stated.
#[verifier::external_body]
fn random_below(n: usize) -> (r: usize)
    requires
        n > 0,
    ensures
        r < n,
{
    rand::thread_rng().gen_range(0..n)
}

/// The four unit moves: right, up, left, down.
pub open spec fn dir_spec(k: int) -> Point {
    if k == 0 {
        P(1i64, 0i64)
    } else if k == 1 {
        P(0i64, 1i64)
    } else if k == 2 {
        P(-1i64, 0i64)
    } else {
        P(0i64, -1i64)
    }
}

/// The four moves are distinct steps of one unit along an axis, and the
/// third and fourth undo the first and second.
pub proof fn lemma_dir_units(k: int, j: int)
    requires
        0 <= k < 4,
        0 <= j < 4,
    ensures
        dir_spec(k).0 * dir_spec(k).0 + dir_spec(k).1 * dir_spec(k).1 == 1,
        k != j ==> dir_spec(k) != dir_spec(j),
        k < 2 ==> dir_spec(k + 2).0 == -dir_spec(k).0 && dir_spec(k + 2).1 == -dir_spec(k).1,
{
    let d = dir_spec(k);
    if k == 0 {
        assert(d.0 == 1 && d.1 == 0);
    } else if k == 1 {
        assert(d.0 == 0 && d.1 == 1);
    } else if k == 2 {
        assert(d.0 == -1 && d.1 == 0);
    } else {
        assert(d.0 == 0 && d.1 == -1);
    }
    assert(d.0 * d.0 + d.1 * d.1 == 1) by (nonlinear_arith)
        requires
            (d.0 == 0 && (d.1 == 1 || d.1 == -1)) || (d.1 == 0 && (d.0 == 1 || d.0 == -1)),
    ;
}

/// The four unit moves.
fn dir(k: usize) -> (d: Point)
    requires
        k < 4,
    ensures
        d == dir_spec(k as int),
        -1 <= d.0 <= 1,
        -1 <= d.1 <= 1,
{
    if k == 0 {
        P(1, 0)
    } else if k == 1 {
        P(0, 1)
    } else if k == 2 {
        P(-1, 0)
    } else {
        P(0, -1)
    }
}

pub open spec fn all_in_box(ps: Seq<Point>, m: int) -> bool {
    forall|i: int| 0 <= i < ps.len() ==> #[trigger] in_box(ps[i], m)
}

/// A copy of the points.
pub fn copy_points(ps: &Vec<Point>) -> (r: Vec<Point>)
    ensures
        r@ == ps@,
{
    let mut r: Vec<Point> = Vec::new();
    for i in 0..ps.len()
        invariant
            r@ == ps@.subrange(0, i as int),
    {
        r.push(ps[i]);
        assert(r@ =~= ps@.subrange(0, i + 1));
    }
    assert(ps@.subrange(0, ps@.len() as int) =~= ps@);
    r
}

/// Whether the squared length `d2` is within `epsilon` millionths of `base_d2`.
fn length_within(d2: i64, base_d2: i64, epsilon: i64) -> (b: bool)
    requires
        0 <= d2 <= 2199023255552,
        0 <= base_d2 <= 2199023255552,
        fits(epsilon * base_d2),
    ensures
        b == (iabs(d2 - base_d2) * 1000000 - epsilon * base_d2 <= 0),
{
    if epsilon < 0 {
        // Both terms are then non-negative: within only when both are zero.
        proof {
            assert(epsilon * base_d2 <= 0) by (nonlinear_arith)
                requires
                    epsilon < 0,
                    base_d2 >= 0,
            ;
            assert(epsilon * base_d2 == 0 <==> base_d2 == 0) by (nonlinear_arith)
                requires
                    epsilon < 0,
                    base_d2 >= 0,
            ;
        }
        return d2 == base_d2 && base_d2 == 0;
    }
    match stretch_within(d2, base_d2, epsilon) {
        Ordering::Equal => true,
        _ => false,
    }
}

/// The edges at vertex `a`, as `(other end, edge index)` pairs.
pub open spec fn adj_ok(edges: Seq<(usize, usize)>, n: int, a: int, row: Seq<(usize, usize)>) -> bool {
    forall|t: int|
        0 <= t < row.len() ==> (#[trigger] row[t]).1 < edges.len() && (row[t].0 as int) < n && (
        edges[row[t].1 as int] == (a as usize, row[t].0) || edges[row[t].1 as int] == (
            row[t].0,
            a as usize,
        ))
}

/// A point lies in or on the polygon only within its bounding box.
proof fn lemma_inside_in_box(ps: Seq<Point>, q: Point, m: int)
    requires
        all_in_box(ps, m),
        contains_p_spec(ps, q) >= 0,
    ensures
        in_box(q, m),
{
    if !in_box(q, m) {
        if q.0 > m {
            assert forall|i: int| 0 <= i < ps.len() implies (#[trigger] ps[i]).0 < q.0 by {
                assert(in_box(ps[i], m));
            }
        } else if q.0 < -m {
            assert forall|i: int| 0 <= i < ps.len() implies (#[trigger] ps[i]).0 > q.0 by {
                assert(in_box(ps[i], m));
            }
        } else if q.1 > m {
            assert forall|i: int| 0 <= i < ps.len() implies (#[trigger] ps[i]).1 < q.1 by {
                assert(in_box(ps[i], m));
            }
        } else {
            assert forall|i: int| 0 <= i < ps.len() implies (#[trigger] ps[i]).1 > q.1 by {
                assert(in_box(ps[i], m));
            }
        }
        assert(outside_bbox(ps, q));
        lemma_outside_bbox(ps, q);
    }
}

/// The nearest distance is at most the distance to the first point.
proof fn lemma_min_dist2_le_first(p: Point, vs: Seq<Point>, k: int)
    requires
        1 <= k,
    ensures
        min_dist2(p, vs, k) <= crate::geom::vdot(
            crate::geom::vsub(crate::geom::v(p), crate::geom::v(vs[0])),
            crate::geom::vsub(crate::geom::v(p), crate::geom::v(vs[0])),
        ),
    decreases k,
{
    if k > 1 {
        lemma_min_dist2_le_first(p, vs, k - 1);
    }
}

/// With coordinates in range, at least one figure vertex and fewer than
/// 2^22 hole vertices, the dislikes fit in `i64`.
pub proof fn lemma_dislikes_fit(hole: Seq<Point>, vs: Seq<Point>, k: int)
    requires
        all_in_range(hole),
        all_in_range(vs),
        vs.len() > 0,
        0 <= k <= hole.len(),
    ensures
        0 <= dislikes_upto(hole, vs, k) <= k * 2199023255552,
    decreases k,
{
    if k > 0 {
        lemma_dislikes_fit(hole, vs, k - 1);
        let p = hole[k - 1];
        assert(in_range(p));
        assert(in_range(vs[0]));
        lemma_range_diffs4(p, vs[0], p, vs[0]);
        lemma_min_dist2_le_first(p, vs, vs.len() as int);
        lemma_min_dist2_bounds(p, vs, vs.len() as int);
    }
}

/// The edges at vertex `a` among the first `m`, as `(other end, edge
/// index)` pairs, by edge index (an edge from `a` to itself twice).
pub open spec fn incident(edges: Seq<(usize, usize)>, a: int, m: int) -> Seq<(usize, usize)>
    decreases m,
{
    if m <= 0 {
        Seq::empty()
    } else {
        let e = edges[m - 1];
        let r = incident(edges, a, m - 1);
        let r1 = if e.0 == a {
            r.push((e.1, (m - 1) as usize))
        } else {
            r
        };
        if e.1 == a {
            r1.push((e.0, (m - 1) as usize))
        } else {
            r1
        }
    }
}

/// The edges at `a` among the first `m` are listed by their other end and
/// index: each entry names an edge from `a` to that end (or back), and each
/// edge with `a` as an end is listed.
pub proof fn lemma_incident_edges(edges: Seq<(usize, usize)>, a: int, m: int)
    requires
        0 <= m <= edges.len(),
        edges.len() <= usize::MAX,
        0 <= a <= usize::MAX,
    ensures
        forall|t: int|
            0 <= t < incident(edges, a, m).len() ==> {
                let (o, j) = #[trigger] incident(edges, a, m)[t];
                &&& j < m
                &&& (edges[j as int] == (a as usize, o) || edges[j as int] == (o, a as usize))
            },
        forall|j: int|
            0 <= j < m && (edges[j].0 == a || edges[j].1 == a) ==> exists|t: int|
                0 <= t < incident(edges, a, m).len() && (#[trigger] incident(edges, a, m)[t]).1 == j,
    decreases m,
{
    if m > 0 {
        lemma_incident_edges(edges, a, m - 1);
        let r = incident(edges, a, m - 1);
        let e = edges[m - 1];
        let r1 = if e.0 == a {
            r.push((e.1, (m - 1) as usize))
        } else {
            r
        };
        let r2 = incident(edges, a, m);
        assert forall|t: int| 0 <= t < r.len() implies r2[t] == r[t] by {
            assert(r1[t] == r[t]);
        }
        assert forall|j: int|
            0 <= j < m && (edges[j].0 == a || edges[j].1 == a) implies exists|t: int|
                0 <= t < r2.len() && (#[trigger] r2[t]).1 == j by {
            if j < m - 1 {
                let t = choose|t: int| 0 <= t < r.len() && (#[trigger] r[t]).1 == j;
                assert(r2[t] == r[t]);
            } else if e.0 == a {
                assert(r1[r.len() as int].1 == j);
                assert(r2[r.len() as int] == r1[r.len() as int]);
            } else {
                assert(r2[r1.len() as int].1 == j);
            }
        }
    }
}

/// The squared lengths of the figure's edges.
pub open spec fn fig_lengths(problem: Input) -> Seq<i64> {
    Seq::new(
        problem.figure.edges@.len(),
        |j: int| edge_len2(problem.figure.vertices@, problem.figure.edges@[j]) as i64,
    )
}

/// Vertex `a` at `vs[a]` is in the hole, and each of its edges lies in the
/// hole within its allowed stretch.
pub open spec fn move_fits(problem: Input, vs: Seq<Point>, a: int) -> bool {
    let row = incident(problem.figure.edges@, a, problem.figure.edges@.len() as int);
    &&& contains_p_spec(problem.hole@, vs[a]) >= 0
    &&& forall|t: int| 0 <= t < row.len() ==> #[trigger] edge_keeps(problem, vs, fig_lengths(problem), a, row[t])
}

/// The hill climb after the first `t` draws `(vertex, direction)`, from the
/// pose `vs0` with score `s0`: the vertices, the score, and the number of
/// moves kept. A drawn move is kept exactly when the moved vertex and its
/// edges fit (`move_fits`) and the score of the moved pose (without bonuses)
/// is at most the current score; otherwise the pose stays as it was.
pub open spec fn climb(problem: Input, vs0: Seq<Point>, s0: int, draws: Seq<(usize, usize)>, t: int) -> (
    Seq<Point>,
    int,
    int,
)
    decreases t,
{
    if t <= 0 {
        (vs0, s0, 0)
    } else {
        let (vs, score, k) = climb(problem, vs0, s0, draws, t - 1);
        let a = draws[t - 1].0 as int;
        let d = dir_spec(draws[t - 1].1 as int);
        let vs2 = vs.update(a, P((vs[a].0 + d.0) as i64, (vs[a].1 + d.1) as i64));
        let s2 = score_spec(problem, vs2, Seq::empty(), true);
        if move_fits(problem, vs2, a) && s2 <= score {
            (vs2, s2, k + 1)
        } else {
            (vs, score, k)
        }
    }
}

/// The draws name existing vertices and directions.
pub open spec fn draws_ok(draws: Seq<(usize, usize)>, n: int) -> bool {
    forall|t: int| 0 <= t < draws.len() ==> (#[trigger] draws[t]).0 < n && draws[t].1 < 4
}

/// The pose can be climbed: one position per figure vertex, coordinates
/// one unit inside the range, fewer than 2^22 hole vertices, and a score
/// that can be computed.
pub open spec fn climbable(problem: Input, pose: Output, pose_stretch_ok: bool) -> bool {
    &&& pose.vertices@.len() == problem.figure.vertices@.len()
    &&& all_in_box(problem.hole@, COORD_LIMIT - 1)
    &&& all_in_box(pose.vertices@, COORD_LIMIT - 1)
    &&& problem.hole@.len() < 4194304
    &&& checkable(problem, pose.vertices@)
    &&& scorable(problem, pose.vertices@, pose.bonuses@, pose_stretch_ok)
}

/// Facts of every hill climb: it keeps the number of vertices, keeps at most
/// one move per draw, never makes the score worse, leaves the pose as it was
/// when it keeps no move, ends with the score of its pose (without bonuses)
/// once it has kept one, and every vertex it has moved lies in the hole.
pub proof fn lemma_climb(problem: Input, vs0: Seq<Point>, s0: int, draws: Seq<(usize, usize)>, t: int)
    requires
        draws_ok(draws, vs0.len() as int),
        0 <= t <= draws.len(),
    ensures
        climb(problem, vs0, s0, draws, t).0.len() == vs0.len(),
        0 <= climb(problem, vs0, s0, draws, t).2 <= t,
        climb(problem, vs0, s0, draws, t).1 <= s0,
        climb(problem, vs0, s0, draws, t).2 == 0 ==> climb(problem, vs0, s0, draws, t).0 == vs0
            && climb(problem, vs0, s0, draws, t).1 == s0,
        climb(problem, vs0, s0, draws, t).2 > 0 ==> climb(problem, vs0, s0, draws, t).1
            == score_spec(problem, climb(problem, vs0, s0, draws, t).0, Seq::empty(), true),
        forall|i: int|
            0 <= i < vs0.len() && climb(problem, vs0, s0, draws, t).0[i] != vs0[i]
                ==> contains_p_spec(problem.hole@, #[trigger] climb(problem, vs0, s0, draws, t).0[i])
                >= 0,
    decreases t,
{
    if t > 0 {
        lemma_climb(problem, vs0, s0, draws, t - 1);
        assert(draws[t - 1].0 < vs0.len());
    }
}

/// One draw of the hill climb: the drawn vertex moved one unit in the drawn
/// direction. When the moved vertex and its edges fit, the move is kept
/// exactly when the moved pose's score is at most the current one: a better
/// move is kept with its score, a move that keeps the score (sideways) is
/// kept with the same score, and a worse one is refused. A refused move, or
/// one that does not fit, leaves pose, score and count as they were.
pub proof fn lemma_climb_step(
    problem: Input,
    vs0: Seq<Point>,
    s0: int,
    draws: Seq<(usize, usize)>,
    t: int,
)
    requires
        0 <= t < draws.len(),
    ensures
        ({
            let (vs, score, k) = climb(problem, vs0, s0, draws, t);
            let a = draws[t].0 as int;
            let d = dir_spec(draws[t].1 as int);
            let vs2 = vs.update(a, P((vs[a].0 + d.0) as i64, (vs[a].1 + d.1) as i64));
            let s2 = score_spec(problem, vs2, Seq::empty(), true);
            let next = climb(problem, vs0, s0, draws, t + 1);
            &&& move_fits(problem, vs2, a) ==> (next.2 == k + 1 <==> s2 <= score)
            &&& move_fits(problem, vs2, a) && s2 < score ==> next == (vs2, s2, k + 1)
            &&& move_fits(problem, vs2, a) && s2 == score ==> next == (vs2, score, k + 1)
            &&& (!move_fits(problem, vs2, a) || s2 > score) ==> next == (vs, score, k)
        }),
{
    assert(t + 1 - 1 == t);
}

/// Hill climbing on a pose with the given draws: for each `(vertex,
/// direction)` in `draws`, moves that vertex one unit in that direction and
/// keeps the move exactly when the vertex stays in the hole, its edges stay in
/// the hole within their allowed stretch, and the score does not get worse
/// (`climb`). Returns the pose (without bonuses) and the number of moves kept.
/// `pose_stretch_ok` tells whether the given pose's total stretch is within
/// the Globalist budget (it matters only when the pose uses that bonus).
#[verifier::rlimit(40)]
pub fn ugougo_with_draws(
    problem: &Input,
    pose: &Output,
    draws: &Vec<(usize, usize)>,
    pose_stretch_ok: bool,
) -> (r: (Output, i32))
    requires
        climbable(*problem, *pose, pose_stretch_ok),
        draws_ok(draws@, pose.vertices@.len() as int),
        draws@.len() <= i32::MAX,
    ensures
        r.0.vertices@ == climb(
            *problem,
            pose.vertices@,
            score_spec(*problem, pose.vertices@, pose.bonuses@, pose_stretch_ok),
            draws@,
            draws@.len() as int,
        ).0,
        r.1 == climb(
            *problem,
            pose.vertices@,
            score_spec(*problem, pose.vertices@, pose.bonuses@, pose_stretch_ok),
            draws@,
            draws@.len() as int,
        ).2,
        r.0.bonuses@.len() == 0,
{
    let n = problem.figure.vertices.len();
    let m = problem.figure.edges.len();
    let ghost hole = problem.hole@;
    let ghost orig = problem.figure.vertices@;
    let ghost edges = problem.figure.edges@;
    let mut vertices = copy_points(&pose.vertices);

    let mut dist2: Vec<i64> = Vec::new();
    for i in 0..m
        invariant
            m == edges.len(),
            edges == problem.figure.edges@,
            orig == problem.figure.vertices@,
            checkable(*problem, pose.vertices@),
            dist2@.len() == i,
            forall|j: int| 0 <= j < i ==> #[trigger] dist2@[j] == edge_len2(orig, edges[j]),
            forall|j: int| 0 <= j < i ==> 0 <= #[trigger] dist2@[j] <= 2199023255552,
    {
        let (a, b) = problem.figure.edges[i];
        assert(edges[i as int].0 < orig.len() && edges[i as int].1 < orig.len());
        assert(in_range(orig[a as int]) && in_range(orig[b as int]));
        proof {
            lemma_range_diffs4(orig[a as int], orig[b as int], orig[a as int], orig[b as int]);
        }
        let d = (problem.figure.vertices[a] - problem.figure.vertices[b]).abs2();
        dist2.push(d);
    }
    assert(dist2@ =~= fig_lengths(*problem));

    let mut adj: Vec<Vec<(usize, usize)>> = Vec::new();
    for a in 0..n
        invariant
            m == edges.len(),
            n == orig.len(),
            edges == problem.figure.edges@,
            adj@.len() == a,
            forall|x: int| 0 <= x < a ==> adj_ok(edges, n as int, x, #[trigger] adj@[x]@),
            forall|x: int| 0 <= x < a ==> #[trigger] adj@[x]@ == incident(edges, x, m as int),
            checkable(*problem, pose.vertices@),
            orig == problem.figure.vertices@,
    {
        let mut row: Vec<(usize, usize)> = Vec::new();
        for i in 0..m
            invariant
                m == edges.len(),
                n == orig.len(),
                a < n,
                edges == problem.figure.edges@,
                adj_ok(edges, n as int, a as int, row@),
                row@ == incident(edges, a as int, i as int),
                checkable(*problem, pose.vertices@),
                orig == problem.figure.vertices@,
        {
            let (x, y) = problem.figure.edges[i];
            assert(edges[i as int].0 < orig.len() && edges[i as int].1 < orig.len());
            if x == a {
                row.push((y, i));
            }
            if y == a {
                row.push((x, i));
            }
        }
        adj.push(row);
    }

    let ghost initial = score_spec(*problem, pose.vertices@, pose.bonuses@, pose_stretch_ok);
    let mut score = compute_score(problem, pose, pose_stretch_ok);
    let mut k: i32 = 0;
    let nd = draws.len();
    for t in 0..nd
        invariant
            nd == draws@.len(),
            nd <= i32::MAX,
            draws_ok(draws@, n as int),
            n == orig.len(),
            m == edges.len(),
            edges == problem.figure.edges@,
            orig == problem.figure.vertices@,
            hole == problem.hole@,
            n == pose.vertices@.len(),
            all_in_box(hole, COORD_LIMIT - 1),
            hole.len() < 4194304,
            checkable(*problem, pose.vertices@),
            dist2@ == fig_lengths(*problem),
            forall|j: int| 0 <= j < m ==> #[trigger] dist2@[j] == edge_len2(orig, edges[j]),
            forall|j: int| 0 <= j < m ==> 0 <= #[trigger] dist2@[j] <= 2199023255552,
            adj@.len() == n,
            forall|x: int| 0 <= x < n ==> adj_ok(edges, n as int, x, #[trigger] adj@[x]@),
            forall|x: int| 0 <= x < n ==> #[trigger] adj@[x]@ == incident(edges, x, m as int),
            vertices@.len() == n,
            all_in_box(vertices@, COORD_LIMIT - 1),
            0 <= k <= t,
            (vertices@, score as int, k as int) == climb(*problem, pose.vertices@, initial, draws@, t as int),
    {
        let (a, dk) = draws[t];
        assert(draws@[t as int].0 < n && draws@[t as int].1 < 4);
        let d = dir(dk);
        let old_pos = vertices[a];
        let ghost before = vertices@;
        assert(in_box(before[a as int], COORD_LIMIT - 1));
        let cand = old_pos + d;
        assert(in_range(cand));
        vertices.set(a, cand);
        let ghost vs2 = vertices@;
        let ghost row = incident(edges, a as int, m as int);
        let mut accepted = false;
        proof {
            assert forall|i: int| 0 <= i < n implies in_range(#[trigger] vertices@[i]) by {
                if i != a {
                    assert(in_box(before[i], COORD_LIMIT - 1));
                }
            }
        }
        proof {
            crate::segment::lemma_seg_range(problem.hole@);
        }
        let inside = P::contains_p(&problem.hole, cand) >= 0;
        if inside {
            proof {
                lemma_inside_in_box(hole, cand, COORD_LIMIT - 1);
            }
            let fits_edges = edges_keep(problem, &vertices, &adj[a], &dist2, a);
            assert(adj@[a as int]@ == row);
            if fits_edges {
                assert(move_fits(*problem, vs2, a as int));
                let new_out = Output { vertices: copy_points(&vertices), bonuses: Vec::new() };
                proof {
                    assert(all_in_range(vertices@));
                    lemma_dislikes_fit(hole, vertices@, hole.len() as int);
                    assert(hole.len() * 2199023255552 <= i64::MAX) by (nonlinear_arith)
                        requires
                            hole.len() < 4194304,
                    ;
                }
                let new_score = compute_score(problem, &new_out, true);
                assert(new_out.bonuses@ =~= Seq::<UseBonus>::empty());
                if new_score <= score {
                    score = new_score;
                    k = k + 1;
                    accepted = true;
                }
            } else {
                assert(!move_fits(*problem, vs2, a as int));
            }
        }
        if !accepted {
            vertices.set(a, old_pos);
            assert(vertices@ =~= before);
        } else {
            proof {
                assert forall|i: int| 0 <= i < n implies #[trigger] in_box(
                    vertices@[i],
                    COORD_LIMIT - 1,
                ) by {
                    if i != a {
                        assert(in_box(before[i], COORD_LIMIT - 1));
                    }
                }
            }
        }
    }
    (Output { vertices, bonuses: Vec::new() }, k)
}

/// Hill climbing on a pose: `cycles` times, draws a random vertex and a
/// random direction and moves the vertex one unit that way, keeping the move
/// as `ugougo_with_draws` does. Which draws come out is left to chance; the
/// result is the climb of some `cycles` valid draws.
pub fn ugougo(problem: &Input, pose: &Output, cycles: usize, pose_stretch_ok: bool) -> (r: (
    Output,
    i32,
))
    requires
        climbable(*problem, *pose, pose_stretch_ok),
        cycles > 0 ==> pose.vertices@.len() > 0,
        cycles <= i32::MAX,
    ensures
        exists|draws: Seq<(usize, usize)>|
            #![trigger climb(
                *problem,
                pose.vertices@,
                score_spec(*problem, pose.vertices@, pose.bonuses@, pose_stretch_ok),
                draws,
                cycles as int,
            )]
            draws.len() == cycles && draws_ok(draws, pose.vertices@.len() as int) && r.0.vertices@
                == climb(
                *problem,
                pose.vertices@,
                score_spec(*problem, pose.vertices@, pose.bonuses@, pose_stretch_ok),
                draws,
                cycles as int,
            ).0 && r.1 == climb(
                *problem,
                pose.vertices@,
                score_spec(*problem, pose.vertices@, pose.bonuses@, pose_stretch_ok),
                draws,
                cycles as int,
            ).2,
        r.0.vertices@.len() == pose.vertices@.len(),
        r.0.bonuses@.len() == 0,
        0 <= r.1 <= cycles,
        r.1 == 0 ==> r.0.vertices@ == pose.vertices@,
        r.1 > 0 ==> score_spec(*problem, r.0.vertices@, r.0.bonuses@, true) <= score_spec(
            *problem,
            pose.vertices@,
            pose.bonuses@,
            pose_stretch_ok,
        ),
        forall|i: int|
            0 <= i < r.0.vertices@.len() && r.0.vertices@[i] != pose.vertices@[i]
                ==> contains_p_spec(problem.hole@, #[trigger] r.0.vertices@[i]) >= 0,
{
    let n = pose.vertices.len();
    let mut draws: Vec<(usize, usize)> = Vec::new();
    for t in 0..cycles
        invariant
            draws@.len() == t,
            cycles > 0 ==> n > 0,
            draws_ok(draws@, n as int),
    {
        let a = random_below(n);
        let dk = random_below(4);
        draws.push((a, dk));
    }
    let r = ugougo_with_draws(problem, pose, &draws, pose_stretch_ok);
    let ghost s0 = score_spec(*problem, pose.vertices@, pose.bonuses@, pose_stretch_ok);
    proof {
        lemma_climb(*problem, pose.vertices@, s0, draws@, cycles as int);
        assert(r.0.bonuses@ =~= Seq::<UseBonus>::empty());
    }
    r
}

/// The edge `i` from vertex `a` to vertex `b` (`t == (b, i)`) lies in the
/// hole and within its allowed stretch of the original squared length
/// `base[i]` when the vertices are at `vs`.
pub open spec fn edge_keeps(problem: Input, vs: Seq<Point>, base: Seq<i64>, a: int, t: (usize, usize)) -> bool {
    let b = t.0 as int;
    let d0 = base[t.1 as int] as int;
    &&& contains_s_spec(problem.hole@, vs[a], vs[b])
    &&& iabs(crate::geom::dist2(vs[a], vs[b]) - d0) * 1000000 - problem.epsilon * d0 <= 0
}

/// Whether every edge at vertex `a` (listed in `row`) stays in the hole and
/// within its allowed stretch when the vertices are at `vs`.
fn edges_keep(
    problem: &Input,
    vs: &Vec<Point>,
    row: &Vec<(usize, usize)>,
    dist2: &Vec<i64>,
    a: usize,
) -> (ok: bool)
    requires
        all_in_range(problem.hole@),
        all_in_range(vs@),
        a < vs@.len(),
        vs@.len() == problem.figure.vertices@.len(),
        dist2@.len() == problem.figure.edges@.len(),
        forall|j: int| 0 <= j < dist2@.len() ==> 0 <= #[trigger] dist2@[j] <= 2199023255552,
        forall|j: int|
            0 <= j < dist2@.len() ==> fits(problem.epsilon * #[trigger] dist2@[j]),
        adj_ok(problem.figure.edges@, vs@.len() as int, a as int, row@),
    ensures
        ok == forall|t: int|
            0 <= t < row@.len() ==> #[trigger] edge_keeps(*problem, vs@, dist2@, a as int, row@[t]),
{
    let nr = row.len();
    for t in 0..nr
        invariant
            nr == row@.len(),
            all_in_range(problem.hole@),
            all_in_range(vs@),
            a < vs@.len(),
            vs@.len() == problem.figure.vertices@.len(),
            dist2@.len() == problem.figure.edges@.len(),
            forall|j: int| 0 <= j < dist2@.len() ==> 0 <= #[trigger] dist2@[j] <= 2199023255552,
            forall|j: int|
                0 <= j < dist2@.len() ==> fits(problem.epsilon * #[trigger] dist2@[j]),
            adj_ok(problem.figure.edges@, vs@.len() as int, a as int, row@),
            forall|u: int| 0 <= u < t ==> #[trigger] edge_keeps(*problem, vs@, dist2@, a as int, row@[u]),
    {
        let (b, i) = row[t];
        assert((b, i) == row@[t as int]);
        assert(in_range(vs@[a as int]));
        assert(in_range(vs@[b as int]));
        if !P::contains_s(&problem.hole, (vs[a], vs[b])) {
            assert(!edge_keeps(*problem, vs@, dist2@, a as int, row@[t as int]));
            return false;
        }
        proof {
            lemma_range_diffs4(vs@[a as int], vs@[b as int], vs@[a as int], vs@[b as int]);
        }
        let d2 = (vs[a] - vs[b]).abs2();
        if !length_within(d2, dist2[i], problem.epsilon) {
            assert(!edge_keeps(*problem, vs@, dist2@, a as int, row@[t as int]));
            return false;
        }
        assert(edge_keeps(*problem, vs@, dist2@, a as int, row@[t as int]));
    }
    true
}

} // verus!
