use vstd::prelude::*;
use crate::geom::{all_in_range, dist2, fits, in_box, in_range, trunc_div, Point, COORD_LIMIT, P};
use crate::problem::Input;
use crate::sat::{
    lemma_lit_fits, lemma_model_direction_in, lemma_model_edge, lemma_model_outside,
    lemma_satisfies_concat, lemma_satisfies_member, lemma_satisfies_push, lit_true, satisfies_all,
    chosen_in, clauses_view, dv_in, dv_of, edge_clauses, edge_penalty, edge_penalty_ok,
    edge_penalty_spec, lemma_dv_in_small, lit_in, lit_of, move_fits_at, moves_fit, moves_ok,
    nudge_in, one_hot_clauses, outside_clauses, push_clause, push_edge_block, push_one_hot,
    push_outside_of, reconstruct_in, unit_clause,
};
use crate::segment::lemma_range_diffs4;

verus! {

/// The SAT-based hill climber: each step lets every vertex move within a
/// `neighbor` by `neighbor` square around it, asks that some vertex nearest
/// to a corner of the hole gets nearer and none gets farther, keeps every
/// vertex and edge in the hole and every edge within its stretch.
pub struct SatHillclimber {
    pub input: Input,
    /// Side of the square of moves: 3, 5, 7, ...
    pub neighbor: i64,
}

/// The index of the first of the first `m` positions nearest to `h`.
pub open spec fn nearest(vs: Seq<Point>, h: Point, m: int) -> int
    decreases m,
{
    if m <= 1 {
        0
    } else {
        let j = nearest(vs, h, m - 1);
        if dist2(vs[m - 1], h) < dist2(vs[j], h) {
            m - 1
        } else {
            j
        }
    }
}

/// For the corner `h`, whose nearest vertex is `v` at `p`: the clauses that
/// forbid the first `d` directions that take `v` farther from `h`.
pub open spec fn away_clauses_of(k: int, vs: Seq<Point>, h: Point, d: int) -> Seq<Seq<i64>>
    decreases d,
{
    let v = nearest(vs, h, vs.len() as int);
    let p = vs[v];
    if d <= 0 {
        Seq::empty()
    } else if dist2(nudge_in(k, p, d - 1), h) > dist2(p, h) {
        away_clauses_of(k, vs, h, d - 1).push(seq![-lit_in(k * k, v, d - 1) as i64])
    } else {
        away_clauses_of(k, vs, h, d - 1)
    }
}

/// For the corner `h`, whose nearest vertex is `v` at `p`: the variables of
/// the first `d` directions that take `v` nearer to `h`.
pub open spec fn toward_lits_of(k: int, vs: Seq<Point>, h: Point, d: int) -> Seq<i64>
    decreases d,
{
    let v = nearest(vs, h, vs.len() as int);
    let p = vs[v];
    if d <= 0 {
        Seq::empty()
    } else if dist2(nudge_in(k, p, d - 1), h) < dist2(p, h) {
        toward_lits_of(k, vs, h, d - 1).push(lit_in(k * k, v, d - 1) as i64)
    } else {
        toward_lits_of(k, vs, h, d - 1)
    }
}

/// The clauses that forbid moving away, for the first `i` corners.
pub open spec fn away_clauses(k: int, hole: Seq<Point>, vs: Seq<Point>, i: int) -> Seq<Seq<i64>>
    decreases i,
{
    if i <= 0 {
        Seq::empty()
    } else {
        away_clauses(k, hole, vs, i - 1) + away_clauses_of(k, vs, hole[i - 1], k * k)
    }
}

/// The variables of the moves toward the first `i` corners.
pub open spec fn toward_lits(k: int, hole: Seq<Point>, vs: Seq<Point>, i: int) -> Seq<i64>
    decreases i,
{
    if i <= 0 {
        Seq::empty()
    } else {
        toward_lits(k, hole, vs, i - 1) + toward_lits_of(k, vs, hole[i - 1], k * k)
    }
}

/// All the clauses of one step, in the order they are generated: one
/// direction per vertex, no vertex nearest to a corner moves away from it,
/// some one moves toward its corner, no vertex leaves the hole, and every
/// edge stays in the hole with no penalty.
pub open spec fn climb_clauses(k: int, input: Input, vs: Seq<Point>) -> Seq<Seq<i64>> {
    let n = vs.len() as int;
    let h = input.hole@.len() as int;
    (one_hot_clauses(k, n) + away_clauses(k, input.hole@, vs, h)).push(
        toward_lits(k, input.hole@, vs, h),
    ) + outside_clauses(k, input.hole@, vs, n) + edge_clauses(
        k,
        input,
        vs,
        1,
        input.figure.edges@.len() as int,
    )
}

/// A step can be generated from the positions `vs`: every move is computed
/// without overflow, some vertex exists when the hole has corners, and every
/// edge is within its stretch to begin with.
pub open spec fn climbable(k: int, input: Input, vs: Seq<Point>) -> bool {
    &&& moves_ok(k, input, vs)
    &&& input.hole@.len() > 0 ==> vs.len() > 0
    &&& forall|i: int|
        0 <= i < input.figure.edges@.len() ==> {
            let e = #[trigger] input.figure.edges@[i];
            &&& edge_penalty_ok(input, e.0 as int, e.1 as int, vs[e.0 as int], vs[e.1 as int])
            &&& edge_penalty_spec(input, e.0 as int, e.1 as int, vs[e.0 as int], vs[e.1 as int])
                == 0
        }
}

/// The index of the first vertex nearest to `h`.
fn nearest_vertex(vs: &Vec<Point>, h: Point) -> (r: usize)
    requires
        vs@.len() > 0,
        all_in_range(vs@),
        in_range(h),
    ensures
        r == nearest(vs@, h, vs@.len() as int),
        r < vs@.len(),
{
    proof {
        lemma_range_diffs4(vs@[0], h, vs@[0], h);
    }
    let mut best: usize = 0;
    let mut best_d = (vs[0] - h).abs2();
    for i in 1..vs.len()
        invariant
            vs@.len() > 0,
            all_in_range(vs@),
            in_range(h),
            best == nearest(vs@, h, i as int),
            best < i,
            best_d == dist2(vs@[best as int], h),
    {
        assert(in_range(vs@[i as int]));
        proof {
            lemma_range_diffs4(vs@[i as int], h, vs@[i as int], h);
        }
        let d = (vs[i] - h).abs2();
        if d < best_d {
            best = i;
            best_d = d;
        }
    }
    best
}

impl SatHillclimber {
    /// A climber for the problem, starting with the square of moves of side
    /// `min_neighbor`.
    pub fn new(input: Input, min_neighbor: i64) -> (s: Self)
        ensures
            s.input == input,
            s.neighbor == min_neighbor,
    {
        SatHillclimber { neighbor: min_neighbor, input }
    }

    /// The number of directions each vertex may move in.
    pub fn n_cands(&self) -> (r: i64)
        requires
            -3037000499 <= self.neighbor <= 3037000499,
        ensures
            r == self.neighbor * self.neighbor,
            r >= 0,
            1 <= self.neighbor <= 1000 ==> 1 <= r <= 1000000,
    {
        proof {
            assert(0 <= self.neighbor * self.neighbor <= 3037000499 * 3037000499) by (nonlinear_arith)
                requires
                    -3037000499 <= self.neighbor <= 3037000499,
            ;
            assert(1 <= self.neighbor <= 1000 ==> 1 <= self.neighbor * self.neighbor <= 1000000)
                by (nonlinear_arith);
        }
        self.neighbor * self.neighbor
    }

    /// The direction of no move when the side is odd: the middle one of the
    /// `neighbor * neighbor` directions.
    pub fn d_center(&self) -> (r: i64)
        requires
            -3037000499 <= self.neighbor <= 3037000499,
        ensures
            r == if self.neighbor == 0 {
                0
            } else {
                (self.neighbor * self.neighbor - 1) / 2
            },
            self.neighbor > 0 && self.neighbor % 2 == 1 ==> dv_in(self.neighbor as int, r as int) == P(
                0i64,
                0i64,
            ),
    {
        let c = self.n_cands();
        if c == 0 {
            proof {
                if self.neighbor != 0 {
                    assert(self.neighbor * self.neighbor > 0) by (nonlinear_arith)
                        requires
                            self.neighbor != 0,
                    ;
                }
            }
            0
        } else {
            proof {
                assert(self.neighbor != 0);
                if self.neighbor > 0 && self.neighbor % 2 == 1 {
                    let k = self.neighbor as int;
                    let j = (k - 1) / 2;
                    assert(k == 2 * j + 1);
                    let d = (c - 1) / 2;
                    assert(d == j * k + j) by (nonlinear_arith)
                        requires
                            k == 2 * j + 1,
                            c == k * k,
                            d == (c - 1) / 2,
                    ;
                    vstd::arithmetic::div_mod::lemma_fundamental_div_mod_converse(d, k, j, j);
                    assert(d - k * j == j) by (nonlinear_arith)
                        requires
                            d == j * k + j,
                    ;
                    assert(trunc_div(d, k) == j);
                }
            }
            (c - 1) / 2
        }
    }

    /// The variable that says "vertex `v` moves in direction `d`".
    pub fn lit(&self, v: usize, d: i64) -> (r: i64)
        requires
            -3037000499 <= self.neighbor <= 3037000499,
            v <= i64::MAX,
            fits(v * (self.neighbor * self.neighbor)),
            fits(1 + v * (self.neighbor * self.neighbor)),
            fits(1 + v * (self.neighbor * self.neighbor) + d),
        ensures
            r == lit_in(self.neighbor * self.neighbor, v as int, d as int),
    {
        let c = self.n_cands();
        1 + (v as i64) * c + d
    }

    /// The offset of direction `d`.
    pub fn dv(&self, d: i64) -> (r: Point)
        requires
            1 <= self.neighbor,
            0 <= d < self.neighbor * self.neighbor,
        ensures
            r == dv_in(self.neighbor as int, d as int),
    {
        dv_of(self.neighbor, d)
    }

    /// Where `p` lies against the hole: 1 inside, 0 on its boundary, -1
    /// outside.
    pub fn contains_p(&self, p: Point) -> (r: i32)
        requires
            all_in_range(self.input.hole@),
            in_range(p),
        ensures
            r == crate::polygon::contains_p_spec(self.input.hole@, p),
    {
        proof {
            crate::segment::lemma_seg_range(self.input.hole@);
        }
        P::contains_p(&self.input.hole, p)
    }

    /// Whether the segment from `p` to `q` lies in the hole.
    pub fn contains_s(&self, p: Point, q: Point) -> (r: bool)
        requires
            all_in_range(self.input.hole@),
            in_range(p),
            in_range(q),
        ensures
            r == crate::polygon::contains_s_spec(self.input.hole@, p, q),
    {
        P::contains_s(&self.input.hole, (p, q))
    }

    /// The penalty of the edge between the figure's vertices `v1` and `v2`
    /// placed at `p1` and `p2`.
    pub fn edge_penalty(&self, v1: usize, v2: usize, p1: Point, p2: Point) -> (r: i64)
        requires
            edge_penalty_ok(self.input, v1 as int, v2 as int, p1, p2),
        ensures
            r == edge_penalty_spec(self.input, v1 as int, v2 as int, p1, p2),
    {
        edge_penalty(&self.input, v1, v2, p1, p2)
    }

    /// Appends the clauses about the corner `h`, and the variables of the
    /// moves toward it.
    fn push_corner(
        &self,
        vertices: &Vec<Point>,
        h: Point,
        clauses: &mut Vec<Vec<i64>>,
        improve: &mut Vec<i64>,
    )
        requires
            climbable(self.neighbor as int, self.input, vertices@),
            vertices@.len() > 0,
            in_range(h),
        ensures
            clauses_view(final(clauses)@) == clauses_view(old(clauses)@) + away_clauses_of(
                self.neighbor as int,
                vertices@,
                h,
                self.neighbor * self.neighbor,
            ),
            final(improve)@ == old(improve)@ + toward_lits_of(
                self.neighbor as int,
                vertices@,
                h,
                self.neighbor * self.neighbor,
            ),
    {
        let k = self.neighbor;
        let c = self.n_cands();
        let ghost vs = vertices@;
        assert forall|u: int| 0 <= u < vs.len() implies #[trigger] in_range(vs[u]) by {
            assert(in_box(vs[u], COORD_LIMIT - k));
        }
        let v = nearest_vertex(vertices, h);
        let p = vertices[v];
        assert(in_box(p, COORD_LIMIT - k));
        proof {
            lemma_range_diffs4(p, h, p, h);
        }
        let current_abs2 = (p - h).abs2();
        let ghost base = clauses_view(clauses@);
        let ghost ibase = improve@;
        assert(base =~= base + away_clauses_of(k as int, vs, h, 0));
        assert(ibase =~= ibase + toward_lits_of(k as int, vs, h, 0));
        let mut d: i64 = 0;
        while d < c
            invariant
                1 <= k <= 1000,
                c == k * k,
                c <= 1000000,
                0 <= d <= c,
                vs == vertices@,
                v == nearest(vs, h, vs.len() as int),
                v < vs.len() <= 1000000000000,
                p == vs[v as int],
                in_box(p, COORD_LIMIT - k),
                in_range(h),
                current_abs2 == dist2(p, h),
                clauses_view(clauses@) == base + away_clauses_of(k as int, vs, h, d as int),
                improve@ == ibase + toward_lits_of(k as int, vs, h, d as int),
            decreases c - d,
        {
            proof {
                lemma_dv_in_small(k as int, d as int);
            }
            let l = lit_of(c, v, d);
            let tp = p + dv_of(k, d);
            assert(tp == nudge_in(k as int, p, d as int));
            assert(in_range(tp));
            proof {
                lemma_range_diffs4(tp, h, tp, h);
            }
            let next_abs2 = (tp - h).abs2();
            if next_abs2 > current_abs2 {
                let cl = unit_clause(-l);
                push_clause(clauses, cl);
            }
            if next_abs2 < current_abs2 {
                improve.push(l);
            }
            assert(clauses_view(clauses@) =~= base + away_clauses_of(k as int, vs, h, d + 1));
            assert(improve@ =~= ibase + toward_lits_of(k as int, vs, h, d + 1));
            d = d + 1;
        }
    }

    /// The clauses of one step, for a SAT solver.
    pub fn generate_clauses(&self, vertices: &Vec<Point>) -> (r: Vec<Vec<i64>>)
        requires
            climbable(self.neighbor as int, self.input, vertices@),
        ensures
            clauses_view(r@) == climb_clauses(self.neighbor as int, self.input, vertices@),
    {
        let k = self.neighbor;
        let c = self.n_cands();
        let input = &self.input;
        let mut clauses: Vec<Vec<i64>> = Vec::new();
        let n = vertices.len();
        let ghost vs = vertices@;
        let ghost hole = input.hole@;
        assert(clauses_view(clauses@) =~= one_hot_clauses(k as int, 0));
        for v in 0..n
            invariant
                n == vs.len(),
                vs == vertices@,
                c == k * k,
                climbable(k as int, *input, vs),
                clauses_view(clauses@) == one_hot_clauses(k as int, v as int),
        {
            push_one_hot(k, c, v, &mut clauses);
        }
        let ghost one_hot = one_hot_clauses(k as int, n as int);
        let mut improve_clause: Vec<i64> = Vec::new();
        let nh = input.hole.len();
        assert(clauses_view(clauses@) =~= one_hot + away_clauses(k as int, hole, vs, 0));
        for hi in 0..nh
            invariant
                nh == hole.len(),
                hole == input.hole@,
                input == &self.input,
                k == self.neighbor,
                vs == vertices@,
                c == k * k,
                climbable(k as int, *input, vs),
                clauses_view(clauses@) == one_hot + away_clauses(k as int, hole, vs, hi as int),
                improve_clause@ == toward_lits(k as int, hole, vs, hi as int),
        {
            assert(in_range(hole[hi as int]));
            self.push_corner(vertices, input.hole[hi], &mut clauses, &mut improve_clause);
            assert(clauses_view(clauses@) =~= one_hot + away_clauses(k as int, hole, vs, hi + 1));
        }
        let ghost toward = toward_lits(k as int, hole, vs, nh as int);
        push_clause(&mut clauses, improve_clause);
        let ghost pushed = (one_hot + away_clauses(k as int, hole, vs, nh as int)).push(toward);
        assert(clauses_view(clauses@) =~= pushed + outside_clauses(k as int, hole, vs, 0));
        for v in 0..n
            invariant
                n == vs.len(),
                vs == vertices@,
                hole == input.hole@,
                c == k * k,
                climbable(k as int, *input, vs),
                clauses_view(clauses@) == pushed + outside_clauses(k as int, hole, vs, v as int),
        {
            push_outside_of(k, c, &input.hole, vertices, v, &mut clauses);
            assert(clauses_view(clauses@) =~= pushed + outside_clauses(
                k as int,
                hole,
                vs,
                v + 1,
            ));
        }
        let ghost outside = pushed + outside_clauses(k as int, hole, vs, n as int);
        let m = input.figure.edges.len();
        assert(clauses_view(clauses@) =~= outside + edge_clauses(k as int, *input, vs, 1, 0));
        for ei in 0..m
            invariant
                m == input.figure.edges@.len(),
                input == &self.input,
                k == self.neighbor,
                vs == vertices@,
                c == k * k,
                climbable(k as int, *input, vs),
                clauses_view(clauses@) == outside + edge_clauses(
                    k as int,
                    *input,
                    vs,
                    1,
                    ei as int,
                ),
        {
            let (v1, v2) = input.figure.edges[ei];
            assert((v1, v2) == input.figure.edges@[ei as int]);
            assert(v1 < vs.len() && v2 < vs.len());
            let current_penalty = self.edge_penalty(v1, v2, vertices[v1], vertices[v2]);
            assert(current_penalty == 0);
            push_edge_block(k, c, input, vertices, 1, ei, &mut clauses);
            assert(clauses_view(clauses@) =~= outside + edge_clauses(
                k as int,
                *input,
                vs,
                1,
                ei + 1,
            ));
        }
        clauses
    }

    /// The positions after a step: each vertex moved in the direction the
    /// satisfying assignment `solution` chooses for it.
    pub fn reconstruct_positions(&self, positions: &Vec<Point>, solution: &Vec<bool>) -> (r: Vec<
        Point,
    >)
        requires
            1 <= self.neighbor <= 3037000499,
            self.neighbor * self.neighbor <= usize::MAX,
            positions@.len() > 0 ==> self.neighbor * self.neighbor * positions@.len()
                < solution@.len(),
            moves_fit(self.neighbor as int, positions@),
        ensures
            r@.len() == positions@.len(),
            forall|v: int|
                0 <= v < positions@.len() ==> #[trigger] r@[v] == chosen_in(
                    self.neighbor as int,
                    solution@,
                    v,
                    positions@[v],
                    self.neighbor * self.neighbor,
                ),
    {
        let c = self.n_cands();
        reconstruct_in(self.neighbor, c as usize, positions, solution)
    }
}

/// The nearest of the first `m` positions is one of them.
proof fn lemma_nearest_in(vs: Seq<Point>, h: Point, m: int)
    requires
        m >= 1,
    ensures
        0 <= nearest(vs, h, m) < m,
    decreases m,
{
    if m > 1 {
        lemma_nearest_in(vs, h, m - 1);
    }
}

/// The nearest of the first `m` positions to `h` is no farther from it than
/// any of them, and nearer than each one before it.
pub proof fn lemma_nearest_is_first_nearest(vs: Seq<Point>, h: Point, m: int)
    requires
        1 <= m <= vs.len(),
    ensures
        0 <= nearest(vs, h, m) < m,
        forall|i: int|
            #![trigger vs[i]]
            0 <= i < m ==> dist2(vs[nearest(vs, h, m)], h) <= dist2(vs[i], h),
        forall|i: int|
            #![trigger vs[i]]
            0 <= i < nearest(vs, h, m) ==> dist2(vs[nearest(vs, h, m)], h) < dist2(vs[i], h),
    decreases m,
{
    if m > 1 {
        lemma_nearest_is_first_nearest(vs, h, m - 1);
    }
}

/// A direction that takes the vertex nearest to the corner `h` farther from
/// it is forbidden by a clause of `away_clauses_of`.
proof fn lemma_away_of_has(k: int, vs: Seq<Point>, h: Point, d: int, e: int)
    requires
        0 <= e < d,
        dist2(nudge_in(k, vs[nearest(vs, h, vs.len() as int)], e), h) > dist2(
            vs[nearest(vs, h, vs.len() as int)],
            h,
        ),
    ensures
        away_clauses_of(k, vs, h, d).contains(
            seq![-lit_in(k * k, nearest(vs, h, vs.len() as int), e) as i64],
        ),
    decreases d,
{
    let v = nearest(vs, h, vs.len() as int);
    let c = seq![-lit_in(k * k, v, e) as i64];
    let prev = away_clauses_of(k, vs, h, d - 1);
    if e == d - 1 {
        let s = prev.push(c);
        assert(s[s.len() - 1] == c);
    } else {
        lemma_away_of_has(k, vs, h, d - 1, e);
        let i = choose|i: int| 0 <= i < prev.len() && #[trigger] prev[i] == c;
        if dist2(nudge_in(k, vs[v], d - 1), h) > dist2(vs[v], h) {
            assert(prev.push(seq![-lit_in(k * k, v, d - 1) as i64])[i] == c);
        }
    }
}

/// The same among the clauses of the first `i` corners.
proof fn lemma_away_has(k: int, hole: Seq<Point>, vs: Seq<Point>, i: int, c: int, e: int)
    requires
        0 <= c < i,
        0 <= e < k * k,
        dist2(nudge_in(k, vs[nearest(vs, hole[c], vs.len() as int)], e), hole[c]) > dist2(
            vs[nearest(vs, hole[c], vs.len() as int)],
            hole[c],
        ),
    ensures
        away_clauses(k, hole, vs, i).contains(
            seq![-lit_in(k * k, nearest(vs, hole[c], vs.len() as int), e) as i64],
        ),
    decreases i,
{
    let cl = seq![-lit_in(k * k, nearest(vs, hole[c], vs.len() as int), e) as i64];
    let a = away_clauses(k, hole, vs, i - 1);
    let b = away_clauses_of(k, vs, hole[i - 1], k * k);
    if c == i - 1 {
        lemma_away_of_has(k, vs, hole[c], k * k, e);
        let j = choose|j: int| 0 <= j < b.len() && #[trigger] b[j] == cl;
        assert((a + b)[a.len() + j] == cl);
    } else {
        lemma_away_has(k, hole, vs, i - 1, c, e);
        let j = choose|j: int| 0 <= j < a.len() && #[trigger] a[j] == cl;
        assert((a + b)[j] == cl);
    }
}

/// Each variable of `toward_lits_of` is that of a direction taking the
/// vertex nearest to `h` nearer to it.
proof fn lemma_toward_of_lits(k: int, vs: Seq<Point>, h: Point, d: int, j: int)
    requires
        0 <= j < toward_lits_of(k, vs, h, d).len(),
    ensures
        exists|e: int|
            0 <= e < d && toward_lits_of(k, vs, h, d)[j] == lit_in(
                k * k,
                nearest(vs, h, vs.len() as int),
                e,
            ) as i64 && #[trigger] dist2(nudge_in(k, vs[nearest(vs, h, vs.len() as int)], e), h)
                < dist2(vs[nearest(vs, h, vs.len() as int)], h),
    decreases d,
{
    let v = nearest(vs, h, vs.len() as int);
    let prev = toward_lits_of(k, vs, h, d - 1);
    if dist2(nudge_in(k, vs[v], d - 1), h) < dist2(vs[v], h) {
        if j < prev.len() {
            lemma_toward_of_lits(k, vs, h, d - 1, j);
            let e = choose|e: int|
                0 <= e < d - 1 && prev[j] == lit_in(k * k, v, e) as i64 && #[trigger] dist2(
                    nudge_in(k, vs[v], e),
                    h,
                ) < dist2(vs[v], h);
            assert(toward_lits_of(k, vs, h, d)[j] == prev[j]);
            assert(dist2(nudge_in(k, vs[v], e), h) < dist2(vs[v], h));
        } else {
            assert(dist2(nudge_in(k, vs[v], d - 1), h) < dist2(vs[v], h));
        }
    } else {
        lemma_toward_of_lits(k, vs, h, d - 1, j);
        let e = choose|e: int|
            0 <= e < d - 1 && prev[j] == lit_in(k * k, v, e) as i64 && #[trigger] dist2(
                nudge_in(k, vs[v], e),
                h,
            ) < dist2(vs[v], h);
        assert(dist2(nudge_in(k, vs[v], e), h) < dist2(vs[v], h));
    }
}

/// Each variable of `toward_lits` is that of a direction taking the vertex
/// nearest to one of the first `i` corners nearer to it.
proof fn lemma_toward_lits(k: int, hole: Seq<Point>, vs: Seq<Point>, i: int, j: int)
    requires
        0 <= j < toward_lits(k, hole, vs, i).len(),
    ensures
        exists|c: int, e: int|
            0 <= c < i && 0 <= e < k * k && toward_lits(k, hole, vs, i)[j] == lit_in(
                k * k,
                nearest(vs, hole[c], vs.len() as int),
                e,
            ) as i64 && #[trigger] dist2(
                nudge_in(k, vs[nearest(vs, hole[c], vs.len() as int)], e),
                hole[c],
            ) < dist2(vs[nearest(vs, hole[c], vs.len() as int)], hole[c]),
    decreases i,
{
    let a = toward_lits(k, hole, vs, i - 1);
    let b = toward_lits_of(k, vs, hole[i - 1], k * k);
    if j < a.len() {
        lemma_toward_lits(k, hole, vs, i - 1, j);
        let (c, e) = choose|c: int, e: int|
            0 <= c < i - 1 && 0 <= e < k * k && a[j] == lit_in(
                k * k,
                nearest(vs, hole[c], vs.len() as int),
                e,
            ) as i64 && #[trigger] dist2(
                nudge_in(k, vs[nearest(vs, hole[c], vs.len() as int)], e),
                hole[c],
            ) < dist2(vs[nearest(vs, hole[c], vs.len() as int)], hole[c]);
        assert((a + b)[j] == a[j]);
        assert(dist2(nudge_in(k, vs[nearest(vs, hole[c], vs.len() as int)], e), hole[c]) < dist2(
            vs[nearest(vs, hole[c], vs.len() as int)],
            hole[c],
        ));
    } else {
        lemma_toward_of_lits(k, vs, hole[i - 1], k * k, j - a.len());
        let c = i - 1;
        let e = choose|e: int|
            0 <= e < k * k && b[j - a.len()] == lit_in(
                k * k,
                nearest(vs, hole[c], vs.len() as int),
                e,
            ) as i64 && #[trigger] dist2(nudge_in(k, vs[nearest(vs, hole[c], vs.len() as int)], e), hole[c])
                < dist2(vs[nearest(vs, hole[c], vs.len() as int)], hole[c]);
        assert((a + b)[j] == b[j - a.len()]);
        assert(dist2(nudge_in(k, vs[nearest(vs, hole[c], vs.len() as int)], e), hole[c]) < dist2(
            vs[nearest(vs, hole[c], vs.len() as int)],
            hole[c],
        ));
    }
}

/// The position a model of the climber's clauses chooses for vertex `v`.
pub open spec fn climb_choice(k: int, sol: Seq<bool>, vs: Seq<Point>, v: int) -> Point {
    chosen_in(k, sol, v, vs[v], k * k)
}

/// The direction in which the assignment `sol` moves vertex `v` among the
/// `k * k` of its square.
pub open spec fn climb_dir(k: int, sol: Seq<bool>, v: int) -> int {
    choose|e: int| 0 <= e < k * k && #[trigger] sol[lit_in(k * k, v, e)]
}

/// Under a model of the one-hot clauses, each vertex moves within its
/// square, in the one direction whose variable is true.
proof fn lemma_climb_choice_moves(k: int, sol: Seq<bool>, vs: Seq<Point>)
    requires
        1 <= k <= 1000,
        vs.len() <= 1000000000000,
        satisfies_all(sol, one_hot_clauses(k, vs.len() as int)),
    ensures
        forall|v: int|
            0 <= v < vs.len() ==> 0 <= #[trigger] climb_dir(k, sol, v) < k * k && climb_choice(
                k,
                sol,
                vs,
                v,
            ) == nudge_in(k, vs[v], climb_dir(k, sol, v)),
{
    assert forall|v: int| 0 <= v < vs.len() implies 0 <= #[trigger] climb_dir(k, sol, v) < k * k
        && climb_choice(k, sol, vs, v) == nudge_in(k, vs[v], climb_dir(k, sol, v)) by {
        let e = lemma_model_direction_in(k, sol, vs, v);
        let c = climb_dir(k, sol, v);
        assert(sol[lit_in(k * k, v, e)]);
        assert(sol[lit_in(k * k, v, c)] && 0 <= c < k * k);
        if c != e {
            assert(!sol[lit_in(k * k, v, c)]);
        }
    }
}

/// A model of the climber's clauses gives a valid step that gets nearer to
/// the corners: every vertex moves within its square and stays in the hole,
/// every edge stays in the hole with no penalty, no vertex nearest to a
/// corner of the hole gets farther from it, and one of them gets nearer.
pub proof fn lemma_climb_model(k: int, input: Input, vs: Seq<Point>, sol: Seq<bool>)
    requires
        1 <= k <= 1000,
        vs.len() <= 1000000000000,
        input.hole@.len() > 0 ==> vs.len() > 0,
        forall|i: int|
            0 <= i < input.figure.edges@.len() ==> (#[trigger] input.figure.edges@[i]).0 < vs.len()
                && input.figure.edges@[i].1 < vs.len(),
        satisfies_all(sol, climb_clauses(k, input, vs)),
    ensures
        forall|v: int|
            0 <= v < vs.len() ==> 0 <= #[trigger] climb_dir(k, sol, v) < k * k && climb_choice(
                k,
                sol,
                vs,
                v,
            ) == nudge_in(k, vs[v], climb_dir(k, sol, v)),
        forall|v: int|
            0 <= v < vs.len() ==> crate::polygon::contains_p_spec(
                input.hole@,
                #[trigger] climb_choice(k, sol, vs, v),
            ) != -1,
        forall|i: int|
            0 <= i < input.figure.edges@.len() ==> {
                let e = #[trigger] input.figure.edges@[i];
                let p1 = climb_choice(k, sol, vs, e.0 as int);
                let p2 = climb_choice(k, sol, vs, e.1 as int);
                &&& crate::polygon::contains_s_spec(input.hole@, p1, p2)
                &&& edge_penalty_spec(input, e.0 as int, e.1 as int, p1, p2) < 1
            },
        forall|c: int|
            0 <= c < input.hole@.len() ==> dist2(
                climb_choice(k, sol, vs, nearest(vs, input.hole@[c], vs.len() as int)),
                input.hole@[c],
            ) <= dist2(#[trigger] vs[nearest(vs, input.hole@[c], vs.len() as int)], input.hole@[c]),
        exists|c: int|
            0 <= c < input.hole@.len() && dist2(
                climb_choice(k, sol, vs, nearest(vs, input.hole@[c], vs.len() as int)),
                input.hole@[c],
            ) < dist2(#[trigger] vs[nearest(vs, input.hole@[c], vs.len() as int)], input.hole@[c]),
{
    let n = vs.len() as int;
    let h = input.hole@.len() as int;
    let hole = input.hole@;
    let oh = one_hot_clauses(k, n);
    let aw = away_clauses(k, hole, vs, h);
    let tw = toward_lits(k, hole, vs, h);
    let out = outside_clauses(k, hole, vs, n);
    let m = input.figure.edges@.len() as int;
    let ed = edge_clauses(k, input, vs, 1, m);
    assert(climb_clauses(k, input, vs) == (oh + aw).push(tw) + out + ed);
    lemma_satisfies_concat(sol, (oh + aw).push(tw) + out, ed);
    lemma_satisfies_concat(sol, (oh + aw).push(tw), out);
    lemma_satisfies_push(sol, oh + aw, tw);
    lemma_satisfies_concat(sol, oh, aw);
    lemma_climb_choice_moves(k, sol, vs);
    assert forall|v: int| 0 <= v < n implies crate::polygon::contains_p_spec(
        hole,
        #[trigger] climb_choice(k, sol, vs, v),
    ) != -1 by {
        let e = lemma_model_direction_in(k, sol, vs, v);
        lemma_model_outside(k, hole, vs, sol, v, e);
    }
    assert forall|i: int| 0 <= i < m implies {
        let e = #[trigger] input.figure.edges@[i];
        let p1 = climb_choice(k, sol, vs, e.0 as int);
        let p2 = climb_choice(k, sol, vs, e.1 as int);
        &&& crate::polygon::contains_s_spec(hole, p1, p2)
        &&& edge_penalty_spec(input, e.0 as int, e.1 as int, p1, p2) < 1
    } by {
        let e = input.figure.edges@[i];
        let g = lemma_model_direction_in(k, sol, vs, e.0 as int);
        let f = lemma_model_direction_in(k, sol, vs, e.1 as int);
        lemma_model_edge(k, input, vs, 1, sol, i, g, f);
    }
    assert forall|c: int| 0 <= c < h implies dist2(
        climb_choice(k, sol, vs, nearest(vs, hole[c], n)),
        hole[c],
    ) <= dist2(#[trigger] vs[nearest(vs, hole[c], n)], hole[c]) by {
        let v = nearest(vs, hole[c], n);
        lemma_nearest_in(vs, hole[c], n);
        let e = lemma_model_direction_in(k, sol, vs, v);
        if dist2(nudge_in(k, vs[v], e), hole[c]) > dist2(vs[v], hole[c]) {
            let cl = seq![-lit_in(k * k, v, e) as i64];
            lemma_away_has(k, hole, vs, h, c, e);
            lemma_satisfies_member(sol, aw, cl);
            lemma_lit_fits(k, v, e);
            assert(lit_true(sol, cl[0]));
        }
    }
    let j = choose|j: int| 0 <= j < tw.len() && #[trigger] lit_true(sol, tw[j]);
    lemma_toward_lits(k, hole, vs, h, j);
    let (c, e) = choose|c: int, e: int|
        0 <= c < h && 0 <= e < k * k && tw[j] == lit_in(k * k, nearest(vs, hole[c], n), e) as i64
            && #[trigger] dist2(nudge_in(k, vs[nearest(vs, hole[c], n)], e), hole[c]) < dist2(
            vs[nearest(vs, hole[c], n)],
            hole[c],
        );
    let v = nearest(vs, hole[c], n);
    lemma_nearest_in(vs, hole[c], n);
    lemma_lit_fits(k, v, e);
    assert(sol[lit_in(k * k, v, e)]);
    let e2 = lemma_model_direction_in(k, sol, vs, v);
    assert(e2 == e);
    assert(dist2(climb_choice(k, sol, vs, v), hole[c]) < dist2(vs[v], hole[c]));
}

/// A side of the square of moves that the search tries: a positive odd
/// number.
pub open spec fn is_side(n: int) -> bool {
    n > 0 && n % 2 == 1
}

/// The smallest side in `lo..=hi`, if any.
pub open spec fn first_side_spec(lo: int, hi: int) -> Option<int> {
    let c = if lo <= 1 {
        1
    } else if lo % 2 == 1 {
        lo
    } else {
        lo + 1
    };
    if c <= hi {
        Some(c)
    } else {
        None
    }
}

/// The smallest side in `lo..=hi`: `None` exactly when that range holds no
/// side.
pub fn first_side(lo: i64, hi: i64) -> (r: Option<i64>)
    ensures
        r == (match first_side_spec(lo as int, hi as int) {
            Some(c) => Some(c as i64),
            None => None,
        }),
        r matches Some(c) ==> is_side(c as int) && lo <= c <= hi && forall|n: int|
            lo <= n < c ==> !#[trigger] is_side(n),
        r is None ==> forall|n: int| lo <= n <= hi ==> !#[trigger] is_side(n),
{
    if lo <= 1 {
        if 1 <= hi {
            Some(1)
        } else {
            None
        }
    } else if lo % 2 == 1 {
        if lo <= hi {
            Some(lo)
        } else {
            None
        }
    } else if lo < hi {
        Some(lo + 1)
    } else {
        None
    }
}

/// Where the search stands: the steps it has taken, and the side it tried
/// last in the current round (`None` before the round's first try).
#[derive(Clone, Copy, Debug, PartialEq, Eq, Structural)]
pub struct SearchState {
    pub steps: i64,
    pub tried: Option<i64>,
}

/// What the search does next.
#[derive(Clone, Copy, Debug, PartialEq, Eq, Structural)]
pub enum SearchAction {
    /// Try a step with a square of this side.
    Try(i64),
    /// Stop; `true` when some step was taken, so the current positions are
    /// the result, `false` when none was and there is no result.
    Finish(bool),
}

/// The search's next state and action, given whether the step tried last
/// (`state.tried`) found new positions. A found step is taken and a new round
/// starts with the smallest side from `min_neighbor`; after a failed one the
/// next larger side is tried. When no side up to `max_neighbor` is left, the
/// search finishes, with a result when it has taken a step.
pub fn search_next(min_neighbor: i64, max_neighbor: i64, state: SearchState, found: bool) -> (r: (
    SearchState,
    SearchAction,
))
    requires
        state.steps < i64::MAX,
    ensures
        r.0.steps == if state.tried is Some && found {
            state.steps + 1
        } else {
            state.steps as int
        },
        ({
            let lo = match state.tried {
                Some(n) => if found {
                    min_neighbor as int
                } else {
                    n + 1
                },
                None => min_neighbor as int,
            };
            match first_side_spec(lo, max_neighbor as int) {
                Some(c) => r.0.tried == Some(c as i64) && r.1 == SearchAction::Try(c as i64),
                None => r.0.tried is None && r.1 == SearchAction::Finish(r.0.steps > 0),
            }
        }),
{
    let mut steps = state.steps;
    let next = match state.tried {
        Some(n) => {
            if found {
                steps = steps + 1;
                first_side(min_neighbor, max_neighbor)
            } else if n < max_neighbor {
                first_side(n + 1, max_neighbor)
            } else {
                None
            }
        },
        None => first_side(min_neighbor, max_neighbor),
    };
    match next {
        Some(c) => (SearchState { steps, tried: Some(c) }, SearchAction::Try(c)),
        None => (SearchState { steps, tried: None }, SearchAction::Finish(steps > 0)),
    }
}

} // verus!
