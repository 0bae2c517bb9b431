use vstd::prelude::*;
use crate::geom::{all_in_range, dist2, fits, in_range, trunc_div, Point, P};
use crate::problem::Input;
use crate::segment::{imax, lemma_range_diffs4};

verus! {

// ---------------------------------------------------------------------------
// Penalties
// ---------------------------------------------------------------------------

/// How far the squared length `after` lies outside the band of `epsilon`
/// millionths around `before`, scaled by a million; 0 inside the band.
pub open spec fn penalty(before: int, after: int, epsilon: int) -> int {
    let over = after * 1000000 - before * (1000000 + epsilon);
    let under = before * (1000000 - epsilon) - after * 1000000;
    imax(imax(0, over), under)
}

/// The penalty is computed in `i64` without overflow.
pub open spec fn penalty_fits(before: int, after: int, epsilon: int) -> bool {
    &&& fits(1000000 + epsilon)
    &&& fits(1000000 - epsilon)
    &&& fits(after * 1000000)
    &&& fits(before * (1000000 + epsilon))
    &&& fits(before * (1000000 - epsilon))
    &&& fits(after * 1000000 - before * (1000000 + epsilon))
    &&& fits(before * (1000000 - epsilon) - after * 1000000)
}

/// The penalty of the edge between the figure's vertices `v1` and `v2` when
/// they are placed at `p1` and `p2`.
pub open spec fn edge_penalty_spec(input: Input, v1: int, v2: int, p1: Point, p2: Point) -> int {
    penalty(
        dist2(input.figure.vertices@[v1], input.figure.vertices@[v2]),
        dist2(p1, p2),
        input.epsilon as int,
    )
}

/// `edge_penalty` can be computed for these arguments.
pub open spec fn edge_penalty_ok(input: Input, v1: int, v2: int, p1: Point, p2: Point) -> bool {
    &&& 0 <= v1 < input.figure.vertices@.len()
    &&& 0 <= v2 < input.figure.vertices@.len()
    &&& all_in_range(input.figure.vertices@)
    &&& in_range(p1)
    &&& in_range(p2)
    &&& penalty_fits(
        dist2(input.figure.vertices@[v1], input.figure.vertices@[v2]),
        dist2(p1, p2),
        input.epsilon as int,
    )
}

/// The penalty of the edge between the figure's vertices `v1` and `v2` when
/// they are placed at `p1` and `p2`: how far its squared length leaves the
/// tolerated band, scaled by a million.
pub fn edge_penalty(input: &Input, v1: usize, v2: usize, p1: Point, p2: Point) -> (r: i64)
    requires
        edge_penalty_ok(*input, v1 as int, v2 as int, p1, p2),
    ensures
        r == edge_penalty_spec(*input, v1 as int, v2 as int, p1, p2),
        r >= 0,
        (r == 0) == ({
            let before = dist2(input.figure.vertices@[v1 as int], input.figure.vertices@[v2 as int]);
            let after = dist2(p1, p2);
            before * (1000000 - input.epsilon) <= after * 1000000 <= before * (1000000
                + input.epsilon)
        }),
{
    let f1 = input.figure.vertices[v1];
    let f2 = input.figure.vertices[v2];
    proof {
        lemma_range_diffs4(f1, f2, f1, f2);
        lemma_range_diffs4(p1, p2, p1, p2);
    }
    let abs2_before = (f1 - f2).abs2();
    let abs2_after = (p1 - p2).abs2();
    let penalty1 = abs2_after * 1_000_000 - abs2_before * (1_000_000 + input.epsilon);
    let penalty2 = abs2_before * (1_000_000 - input.epsilon) - abs2_after * 1_000_000;
    let mut most: i64 = 0;
    if penalty1 > most {
        most = penalty1;
    }
    if penalty2 > most {
        most = penalty2;
    }
    most
}

/// The penalty of the figure's edge `i` under the positions `vs`.
pub open spec fn edge_penalty_at(input: Input, vs: Seq<Point>, i: int) -> int {
    let e = input.figure.edges@[i];
    edge_penalty_spec(input, e.0 as int, e.1 as int, vs[e.0 as int], vs[e.1 as int])
}

/// Every edge's penalty under the positions `vs` can be computed.
pub open spec fn penalties_ok(input: Input, vs: Seq<Point>) -> bool {
    &&& vs.len() == input.figure.vertices@.len()
    &&& all_in_range(vs)
    &&& forall|i: int|
        0 <= i < input.figure.edges@.len() ==> {
            let e = #[trigger] input.figure.edges@[i];
            &&& e.0 < vs.len()
            &&& e.1 < vs.len()
            &&& edge_penalty_ok(input, e.0 as int, e.1 as int, vs[e.0 as int], vs[e.1 as int])
        }
}

/// The repair's next move under the positions `vertices`: `None` when no
/// edge has a positive penalty (the repair is done), else the largest
/// penalty, which the next step must bring every edge below.
pub fn repair_limit(input: &Input, vertices: &Vec<Point>) -> (r: Option<i64>)
    requires
        penalties_ok(*input, vertices@),
    ensures
        r is None <==> forall|i: int|
            0 <= i < input.figure.edges@.len() ==> #[trigger] edge_penalty_at(*input, vertices@, i)
                <= 0,
        r matches Some(l) ==> {
            &&& l > 0
            &&& forall|i: int|
                0 <= i < input.figure.edges@.len() ==> #[trigger] edge_penalty_at(
                    *input,
                    vertices@,
                    i,
                ) <= l
            &&& exists|i: int|
                0 <= i < input.figure.edges@.len() && #[trigger] edge_penalty_at(*input, vertices@, i)
                    == l
        },
{
    let (largest, at) = find_largest_penalty(input, vertices);
    match at {
        Some(k) => {
            assert(edge_penalty_at(*input, vertices@, k as int) == largest);
            Some(largest)
        },
        None => None,
    }
}

/// The largest edge penalty under the positions `vertices`, with the first
/// edge that has it; `(0, None)` when no edge has a positive penalty.
pub fn find_largest_penalty(input: &Input, vertices: &Vec<Point>) -> (r: (i64, Option<usize>))
    requires
        penalties_ok(*input, vertices@),
    ensures
        r.0 >= 0,
        forall|i: int|
            0 <= i < input.figure.edges@.len() ==> #[trigger] edge_penalty_at(
                *input,
                vertices@,
                i,
            ) <= r.0,
        r.1 is None ==> r.0 == 0,
        r.1 matches Some(k) ==> {
            &&& k < input.figure.edges@.len()
            &&& r.0 > 0
            &&& edge_penalty_at(*input, vertices@, k as int) == r.0
            &&& forall|i: int|
                0 <= i < k ==> #[trigger] edge_penalty_at(*input, vertices@, i) < r.0
        },
{
    let mut most: (i64, Option<usize>) = (0, None);
    let m = input.figure.edges.len();
    for ei in 0..m
        invariant
            m == input.figure.edges@.len(),
            penalties_ok(*input, vertices@),
            most.0 >= 0,
            forall|i: int|
                0 <= i < ei ==> #[trigger] edge_penalty_at(*input, vertices@, i) <= most.0,
            most.1 is None ==> most.0 == 0,
            most.1 matches Some(k) ==> {
                &&& k < ei
                &&& most.0 > 0
                &&& edge_penalty_at(*input, vertices@, k as int) == most.0
                &&& forall|i: int|
                    0 <= i < k ==> #[trigger] edge_penalty_at(*input, vertices@, i) < most.0
            },
    {
        let e = input.figure.edges[ei];
        assert(e == input.figure.edges@[ei as int]);
        let penalty = edge_penalty(input, e.0, e.1, vertices[e.0], vertices[e.1]);
        if penalty > most.0 {
            most = (penalty, Some(ei));
        }
    }
    most
}

// ---------------------------------------------------------------------------
// Variables of the encoding
// ---------------------------------------------------------------------------

/// The variable that says "vertex `v` moves in direction `d`" when each
/// vertex has `c` directions: variables `1 + c v` to `c + c v` belong to
/// vertex `v`.
pub open spec fn lit_in(c: int, v: int, d: int) -> int {
    1 + v * c + d
}

/// The variable that says "vertex `v` moves in direction `d`" among nine.
pub open spec fn lit_spec(v: int, d: int) -> int {
    lit_in(9, v, d)
}

/// The variable that says "vertex `v` moves in direction `d`": variables
/// `1 + 9 v` to `9 + 9 v` belong to vertex `v`.
pub fn lit(v: usize, d: i64) -> (r: i64)
    requires
        v <= i64::MAX,
        fits(v * 9),
        fits(1 + v * 9),
        fits(lit_spec(v as int, d as int)),
    ensures
        r == lit_spec(v as int, d as int),
{
    1 + (v as i64) * 9 + d
}

/// The variable of vertex `v` and direction `d` among `c`.
pub fn lit_of(c: i64, v: usize, d: i64) -> (r: i64)
    requires
        0 <= c <= 1000000,
        v <= 1000000000000,
        -1000000 <= d <= 1000000,
    ensures
        r == lit_in(c as int, v as int, d as int),
{
    assert(0 <= v * c <= 1000000000000 * 1000000) by (nonlinear_arith)
        requires
            0 <= c <= 1000000,
            0 <= v <= 1000000000000,
    ;
    1 + (v as i64) * c + d
}

/// The offset of direction `d` in a `k` by `k` neighbourhood:
/// `(d % k - (k - 1) / 2, d / k - (k - 1) / 2)`, with the remainder and
/// quotient of division rounding toward zero.
pub open spec fn dv_in(k: int, d: int) -> Point {
    P((d - k * trunc_div(d, k) - (k - 1) / 2) as i64, (trunc_div(d, k) - (k - 1) / 2) as i64)
}

/// The offset of direction `d` among nine: directions 0 to 8 are the nine
/// offsets with coordinates in -1..=1, 4 being no move.
pub open spec fn dv_spec(d: int) -> Point {
    dv_in(3, d)
}

/// The offset of direction `d`.
pub fn dv(d: i64) -> (r: Point)
    ensures
        r == dv_spec(d as int),
{
    P(d % 3 - 1, d / 3 - 1)
}

/// The offset of direction `d` in a `k` by `k` neighbourhood.
pub fn dv_of(k: i64, d: i64) -> (r: Point)
    requires
        1 <= k,
        0 <= d < k * k,
    ensures
        r == dv_in(k as int, d as int),
{
    proof {
        lemma_dv_in_small(k as int, d as int);
    }
    P(d % k - (k - 1) / 2, d / k - (k - 1) / 2)
}

/// In a neighbourhood of side `k`, the offsets of the `k * k` directions
/// have coordinates between `-k` and `k`.
pub proof fn lemma_dv_in_small(k: int, d: int)
    requires
        1 <= k,
        0 <= d < k * k,
    ensures
        -k <= dv_in(k, d).0 <= k,
        -k <= dv_in(k, d).1 <= k,
        0 <= trunc_div(d, k) < k,
        trunc_div(d, k) == d / k,
        d - k * trunc_div(d, k) == d % k,
{
    let q = d / k;
    let r = d % k;
    vstd::arithmetic::div_mod::lemma_fundamental_div_mod(d, k);
    vstd::arithmetic::div_mod::lemma_mod_pos_bound(d, k);
    vstd::arithmetic::div_mod::lemma_div_pos_is_pos(d, k);
    if q >= k {
        assert(k * q >= k * k) by (nonlinear_arith)
            requires
                q >= k,
                k >= 1,
        ;
    }
    assert(trunc_div(d, k) == q);
    assert(d - k * q == r);
}

// ---------------------------------------------------------------------------
// Clauses
// ---------------------------------------------------------------------------

/// The clauses as sequences of literals.
pub open spec fn clauses_view(c: Seq<Vec<i64>>) -> Seq<Seq<i64>> {
    Seq::new(c.len(), |i: int| c[i]@)
}

/// `p` moved in direction `d` of a neighbourhood of side `k`.
pub open spec fn nudge_in(k: int, p: Point, d: int) -> Point {
    P((p.0 + dv_in(k, d).0) as i64, (p.1 + dv_in(k, d).1) as i64)
}

/// The clause "vertex `v` moves in some direction".
pub open spec fn all_lits(k: int, v: int) -> Seq<i64> {
    Seq::new((k * k) as nat, |d: int| lit_in(k * k, v, d) as i64)
}

/// The clauses "vertex `v` does not move both in directions `j` and `i`",
/// for `j < i < m`, by increasing `i` then `j`.
pub open spec fn exclusion_pairs(k: int, v: int, m: int) -> Seq<Seq<i64>>
    decreases m,
{
    if m <= 0 {
        Seq::empty()
    } else {
        exclusion_pairs(k, v, m - 1) + Seq::new(
            (m - 1) as nat,
            |j: int| seq![-lit_in(k * k, v, j) as i64, -lit_in(k * k, v, m - 1) as i64],
        )
    }
}

/// The clauses that let each of the first `n` vertices move in exactly one
/// direction.
pub open spec fn one_hot_clauses(k: int, n: int) -> Seq<Seq<i64>>
    decreases n,
{
    if n <= 0 {
        Seq::empty()
    } else {
        one_hot_clauses(k, n - 1).push(all_lits(k, n - 1)) + exclusion_pairs(k, n - 1, k * k)
    }
}

/// The clauses that keep in place those of the first `n` vertices that sit
/// on a corner of the hole.
pub open spec fn corner_clauses(hole: Seq<Point>, vs: Seq<Point>, n: int) -> Seq<Seq<i64>>
    decreases n,
{
    if n <= 0 {
        Seq::empty()
    } else if hole.contains(vs[n - 1]) {
        corner_clauses(hole, vs, n - 1).push(seq![lit_spec(n - 1, 4) as i64])
    } else {
        corner_clauses(hole, vs, n - 1)
    }
}

/// The clauses that forbid vertex `v` the first `d` directions where it
/// would leave the hole.
pub open spec fn outside_clauses_of(k: int, hole: Seq<Point>, vs: Seq<Point>, v: int, d: int) -> Seq<
    Seq<i64>,
>
    decreases d,
{
    if d <= 0 {
        Seq::empty()
    } else if crate::polygon::contains_p_spec(hole, nudge_in(k, vs[v], d - 1)) == -1 {
        outside_clauses_of(k, hole, vs, v, d - 1).push(seq![-lit_in(k * k, v, d - 1) as i64])
    } else {
        outside_clauses_of(k, hole, vs, v, d - 1)
    }
}

/// The clauses that keep the first `n` vertices in the hole.
pub open spec fn outside_clauses(k: int, hole: Seq<Point>, vs: Seq<Point>, n: int) -> Seq<Seq<i64>>
    decreases n,
{
    if n <= 0 {
        Seq::empty()
    } else {
        outside_clauses(k, hole, vs, n - 1) + outside_clauses_of(k, hole, vs, n - 1, k * k)
    }
}

/// Moving the ends of the edge `e` in directions `d1` and `d2` keeps the
/// edge in the hole with a penalty under `limit`.
pub open spec fn move_allowed(
    k: int,
    input: Input,
    vs: Seq<Point>,
    limit: int,
    e: (usize, usize),
    d1: int,
    d2: int,
) -> bool {
    let tp1 = nudge_in(k, vs[e.0 as int], d1);
    let tp2 = nudge_in(k, vs[e.1 as int], d2);
    &&& crate::polygon::contains_s_spec(input.hole@, tp1, tp2)
    &&& edge_penalty_spec(input, e.0 as int, e.1 as int, tp1, tp2) < limit
}

/// The clauses that forbid the moves `(d1, d2')` of the ends of `e` that are
/// not allowed, for `d2' < d2`.
pub open spec fn edge_row(
    k: int,
    input: Input,
    vs: Seq<Point>,
    limit: int,
    e: (usize, usize),
    d1: int,
    d2: int,
) -> Seq<Seq<i64>>
    decreases d2,
{
    if d2 <= 0 {
        Seq::empty()
    } else if !move_allowed(k, input, vs, limit, e, d1, d2 - 1) {
        edge_row(k, input, vs, limit, e, d1, d2 - 1).push(
            seq![-lit_in(k * k, e.0 as int, d1) as i64, -lit_in(k * k, e.1 as int, d2 - 1) as i64],
        )
    } else {
        edge_row(k, input, vs, limit, e, d1, d2 - 1)
    }
}

/// The clauses that forbid the moves of the ends of `e` that are not
/// allowed, with the first end's direction below `d1`.
pub open spec fn edge_block(
    k: int,
    input: Input,
    vs: Seq<Point>,
    limit: int,
    e: (usize, usize),
    d1: int,
) -> Seq<Seq<i64>>
    decreases d1,
{
    if d1 <= 0 {
        Seq::empty()
    } else {
        edge_block(k, input, vs, limit, e, d1 - 1) + edge_row(k, input, vs, limit, e, d1 - 1, k * k)
    }
}

/// The clauses for the first `m` edges of the figure.
pub open spec fn edge_clauses(k: int, input: Input, vs: Seq<Point>, limit: int, m: int) -> Seq<
    Seq<i64>,
>
    decreases m,
{
    if m <= 0 {
        Seq::empty()
    } else {
        edge_clauses(k, input, vs, limit, m - 1) + edge_block(
            k,
            input,
            vs,
            limit,
            input.figure.edges@[m - 1],
            k * k,
        )
    }
}

/// All the clauses of one step, in the order they are generated.
pub open spec fn clauses_spec(input: Input, vs: Seq<Point>, limit: int) -> Seq<Seq<i64>> {
    let n = vs.len() as int;
    one_hot_clauses(3, n) + corner_clauses(input.hole@, vs, n) + outside_clauses(
        3,
        input.hole@,
        vs,
        n,
    ) + edge_clauses(3, input, vs, limit, input.figure.edges@.len() as int)
}

/// Every vertex may move anywhere in its neighbourhood of side `k` and stay
/// in range, the variables fit in `i64`, and the penalty of every move of
/// every edge can be computed.
pub open spec fn moves_ok(k: int, input: Input, vs: Seq<Point>) -> bool {
    &&& 1 <= k <= 1000
    &&& vs.len() == input.figure.vertices@.len()
    &&& vs.len() <= 1000000000000
    &&& all_in_range(input.hole@)
    &&& all_in_range(input.figure.vertices@)
    &&& forall|v: int|
        0 <= v < vs.len() ==> crate::geom::in_box(#[trigger] vs[v], crate::geom::COORD_LIMIT - k)
    &&& forall|i: int|
        0 <= i < input.figure.edges@.len() ==> (#[trigger] input.figure.edges@[i]).0 < vs.len()
            && input.figure.edges@[i].1 < vs.len()
    &&& forall|i: int, d1: int, d2: int|
        0 <= i < input.figure.edges@.len() && 0 <= d1 < k * k && 0 <= d2 < k * k
            ==> #[trigger] move_fits(k, input, vs, input.figure.edges@[i], d1, d2)
}

/// The clauses of one step can be generated.
pub open spec fn clauses_ok(input: Input, vs: Seq<Point>) -> bool {
    moves_ok(3, input, vs)
}

/// The penalty of moving the ends of `e` in directions `d1` and `d2` can be
/// computed.
pub open spec fn move_fits(k: int, input: Input, vs: Seq<Point>, e: (usize, usize), d1: int, d2: int) -> bool {
    penalty_fits(
        dist2(input.figure.vertices@[e.0 as int], input.figure.vertices@[e.1 as int]),
        dist2(nudge_in(k, vs[e.0 as int], d1), nudge_in(k, vs[e.1 as int], d2)),
        input.epsilon as int,
    )
}

/// The offsets of the nine directions have coordinates in -1..=1.
proof fn lemma_dv_small(d: int)
    requires
        0 <= d < 9,
    ensures
        -1 <= dv_spec(d).0 <= 1,
        -1 <= dv_spec(d).1 <= 1,
{
}

/// Appends one clause.
pub(crate) fn push_clause(clauses: &mut Vec<Vec<i64>>, c: Vec<i64>)
    ensures
        clauses_view(final(clauses)@) == clauses_view(old(clauses)@).push(c@),
{
    let ghost before = clauses@;
    let ghost cv = c@;
    clauses.push(c);
    assert(clauses_view(clauses@) =~= clauses_view(before).push(cv));
}

pub(crate) fn unit_clause(a: i64) -> (c: Vec<i64>)
    ensures
        c@ == seq![a],
{
    let mut c: Vec<i64> = Vec::new();
    c.push(a);
    assert(c@ =~= seq![a]);
    c
}

fn binary_clause(a: i64, b: i64) -> (c: Vec<i64>)
    ensures
        c@ == seq![a, b],
{
    let mut c: Vec<i64> = Vec::new();
    c.push(a);
    c.push(b);
    assert(c@ =~= seq![a, b]);
    c
}

/// Whether `p` is a vertex of the hole.
fn hole_has(hole: &Vec<Point>, p: Point) -> (b: bool)
    ensures
        b == hole@.contains(p),
{
    for i in 0..hole.len()
        invariant
            forall|j: int| 0 <= j < i ==> hole@[j] != p,
    {
        let q = hole[i];
        if q.0 == p.0 && q.1 == p.1 {
            assert(hole@[i as int] == p);
            return true;
        }
    }
    false
}

/// Appends the clauses that let vertex `v` move in exactly one of the
/// `c == k * k` directions.
pub(crate) fn push_one_hot(k: i64, c: i64, v: usize, clauses: &mut Vec<Vec<i64>>)
    requires
        1 <= k <= 1000,
        c == k * k,
        v < 1000000000000,
    ensures
        clauses_view(final(clauses)@) == clauses_view(old(clauses)@).push(all_lits(k as int, v as int))
            + exclusion_pairs(k as int, v as int, c as int),
{
    assert(c <= 1000000) by (nonlinear_arith)
        requires
            1 <= k <= 1000,
            c == k * k,
    ;
    let mut all: Vec<i64> = Vec::new();
    let mut d: i64 = 0;
    while d < c
        invariant
            0 <= d <= c <= 1000000,
            c == k * k,
            v < 1000000000000,
            all@ == Seq::new(d as nat, |j: int| lit_in(c as int, v as int, j) as i64),
        decreases c - d,
    {
        all.push(lit_of(c, v, d));
        assert(all@ =~= Seq::new((d + 1) as nat, |j: int| lit_in(c as int, v as int, j) as i64));
        d = d + 1;
    }
    assert(all@ =~= all_lits(k as int, v as int));
    push_clause(clauses, all);
    let ghost base = clauses_view(clauses@);
    assert(base =~= base + exclusion_pairs(k as int, v as int, 0));
    let mut i: i64 = 0;
    while i < c
        invariant
            0 <= i <= c <= 1000000,
            c == k * k,
            v < 1000000000000,
            clauses_view(clauses@) == base + exclusion_pairs(k as int, v as int, i as int),
        decreases c - i,
    {
        let ghost row_base = clauses_view(clauses@);
        let mut j: i64 = 0;
        while j < i
            invariant
                0 <= j <= i < c <= 1000000,
                c == k * k,
                v < 1000000000000,
                clauses_view(clauses@) == row_base + Seq::new(
                    j as nat,
                    |t: int|
                        seq![-lit_in(c as int, v as int, t) as i64, -lit_in(c as int, v as int, i as int) as i64],
                ),
            decreases i - j,
        {
            let cl = binary_clause(-lit_of(c, v, j), -lit_of(c, v, i));
            push_clause(clauses, cl);
            assert(clauses_view(clauses@) =~= row_base + Seq::new(
                (j + 1) as nat,
                |t: int|
                    seq![-lit_in(c as int, v as int, t) as i64, -lit_in(c as int, v as int, i as int) as i64],
            ));
            j = j + 1;
        }
        assert(base + exclusion_pairs(k as int, v as int, i + 1) =~= row_base + Seq::new(
            i as nat,
            |t: int|
                seq![-lit_in(c as int, v as int, t) as i64, -lit_in(c as int, v as int, i as int) as i64],
        ));
        i = i + 1;
    }
}

/// Appends the clauses that forbid vertex `v` the directions where it would
/// leave the hole.
pub(crate) fn push_outside_of(
    k: i64,
    c: i64,
    hole: &Vec<Point>,
    vs: &Vec<Point>,
    v: usize,
    clauses: &mut Vec<Vec<i64>>,
)
    requires
        1 <= k <= 1000,
        c == k * k,
        all_in_range(hole@),
        v < vs@.len(),
        v < 1000000000000,
        crate::geom::in_box(vs@[v as int], crate::geom::COORD_LIMIT - k),
    ensures
        clauses_view(final(clauses)@) == clauses_view(old(clauses)@) + outside_clauses_of(
            k as int,
            hole@,
            vs@,
            v as int,
            c as int,
        ),
{
    assert(c <= 1000000) by (nonlinear_arith)
        requires
            1 <= k <= 1000,
            c == k * k,
    ;
    let ghost base = clauses_view(clauses@);
    assert(base =~= base + outside_clauses_of(k as int, hole@, vs@, v as int, 0));
    let mut d: i64 = 0;
    while d < c
        invariant
            0 <= d <= c <= 1000000,
            1 <= k <= 1000,
            c == k * k,
            all_in_range(hole@),
            v < vs@.len(),
            v < 1000000000000,
            crate::geom::in_box(vs@[v as int], crate::geom::COORD_LIMIT - k),
            clauses_view(clauses@) == base + outside_clauses_of(
                k as int,
                hole@,
                vs@,
                v as int,
                d as int,
            ),
        decreases c - d,
    {
        proof {
            lemma_dv_in_small(k as int, d as int);
        }
        let tp = vs[v] + dv_of(k, d);
        assert(tp == nudge_in(k as int, vs@[v as int], d as int));
        proof {
            crate::segment::lemma_seg_range(hole@);
        }
        if crate::geom::P::contains_p(hole, tp) == -1 {
            let cl = unit_clause(-lit_of(c, v, d));
            push_clause(clauses, cl);
        }
        assert(clauses_view(clauses@) =~= base + outside_clauses_of(
            k as int,
            hole@,
            vs@,
            v as int,
            d + 1,
        ));
        d = d + 1;
    }
}

/// Appends the clauses that forbid the moves of the ends of the figure's
/// edge `ei` that are not allowed.
pub(crate) fn push_edge_block(
    k: i64,
    c: i64,
    input: &Input,
    vs: &Vec<Point>,
    limit: i64,
    ei: usize,
    clauses: &mut Vec<Vec<i64>>,
)
    requires
        c == k * k,
        moves_ok(k as int, *input, vs@),
        ei < input.figure.edges@.len(),
    ensures
        clauses_view(final(clauses)@) == clauses_view(old(clauses)@) + edge_block(
            k as int,
            *input,
            vs@,
            limit as int,
            input.figure.edges@[ei as int],
            c as int,
        ),
{
    assert(c <= 1000000) by (nonlinear_arith)
        requires
            1 <= k <= 1000,
            c == k * k,
    ;
    let e = input.figure.edges[ei];
    let (v1, v2) = e;
    assert(e == input.figure.edges@[ei as int]);
    let p1 = vs[v1];
    let p2 = vs[v2];
    assert(crate::geom::in_box(p1, crate::geom::COORD_LIMIT - k));
    assert(crate::geom::in_box(p2, crate::geom::COORD_LIMIT - k));
    let ghost base = clauses_view(clauses@);
    assert(base =~= base + edge_block(k as int, *input, vs@, limit as int, e, 0));
    let mut d1: i64 = 0;
    while d1 < c
        invariant
            0 <= d1 <= c <= 1000000,
            c == k * k,
            moves_ok(k as int, *input, vs@),
            ei < input.figure.edges@.len(),
            e == input.figure.edges@[ei as int],
            v1 == e.0,
            v2 == e.1,
            p1 == vs@[v1 as int],
            p2 == vs@[v2 as int],
            crate::geom::in_box(p1, crate::geom::COORD_LIMIT - k),
            crate::geom::in_box(p2, crate::geom::COORD_LIMIT - k),
            clauses_view(clauses@) == base + edge_block(
                k as int,
                *input,
                vs@,
                limit as int,
                e,
                d1 as int,
            ),
        decreases c - d1,
    {
        proof {
            lemma_dv_in_small(k as int, d1 as int);
        }
        let tp1 = p1 + dv_of(k, d1);
        let ghost row_base = clauses_view(clauses@);
        assert(row_base =~= row_base + edge_row(
            k as int,
            *input,
            vs@,
            limit as int,
            e,
            d1 as int,
            0,
        ));
        let mut d2: i64 = 0;
        while d2 < c
            invariant
                0 <= d1 < c <= 1000000,
                0 <= d2 <= c,
                c == k * k,
                moves_ok(k as int, *input, vs@),
                ei < input.figure.edges@.len(),
                e == input.figure.edges@[ei as int],
                v1 == e.0,
                v2 == e.1,
                p2 == vs@[v2 as int],
                tp1 == nudge_in(k as int, vs@[v1 as int], d1 as int),
                in_range(tp1),
                crate::geom::in_box(p2, crate::geom::COORD_LIMIT - k),
                clauses_view(clauses@) == row_base + edge_row(
                    k as int,
                    *input,
                    vs@,
                    limit as int,
                    e,
                    d1 as int,
                    d2 as int,
                ),
            decreases c - d2,
        {
            proof {
                lemma_dv_in_small(k as int, d2 as int);
                assert(move_fits(
                    k as int,
                    *input,
                    vs@,
                    input.figure.edges@[ei as int],
                    d1 as int,
                    d2 as int,
                ));
            }
            let tp2 = p2 + dv_of(k, d2);
            assert(tp2 == nudge_in(k as int, vs@[v2 as int], d2 as int));
            let new_penalty = edge_penalty(input, v1, v2, tp1, tp2);
            let ok = crate::geom::P::contains_s(&input.hole, (tp1, tp2)) && new_penalty < limit;
            if !ok {
                let cl = binary_clause(-lit_of(c, v1, d1), -lit_of(c, v2, d2));
                push_clause(clauses, cl);
            }
            assert(clauses_view(clauses@) =~= row_base + edge_row(
                k as int,
                *input,
                vs@,
                limit as int,
                e,
                d1 as int,
                d2 + 1,
            ));
            d2 = d2 + 1;
        }
        assert(clauses_view(clauses@) =~= base + edge_block(
            k as int,
            *input,
            vs@,
            limit as int,
            e,
            d1 + 1,
        ));
        d1 = d1 + 1;
    }
}

/// The clauses of one step of the local search, for a SAT solver: each
/// vertex moves by at most one in each coordinate (in exactly one of nine
/// directions), vertices on a corner of the hole stay, no vertex leaves the
/// hole, and no edge leaves the hole or gets a penalty of `penalty_limit` or
/// more.
pub fn generate_clauses(input: &Input, vertices: &Vec<Point>, penalty_limit: i64) -> (r: Vec<
    Vec<i64>,
>)
    requires
        clauses_ok(*input, vertices@),
    ensures
        clauses_view(r@) == clauses_spec(*input, vertices@, penalty_limit as int),
{
    let mut clauses: Vec<Vec<i64>> = Vec::new();
    let n = vertices.len();
    let ghost vs = vertices@;
    let ghost hole = input.hole@;
    assert(clauses_view(clauses@) =~= one_hot_clauses(3, 0));
    for v in 0..n
        invariant
            n == vs.len(),
            vs == vertices@,
            clauses_ok(*input, vs),
            clauses_view(clauses@) == one_hot_clauses(3, v as int),
    {
        push_one_hot(3, 9, v, &mut clauses);
    }
    let ghost one_hot = one_hot_clauses(3, n as int);
    assert(clauses_view(clauses@) =~= one_hot + corner_clauses(hole, vs, 0));
    for v in 0..n
        invariant
            n == vs.len(),
            vs == vertices@,
            hole == input.hole@,
            clauses_ok(*input, vs),
            clauses_view(clauses@) == one_hot + corner_clauses(hole, vs, v as int),
    {
        if hole_has(&input.hole, vertices[v]) {
            let c = unit_clause(lit(v, 4));
            push_clause(&mut clauses, c);
        }
        assert(clauses_view(clauses@) =~= one_hot + corner_clauses(hole, vs, v + 1));
    }
    let ghost corners = one_hot + corner_clauses(hole, vs, n as int);
    assert(clauses_view(clauses@) =~= corners + outside_clauses(3, hole, vs, 0));
    for v in 0..n
        invariant
            n == vs.len(),
            vs == vertices@,
            hole == input.hole@,
            clauses_ok(*input, vs),
            clauses_view(clauses@) == corners + outside_clauses(3, hole, vs, v as int),
    {
        push_outside_of(3, 9, &input.hole, vertices, v, &mut clauses);
        assert(clauses_view(clauses@) =~= corners + outside_clauses(3, hole, vs, v + 1));
    }
    let ghost outside = corners + outside_clauses(3, hole, vs, n as int);
    let m = input.figure.edges.len();
    assert(clauses_view(clauses@) =~= outside + edge_clauses(
        3,
        *input,
        vs,
        penalty_limit as int,
        0,
    ));
    for ei in 0..m
        invariant
            m == input.figure.edges@.len(),
            vs == vertices@,
            clauses_ok(*input, vs),
            clauses_view(clauses@) == outside + edge_clauses(
                3,
                *input,
                vs,
                penalty_limit as int,
                ei as int,
            ),
    {
        push_edge_block(3, 9, input, vertices, penalty_limit, ei, &mut clauses);
        assert(clauses_view(clauses@) =~= outside + edge_clauses(
            3,
            *input,
            vs,
            penalty_limit as int,
            ei + 1,
        ));
    }
    clauses
}

// ---------------------------------------------------------------------------
// Solutions
// ---------------------------------------------------------------------------

/// Where the assignment `sol` puts vertex `v`, at `p` before the step, in a
/// neighbourhood of side `k`: moved in the last of the first `d` directions
/// whose variable is true, or left at `p` when none is.
pub open spec fn chosen_in(k: int, sol: Seq<bool>, v: int, p: Point, d: int) -> Point
    decreases d,
{
    if d <= 0 {
        p
    } else if sol[lit_in(k * k, v, d - 1)] {
        nudge_in(k, p, d - 1)
    } else {
        chosen_in(k, sol, v, p, d - 1)
    }
}

/// Where the assignment `sol` puts vertex `v` among nine directions.
pub open spec fn chosen_position(sol: Seq<bool>, v: int, p: Point, d: int) -> Point {
    chosen_in(3, sol, v, p, d)
}

/// Every move of every position in a neighbourhood of side `k` is computed
/// without overflow.
pub open spec fn moves_fit(k: int, positions: Seq<Point>) -> bool {
    forall|v: int, d: int|
        0 <= v < positions.len() && 0 <= d < k * k ==> #[trigger] move_fits_at(k, positions[v], d)
}

/// Moving `p` in direction `d` is computed without overflow.
pub open spec fn move_fits_at(k: int, p: Point, d: int) -> bool {
    fits(p.0 + dv_in(k, d).0) && fits(p.1 + dv_in(k, d).1)
}

/// The positions after a step in a neighbourhood of side `k` with `c == k *
/// k` directions.
pub(crate) fn reconstruct_in(k: i64, c: usize, positions: &Vec<Point>, solution: &Vec<bool>) -> (r: Vec<
    Point,
>)
    requires
        1 <= k <= 3037000499,
        c == k * k,
        positions@.len() > 0 ==> c * positions@.len() < solution@.len(),
        moves_fit(k as int, positions@),
    ensures
        r@.len() == positions@.len(),
        forall|v: int|
            0 <= v < positions@.len() ==> #[trigger] r@[v] == chosen_in(
                k as int,
                solution@,
                v,
                positions@[v],
                c as int,
            ),
{
    assert(c <= 9223372030926249001) by (nonlinear_arith)
        requires
            1 <= k <= 3037000499,
            c == k * k,
    ;
    let mut new_positions = crate::ugougo::copy_points(positions);
    let n = positions.len();
    for v in 0..n
        invariant
            1 <= k <= 3037000499,
            c == k * k,
            c <= 9223372030926249001,
            n == positions@.len(),
            n > 0 ==> c * n < solution@.len(),
            moves_fit(k as int, positions@),
            new_positions@.len() == n,
            forall|u: int|
                0 <= u < v ==> #[trigger] new_positions@[u] == chosen_in(
                    k as int,
                    solution@,
                    u,
                    positions@[u],
                    c as int,
                ),
            forall|u: int| v <= u < n ==> #[trigger] new_positions@[u] == positions@[u],
    {
        let p = positions[v];
        let mut d: usize = 0;
        while d < c
            invariant
                1 <= k <= 3037000499,
                c == k * k,
                c <= 9223372030926249001,
                0 <= d <= c,
                v < n,
                n == positions@.len(),
                    c * n < solution@.len(),
                moves_fit(k as int, positions@),
                p == positions@[v as int],
                new_positions@.len() == n,
                new_positions@[v as int] == chosen_in(k as int, solution@, v as int, p, d as int),
                forall|u: int|
                    0 <= u < n && u != v ==> #[trigger] new_positions@[u] == if u < v {
                        chosen_in(k as int, solution@, u, positions@[u], c as int)
                    } else {
                        positions@[u]
                    },
            decreases c - d,
        {
            assert(v * c + c <= c * n) by (nonlinear_arith)
                requires
                    v < n,
                    c >= 0,
            ;
            let sl = solution.len();
            assert(c * n < sl);
            let li: usize = 1 + v * c + d;
            assert(li as int == lit_in(c as int, v as int, d as int));
            if solution[li] {
                proof {
                    lemma_dv_in_small(k as int, d as int);
                    assert(move_fits_at(k as int, positions@[v as int], d as int));
                }
                let q = p + dv_of(k, d as i64);
                assert(q == nudge_in(k as int, p, d as int));
                new_positions.set(v, q);
            }
            assert(new_positions@[v as int] == chosen_in(k as int, solution@, v as int, p, d + 1));
            d = d + 1;
        }
    }
    new_positions
}

/// The positions after a step: each vertex moved in the direction that the
/// satisfying assignment `solution` (indexed by variable) chooses for it.
pub fn reconstruct_positions(input: &Input, positions: &Vec<Point>, solution: &Vec<bool>) -> (r: Vec<
    Point,
>)
    requires
        positions@.len() <= 1000000000000,
        positions@.len() > 0 ==> 9 * positions@.len() < solution@.len(),
        forall|v: int|
            0 <= v < positions@.len() ==> i64::MIN < (#[trigger] positions@[v]).0 < i64::MAX
                && i64::MIN < positions@[v].1 < i64::MAX,
    ensures
        r@.len() == positions@.len(),
        forall|v: int|
            0 <= v < positions@.len() ==> #[trigger] r@[v] == chosen_position(
                solution@,
                v,
                positions@[v],
                9,
            ),
        forall|v: int|
            0 <= v < positions@.len() ==> -1 <= #[trigger] r@[v].0 - positions@[v].0 <= 1 && -1
                <= r@[v].1 - positions@[v].1 <= 1,
{
    assert forall|v: int, d: int| 0 <= v < positions@.len() && 0 <= d < 3 * 3 implies #[trigger] move_fits_at(3, positions@[v], d) by {
        lemma_dv_small(d);
        assert(i64::MIN < positions@[v].0 < i64::MAX);
    }
    let r = reconstruct_in(3, 9, positions, solution);
    proof {
        assert forall|v: int| 0 <= v < positions@.len() implies -1 <= #[trigger] r@[v].0
            - positions@[v].0 <= 1 && -1 <= r@[v].1 - positions@[v].1 <= 1 by {
            lemma_chosen_near(solution@, v, positions@[v], 9);
        }
    }
    r
}

/// A vertex moves by at most one in each coordinate.
pub proof fn lemma_chosen_near(sol: Seq<bool>, v: int, p: Point, k: int)
    requires
        k <= 9,
        i64::MIN < p.0 < i64::MAX,
        i64::MIN < p.1 < i64::MAX,
    ensures
        -1 <= chosen_position(sol, v, p, k).0 - p.0 <= 1,
        -1 <= chosen_position(sol, v, p, k).1 - p.1 <= 1,
    decreases k,
{
    if k > 0 {
        lemma_chosen_near(sol, v, p, k - 1);
        lemma_dv_small(k - 1);
    }
}

/// Absolute value.
pub open spec fn iabs(x: int) -> int {
    if x < 0 {
        -x
    } else {
        x
    }
}

/// The largest absolute value among the first `k` literals (0 when `k` is 0).
pub open spec fn max_abs(lits: Seq<i64>, k: int) -> int
    decreases k,
{
    if k <= 0 {
        0
    } else {
        imax(max_abs(lits, k - 1), iabs(lits[k - 1] as int))
    }
}

/// The value the first `k` literals give to variable `x`: that of the last
/// one on `x` (true for a positive literal), false when none is.
pub open spec fn assigned(lits: Seq<i64>, x: int, k: int) -> bool
    decreases k,
{
    if k <= 0 {
        false
    } else if iabs(lits[k - 1] as int) == x {
        lits[k - 1] >= 0
    } else {
        assigned(lits, x, k - 1)
    }
}

proof fn lemma_max_abs_bounds(lits: Seq<i64>, k: int, i: int)
    requires
        0 <= i < k <= lits.len(),
    ensures
        iabs(lits[i] as int) <= max_abs(lits, k),
        0 <= max_abs(lits, k),
    decreases k,
{
    if i < k - 1 {
        lemma_max_abs_bounds(lits, k - 1, i);
    } else if k > 1 {
        lemma_max_abs_bounds(lits, k - 1, 0);
    }
}

/// The largest absolute value among the first `k` literals bounds each of
/// them, and is 0 or the absolute value of one of them.
pub proof fn lemma_max_abs_is_max(lits: Seq<i64>, k: int)
    requires
        0 <= k <= lits.len(),
    ensures
        0 <= max_abs(lits, k),
        forall|i: int| #![trigger lits[i]] 0 <= i < k ==> iabs(lits[i] as int) <= max_abs(lits, k),
        max_abs(lits, k) == 0 || exists|i: int|
            #![trigger lits[i]]
            0 <= i < k && iabs(lits[i] as int) == max_abs(lits, k),
    decreases k,
{
    if k > 0 {
        lemma_max_abs_is_max(lits, k - 1);
        if max_abs(lits, k) != iabs(lits[k - 1] as int) && max_abs(lits, k) != 0 {
            let i = choose|i: int|
                #![trigger lits[i]]
                0 <= i < k - 1 && iabs(lits[i] as int) == max_abs(lits, k - 1);
            assert(iabs(lits[i] as int) == max_abs(lits, k));
        }
    }
}

/// A variable takes the sign of the last of the first `k` literals on it
/// (true for a positive or zero literal), and is false when none is on it.
pub proof fn lemma_assigned_last(lits: Seq<i64>, x: int, k: int)
    requires
        0 <= k <= lits.len(),
    ensures
        forall|i: int|
            #![trigger lits[i]]
            0 <= i < k && iabs(lits[i] as int) == x && (forall|j: int|
                #![trigger lits[j]]
                i < j < k ==> iabs(lits[j] as int) != x) ==> assigned(lits, x, k) == (lits[i] >= 0),
        (forall|i: int| #![trigger lits[i]] 0 <= i < k ==> iabs(lits[i] as int) != x) ==> !assigned(
            lits,
            x,
            k,
        ),
    decreases k,
{
    if k > 0 {
        lemma_assigned_last(lits, x, k - 1);
        assert forall|i: int|
            #![trigger lits[i]]
            0 <= i < k && iabs(lits[i] as int) == x && (forall|j: int|
                #![trigger lits[j]]
                i < j < k ==> iabs(lits[j] as int) != x) implies assigned(lits, x, k) == (lits[i]
            >= 0) by {
            if i < k - 1 {
                assert(iabs(lits[k - 1] as int) != x);
            }
        }
        if forall|i: int| #![trigger lits[i]] 0 <= i < k ==> iabs(lits[i] as int) != x {
            assert(iabs(lits[k - 1] as int) != x);
        }
    }
}

/// The assignment that a SAT solver's list of literals states, indexed by
/// variable: one entry more than the largest variable named, each variable
/// taking the sign of the last literal on it, and false where none names it.
pub fn solution_from_lits(lits: &Vec<i64>) -> (sol: Vec<bool>)
    requires
        lits@.len() > 0,
        forall|i: int| 0 <= i < lits@.len() ==> #[trigger] lits@[i] != i64::MIN,
        max_abs(lits@, lits@.len() as int) < usize::MAX,
    ensures
        sol@.len() == 1 + max_abs(lits@, lits@.len() as int),
        forall|x: int| 0 <= x < sol@.len() ==> #[trigger] sol@[x] == assigned(lits@, x, lits@.len() as int),
        forall|i: int|
            #![trigger lits@[i]]
            0 <= i < lits@.len() ==> iabs(lits@[i] as int) < sol@.len(),
        forall|i: int|
            #![trigger lits@[i]]
            0 <= i < lits@.len() && (forall|j: int|
                #![trigger lits@[j]]
                i < j < lits@.len() ==> iabs(lits@[j] as int) != iabs(lits@[i] as int)) ==> sol@[iabs(
                lits@[i] as int,
            )] == (lits@[i] >= 0),
{
    let m = lits.len();
    let mut most: i64 = 0;
    for i in 0..m
        invariant
            m == lits@.len(),
            forall|k: int| 0 <= k < lits@.len() ==> #[trigger] lits@[k] != i64::MIN,
            most == max_abs(lits@, i as int),
            0 <= most,
    {
        let l = lits[i];
        let a = if l < 0 {
            -l
        } else {
            l
        };
        if a > most {
            most = a;
        }
    }
    let n_lits = 1 + most as usize;
    let mut sol: Vec<bool> = Vec::new();
    for k in 0..n_lits
        invariant
            sol@.len() == k,
            forall|x: int| 0 <= x < k ==> !(#[trigger] sol@[x]),
    {
        sol.push(false);
    }
    for i in 0..m
        invariant
            m == lits@.len(),
            forall|k: int| 0 <= k < lits@.len() ==> #[trigger] lits@[k] != i64::MIN,
            most == max_abs(lits@, m as int),
            n_lits == 1 + most,
            sol@.len() == n_lits,
            forall|x: int| 0 <= x < n_lits ==> #[trigger] sol@[x] == assigned(lits@, x, i as int),
    {
        let l = lits[i];
        proof {
            lemma_max_abs_bounds(lits@, m as int, i as int);
        }
        let a = if l < 0 {
            -l
        } else {
            l
        };
        sol.set(a as usize, l >= 0);
    }
    proof {
        lemma_max_abs_is_max(lits@, m as int);
        assert forall|i: int|
            #![trigger lits@[i]]
            0 <= i < lits@.len() && (forall|j: int|
                #![trigger lits@[j]]
                i < j < lits@.len() ==> iabs(lits@[j] as int) != iabs(lits@[i] as int)) implies sol@[iabs(
            lits@[i] as int,
        )] == (lits@[i] >= 0) by {
            lemma_assigned_last(lits@, iabs(lits@[i] as int), m as int);
        }
    }
    sol
}

/// The largest absolute value in the first `k` literals of a clause.
pub open spec fn clauses_max_abs(clauses: Seq<Seq<i64>>, k: int) -> int
    decreases k,
{
    if k <= 0 {
        0
    } else {
        imax(clauses_max_abs(clauses, k - 1), max_abs(clauses[k - 1], clauses[k - 1].len() as int))
    }
}

/// The largest absolute value in the first `k` clauses bounds every literal
/// of them, and is 0 or the absolute value of one of them.
pub proof fn lemma_clauses_max_abs_is_max(clauses: Seq<Seq<i64>>, k: int)
    requires
        0 <= k <= clauses.len(),
    ensures
        0 <= clauses_max_abs(clauses, k),
        forall|i: int, j: int|
            #![trigger clauses[i][j]]
            0 <= i < k && 0 <= j < clauses[i].len() ==> iabs(clauses[i][j] as int) <= clauses_max_abs(
                clauses,
                k,
            ),
        clauses_max_abs(clauses, k) == 0 || exists|i: int, j: int|
            #![trigger clauses[i][j]]
            0 <= i < k && 0 <= j < clauses[i].len() && iabs(clauses[i][j] as int) == clauses_max_abs(
                clauses,
                k,
            ),
    decreases k,
{
    if k > 0 {
        lemma_clauses_max_abs_is_max(clauses, k - 1);
        let c = clauses[k - 1];
        lemma_max_abs_is_max(c, c.len() as int);
        assert forall|i: int, j: int|
            #![trigger clauses[i][j]]
            0 <= i < k && 0 <= j < clauses[i].len() implies iabs(clauses[i][j] as int)
            <= clauses_max_abs(clauses, k) by {
            if i == k - 1 {
                assert(c[j] == clauses[i][j]);
            }
        }
        if clauses_max_abs(clauses, k) != 0 {
            if clauses_max_abs(clauses, k) == max_abs(c, c.len() as int) {
                let j = choose|j: int|
                    #![trigger c[j]]
                    0 <= j < c.len() && iabs(c[j] as int) == max_abs(c, c.len() as int);
                assert(clauses[k - 1][j] == c[j]);
            } else {
                let (i, j) = choose|i: int, j: int|
                    #![trigger clauses[i][j]]
                    0 <= i < k - 1 && 0 <= j < clauses[i].len() && iabs(clauses[i][j] as int)
                        == clauses_max_abs(clauses, k - 1);
                assert(iabs(clauses[i][j] as int) == clauses_max_abs(clauses, k));
            }
        }
    }
}

/// The number of variables to declare for the clauses: the largest variable
/// any of them names.
pub fn max_var(clauses: &Vec<Vec<i64>>) -> (r: i64)
    requires
        forall|i: int, j: int|
            0 <= i < clauses@.len() && 0 <= j < clauses@[i]@.len() ==> #[trigger] clauses@[i]@[j]
                != i64::MIN,
    ensures
        r == clauses_max_abs(clauses_view(clauses@), clauses@.len() as int),
        forall|i: int, j: int|
            #![trigger clauses@[i]@[j]]
            0 <= i < clauses@.len() && 0 <= j < clauses@[i]@.len() ==> iabs(clauses@[i]@[j] as int)
                <= r,
        r == 0 || exists|i: int, j: int|
            #![trigger clauses@[i]@[j]]
            0 <= i < clauses@.len() && 0 <= j < clauses@[i]@.len() && iabs(clauses@[i]@[j] as int)
                == r,
{
    let ghost cv = clauses_view(clauses@);
    let mut most: i64 = 0;
    for i in 0..clauses.len()
        invariant
            cv == clauses_view(clauses@),
            forall|a: int, b: int|
                0 <= a < clauses@.len() && 0 <= b < clauses@[a]@.len() ==> #[trigger] clauses@[a]@[b]
                    != i64::MIN,
            most == clauses_max_abs(cv, i as int),
            0 <= most,
    {
        let c = &clauses[i];
        let mut cm: i64 = 0;
        for j in 0..c.len()
            invariant
                c@ == cv[i as int],
                forall|b: int| 0 <= b < c@.len() ==> #[trigger] c@[b] != i64::MIN,
                cm == max_abs(c@, j as int),
                0 <= cm,
        {
            let l = c[j];
            let a = if l < 0 {
                -l
            } else {
                l
            };
            if a > cm {
                cm = a;
            }
        }
        if cm > most {
            most = cm;
        }
    }
    proof {
        lemma_clauses_max_abs_is_max(cv, clauses@.len() as int);
        assert forall|i: int, j: int|
            0 <= i < clauses@.len() && 0 <= j < clauses@[i]@.len() implies #[trigger] clauses@[i]@[j]
            == cv[i][j] by {}
        if most != 0 {
            let (i, j) = choose|i: int, j: int|
                #![trigger cv[i][j]]
                0 <= i < cv.len() && 0 <= j < cv[i].len() && iabs(cv[i][j] as int) == most;
            assert(clauses@[i]@[j] == cv[i][j]);
        }
    }
    most
}

// ---------------------------------------------------------------------------
// What a model of the clauses gives
// ---------------------------------------------------------------------------

/// The literal `l` is true under the assignment `sol` (variable `x` is
/// `sol[x]`; `-x` is its negation).
pub open spec fn lit_true(sol: Seq<bool>, l: i64) -> bool {
    if l > 0 {
        sol[l as int]
    } else {
        !sol[-l]
    }
}

/// The assignment `sol` satisfies the clause `c`.
pub open spec fn satisfies(sol: Seq<bool>, c: Seq<i64>) -> bool {
    exists|j: int| 0 <= j < c.len() && #[trigger] lit_true(sol, c[j])
}

/// The assignment `sol` satisfies every clause of `cs`.
pub open spec fn satisfies_all(sol: Seq<bool>, cs: Seq<Seq<i64>>) -> bool {
    forall|i: int| 0 <= i < cs.len() ==> #[trigger] satisfies(sol, cs[i])
}

proof fn lemma_concat_contains<A>(a: Seq<A>, b: Seq<A>, x: A)
    ensures
        a.contains(x) ==> (a + b).contains(x),
        b.contains(x) ==> (a + b).contains(x),
{
    if a.contains(x) {
        let i = choose|i: int| 0 <= i < a.len() && #[trigger] a[i] == x;
        assert((a + b)[i] == x);
    }
    if b.contains(x) {
        let i = choose|i: int| 0 <= i < b.len() && #[trigger] b[i] == x;
        assert((a + b)[a.len() + i] == x);
    }
}

/// The clause "vertex `v` moves in some direction" is among the one-hot
/// clauses of the first `n` vertices.
proof fn lemma_one_hot_has_all_lits(k: int, n: int, v: int)
    requires
        0 <= v < n,
    ensures
        one_hot_clauses(k, n).contains(all_lits(k, v)),
    decreases n,
{
    let a = one_hot_clauses(k, n - 1).push(all_lits(k, n - 1));
    if v == n - 1 {
        assert(a[a.len() - 1] == all_lits(k, v));
    } else {
        lemma_one_hot_has_all_lits(k, n - 1, v);
        let oh = one_hot_clauses(k, n - 1);
        let i = choose|i: int| 0 <= i < oh.len() && #[trigger] oh[i] == all_lits(k, v);
        assert(a[i] == all_lits(k, v));
    }
    lemma_concat_contains(a, exclusion_pairs(k, n - 1, k * k), all_lits(k, v));
}

/// A direction of vertex `v` that leaves the hole is forbidden by a clause
/// of `outside_clauses_of`.
proof fn lemma_outside_of_has(k: int, hole: Seq<Point>, vs: Seq<Point>, v: int, d: int, e: int)
    requires
        0 <= e < d,
        crate::polygon::contains_p_spec(hole, nudge_in(k, vs[v], e)) == -1,
    ensures
        outside_clauses_of(k, hole, vs, v, d).contains(seq![-lit_in(k * k, v, e) as i64]),
    decreases d,
{
    let prev = outside_clauses_of(k, hole, vs, v, d - 1);
    if e == d - 1 {
        let s = prev.push(seq![-lit_in(k * k, v, e) as i64]);
        assert(s[s.len() - 1] == seq![-lit_in(k * k, v, e) as i64]);
    } else {
        lemma_outside_of_has(k, hole, vs, v, d - 1, e);
        if crate::polygon::contains_p_spec(hole, nudge_in(k, vs[v], d - 1)) == -1 {
            lemma_concat_contains(prev, seq![seq![-lit_in(k * k, v, d - 1) as i64]], seq![-lit_in(k * k, v, e) as i64]);
            assert(prev.push(seq![-lit_in(k * k, v, d - 1) as i64]) =~= prev + seq![seq![-lit_in(k * k, v, d - 1) as i64]]);
        }
    }
}

/// The same among the clauses of the first `n` vertices.
proof fn lemma_outside_has(k: int, hole: Seq<Point>, vs: Seq<Point>, n: int, v: int, e: int)
    requires
        0 <= v < n,
        0 <= e < k * k,
        crate::polygon::contains_p_spec(hole, nudge_in(k, vs[v], e)) == -1,
    ensures
        outside_clauses(k, hole, vs, n).contains(seq![-lit_in(k * k, v, e) as i64]),
    decreases n,
{
    let c = seq![-lit_in(k * k, v, e) as i64];
    if v == n - 1 {
        lemma_outside_of_has(k, hole, vs, v, k * k, e);
    } else {
        lemma_outside_has(k, hole, vs, n - 1, v, e);
    }
    lemma_concat_contains(outside_clauses(k, hole, vs, n - 1), outside_clauses_of(k, hole, vs, n - 1, k * k), c);
}

/// When one of the first `d` directions of `v` is chosen, the chosen
/// position is the move in the last such direction.
proof fn lemma_chosen_is_a_move(k: int, sol: Seq<bool>, v: int, p: Point, d: int)
    requires
        exists|e: int| 0 <= e < d && #[trigger] sol[lit_in(k * k, v, e)],
    ensures
        exists|e: int|
            0 <= e < d && #[trigger] sol[lit_in(k * k, v, e)] && chosen_in(k, sol, v, p, d) == nudge_in(
                k,
                p,
                e,
            ),
    decreases d,
{
    if !sol[lit_in(k * k, v, d - 1)] {
        lemma_chosen_is_a_move(k, sol, v, p, d - 1);
    } else {
        assert(chosen_in(k, sol, v, p, d) == nudge_in(k, p, d - 1));
    }
}

/// A model of a concatenation of clauses is a model of each part.
pub proof fn lemma_satisfies_concat(sol: Seq<bool>, a: Seq<Seq<i64>>, b: Seq<Seq<i64>>)
    requires
        satisfies_all(sol, a + b),
    ensures
        satisfies_all(sol, a),
        satisfies_all(sol, b),
{
    assert forall|i: int| 0 <= i < a.len() implies #[trigger] satisfies(sol, a[i]) by {
        assert((a + b)[i] == a[i]);
    }
    assert forall|i: int| 0 <= i < b.len() implies #[trigger] satisfies(sol, b[i]) by {
        assert((a + b)[a.len() + i] == b[i]);
    }
}

/// A model of clauses with one more is a model of both.
pub proof fn lemma_satisfies_push(sol: Seq<bool>, a: Seq<Seq<i64>>, c: Seq<i64>)
    requires
        satisfies_all(sol, a.push(c)),
    ensures
        satisfies_all(sol, a),
        satisfies(sol, c),
{
    assert forall|i: int| 0 <= i < a.len() implies #[trigger] satisfies(sol, a[i]) by {
        assert(a.push(c)[i] == a[i]);
    }
    assert(a.push(c)[a.len() as int] == c);
}

/// A model satisfies each clause among those it satisfies.
pub proof fn lemma_satisfies_member(sol: Seq<bool>, cs: Seq<Seq<i64>>, c: Seq<i64>)
    requires
        satisfies_all(sol, cs),
        cs.contains(c),
    ensures
        satisfies(sol, c),
{
    let i = choose|i: int| 0 <= i < cs.len() && #[trigger] cs[i] == c;
    assert(satisfies(sol, cs[i]));
}

/// With at most a million directions and 10^12 vertices, the variables fit.
pub proof fn lemma_lit_fits(k: int, v: int, d: int)
    requires
        1 <= k <= 1000,
        0 <= v <= 1000000000000,
        0 <= d < k * k,
    ensures
        1 <= lit_in(k * k, v, d) <= i64::MAX,
{
    assert(0 <= v * (k * k) <= 1000000000000 * 1000000) by (nonlinear_arith)
        requires
            1 <= k <= 1000,
            0 <= v <= 1000000000000,
    ;
    assert(k * k <= 1000000) by (nonlinear_arith)
        requires
            1 <= k <= 1000,
    ;
}

/// A clause "not both directions `j` and `i` of `v`" is among the exclusion
/// clauses of the first `m` directions.
proof fn lemma_exclusion_has(k: int, v: int, m: int, j: int, i: int)
    requires
        0 <= j < i < m,
    ensures
        exclusion_pairs(k, v, m).contains(seq![-lit_in(k * k, v, j) as i64, -lit_in(k * k, v, i) as i64]),
    decreases m,
{
    let c = seq![-lit_in(k * k, v, j) as i64, -lit_in(k * k, v, i) as i64];
    let last = Seq::new(
        (m - 1) as nat,
        |t: int| seq![-lit_in(k * k, v, t) as i64, -lit_in(k * k, v, m - 1) as i64],
    );
    if i == m - 1 {
        assert(last[j] == c);
    } else {
        lemma_exclusion_has(k, v, m - 1, j, i);
    }
    lemma_concat_contains(exclusion_pairs(k, v, m - 1), last, c);
}

/// The one-hot clauses of the first `n` vertices hold those of vertex `v`.
proof fn lemma_one_hot_has_exclusion(k: int, n: int, v: int, c: Seq<i64>)
    requires
        0 <= v < n,
        exclusion_pairs(k, v, k * k).contains(c),
    ensures
        one_hot_clauses(k, n).contains(c),
    decreases n,
{
    let a = one_hot_clauses(k, n - 1).push(all_lits(k, n - 1));
    if v < n - 1 {
        lemma_one_hot_has_exclusion(k, n - 1, v, c);
        let oh = one_hot_clauses(k, n - 1);
        let i = choose|i: int| 0 <= i < oh.len() && #[trigger] oh[i] == c;
        assert(a[i] == c);
    }
    lemma_concat_contains(a, exclusion_pairs(k, n - 1, k * k), c);
}

/// Under a model of the one-hot clauses, vertex `v` moves in exactly one
/// direction: the chosen position is the move in direction `e`, the only one
/// whose variable is true.
pub proof fn lemma_model_direction_in(k: int, sol: Seq<bool>, vs: Seq<Point>, v: int) -> (e: int)
    requires
        1 <= k <= 1000,
        vs.len() <= 1000000000000,
        0 <= v < vs.len(),
        satisfies_all(sol, one_hot_clauses(k, vs.len() as int)),
    ensures
        0 <= e < k * k,
        sol[lit_in(k * k, v, e)],
        forall|f: int| 0 <= f < k * k && f != e ==> !#[trigger] sol[lit_in(k * k, v, f)],
        chosen_in(k, sol, v, vs[v], k * k) == nudge_in(k, vs[v], e),
{
    let n = vs.len() as int;
    let oh = one_hot_clauses(k, n);
    lemma_one_hot_has_all_lits(k, n, v);
    lemma_satisfies_member(sol, oh, all_lits(k, v));
    let j = choose|j: int| 0 <= j < all_lits(k, v).len() && #[trigger] lit_true(sol, all_lits(k, v)[j]);
    lemma_lit_fits(k, v, j);
    assert(all_lits(k, v)[j] as int == lit_in(k * k, v, j));
    assert(sol[lit_in(k * k, v, j)]);
    lemma_chosen_is_a_move(k, sol, v, vs[v], k * k);
    let e = choose|e: int|
        0 <= e < k * k && #[trigger] sol[lit_in(k * k, v, e)] && chosen_in(k, sol, v, vs[v], k * k)
            == nudge_in(k, vs[v], e);
    assert forall|f: int| 0 <= f < k * k && f != e implies !#[trigger] sol[lit_in(k * k, v, f)] by {
        if sol[lit_in(k * k, v, f)] {
            let (lo, hi) = if f < e {
                (f, e)
            } else {
                (e, f)
            };
            let c = seq![-lit_in(k * k, v, lo) as i64, -lit_in(k * k, v, hi) as i64];
            lemma_exclusion_has(k, v, k * k, lo, hi);
            lemma_one_hot_has_exclusion(k, n, v, c);
            lemma_satisfies_member(sol, oh, c);
            let t = choose|t: int| 0 <= t < c.len() && #[trigger] lit_true(sol, c[t]);
            lemma_lit_fits(k, v, lo);
            lemma_lit_fits(k, v, hi);
            if t == 0 {
                assert(lit_true(sol, c[0]));
            } else {
                assert(lit_true(sol, c[1]));
            }
        }
    }
    e
}

/// Under a model of the outside clauses, no vertex moves out of the hole.
pub proof fn lemma_model_outside(k: int, hole: Seq<Point>, vs: Seq<Point>, sol: Seq<bool>, v: int, e: int)
    requires
        1 <= k <= 1000,
        vs.len() <= 1000000000000,
        0 <= v < vs.len(),
        0 <= e < k * k,
        sol[lit_in(k * k, v, e)],
        satisfies_all(sol, outside_clauses(k, hole, vs, vs.len() as int)),
    ensures
        crate::polygon::contains_p_spec(hole, nudge_in(k, vs[v], e)) != -1,
{
    if crate::polygon::contains_p_spec(hole, nudge_in(k, vs[v], e)) == -1 {
        let c = seq![-lit_in(k * k, v, e) as i64];
        lemma_outside_has(k, hole, vs, vs.len() as int, v, e);
        lemma_satisfies_member(sol, outside_clauses(k, hole, vs, vs.len() as int), c);
        lemma_lit_fits(k, v, e);
        assert(lit_true(sol, c[0]));
    }
}

/// Under a model of the edge clauses, every edge whose ends move in
/// directions `g` and `f` with true variables makes an allowed move.
pub proof fn lemma_model_edge(
    k: int,
    input: Input,
    vs: Seq<Point>,
    limit: int,
    sol: Seq<bool>,
    i: int,
    g: int,
    f: int,
)
    requires
        1 <= k <= 1000,
        vs.len() <= 1000000000000,
        0 <= i < input.figure.edges@.len(),
        input.figure.edges@[i].0 < vs.len(),
        input.figure.edges@[i].1 < vs.len(),
        0 <= g < k * k,
        0 <= f < k * k,
        sol[lit_in(k * k, input.figure.edges@[i].0 as int, g)],
        sol[lit_in(k * k, input.figure.edges@[i].1 as int, f)],
        satisfies_all(sol, edge_clauses(k, input, vs, limit, input.figure.edges@.len() as int)),
    ensures
        move_allowed(k, input, vs, limit, input.figure.edges@[i], g, f),
{
    let e = input.figure.edges@[i];
    let m = input.figure.edges@.len() as int;
    if !move_allowed(k, input, vs, limit, e, g, f) {
        let c = seq![-lit_in(k * k, e.0 as int, g) as i64, -lit_in(k * k, e.1 as int, f) as i64];
        lemma_edge_clauses_has(k, input, vs, limit, m, i, g, f);
        lemma_satisfies_member(sol, edge_clauses(k, input, vs, limit, m), c);
        let j = choose|j: int| 0 <= j < c.len() && #[trigger] lit_true(sol, c[j]);
        lemma_lit_fits(k, e.0 as int, g);
        lemma_lit_fits(k, e.1 as int, f);
        if j == 0 {
            assert(lit_true(sol, c[0]));
        } else {
            assert(lit_true(sol, c[1]));
        }
    }
}

/// The parts of the clauses of a repair step.
proof fn lemma_repair_parts(input: Input, vs: Seq<Point>, limit: int, sol: Seq<bool>)
    requires
        satisfies_all(sol, clauses_spec(input, vs, limit)),
    ensures
        satisfies_all(sol, one_hot_clauses(3, vs.len() as int)),
        satisfies_all(sol, outside_clauses(3, input.hole@, vs, vs.len() as int)),
        satisfies_all(sol, edge_clauses(3, input, vs, limit, input.figure.edges@.len() as int)),
{
    let n = vs.len() as int;
    let oh = one_hot_clauses(3, n);
    let co = corner_clauses(input.hole@, vs, n);
    let out = outside_clauses(3, input.hole@, vs, n);
    let ed = edge_clauses(3, input, vs, limit, input.figure.edges@.len() as int);
    assert(clauses_spec(input, vs, limit) == oh + co + out + ed);
    lemma_satisfies_concat(sol, oh + co + out, ed);
    lemma_satisfies_concat(sol, oh + co, out);
    lemma_satisfies_concat(sol, oh, co);
}

/// A model of the clauses of a repair step keeps every vertex in the hole or
/// on its boundary: the position it chooses for each vertex is one of the
/// nine moves, and none that leaves the hole.
pub proof fn lemma_model_keeps_vertices_inside(
    input: Input,
    vs: Seq<Point>,
    limit: int,
    sol: Seq<bool>,
    v: int,
)
    requires
        vs.len() <= 1000000000000,
        0 <= v < vs.len(),
        satisfies_all(sol, clauses_spec(input, vs, limit)),
    ensures
        exists|e: int| 0 <= e < 9 && chosen_position(sol, v, vs[v], 9) == #[trigger] nudge_in(3, vs[v], e),
        crate::polygon::contains_p_spec(input.hole@, chosen_position(sol, v, vs[v], 9)) != -1,
{
    lemma_repair_parts(input, vs, limit, sol);
    let e = lemma_model_direction_in(3, sol, vs, v);
    lemma_model_outside(3, input.hole@, vs, sol, v, e);
}

/// A move of the ends of `e` that is not allowed is forbidden by a clause of
/// `edge_row`.
proof fn lemma_edge_row_has(
    k: int,
    input: Input,
    vs: Seq<Point>,
    limit: int,
    e: (usize, usize),
    d1: int,
    d2: int,
    f: int,
)
    requires
        0 <= f < d2,
        !move_allowed(k, input, vs, limit, e, d1, f),
    ensures
        edge_row(k, input, vs, limit, e, d1, d2).contains(
            seq![-lit_in(k * k, e.0 as int, d1) as i64, -lit_in(k * k, e.1 as int, f) as i64],
        ),
    decreases d2,
{
    let c = seq![-lit_in(k * k, e.0 as int, d1) as i64, -lit_in(k * k, e.1 as int, f) as i64];
    let prev = edge_row(k, input, vs, limit, e, d1, d2 - 1);
    if f == d2 - 1 {
        let s = prev.push(c);
        assert(s[s.len() - 1] == c);
    } else {
        lemma_edge_row_has(k, input, vs, limit, e, d1, d2 - 1, f);
        if !move_allowed(k, input, vs, limit, e, d1, d2 - 1) {
            let last = seq![-lit_in(k * k, e.0 as int, d1) as i64, -lit_in(k * k, e.1 as int, d2 - 1) as i64];
            lemma_concat_contains(prev, seq![last], c);
            assert(prev.push(last) =~= prev + seq![last]);
        }
    }
}

/// The same among the clauses of `edge_block`.
proof fn lemma_edge_block_has(
    k: int,
    input: Input,
    vs: Seq<Point>,
    limit: int,
    e: (usize, usize),
    d1: int,
    g: int,
    f: int,
)
    requires
        0 <= g < d1,
        0 <= f < k * k,
        !move_allowed(k, input, vs, limit, e, g, f),
    ensures
        edge_block(k, input, vs, limit, e, d1).contains(
            seq![-lit_in(k * k, e.0 as int, g) as i64, -lit_in(k * k, e.1 as int, f) as i64],
        ),
    decreases d1,
{
    let c = seq![-lit_in(k * k, e.0 as int, g) as i64, -lit_in(k * k, e.1 as int, f) as i64];
    if g == d1 - 1 {
        lemma_edge_row_has(k, input, vs, limit, e, g, k * k, f);
    } else {
        lemma_edge_block_has(k, input, vs, limit, e, d1 - 1, g, f);
    }
    lemma_concat_contains(
        edge_block(k, input, vs, limit, e, d1 - 1),
        edge_row(k, input, vs, limit, e, d1 - 1, k * k),
        c,
    );
}

/// The same among the clauses of the first `m` edges.
proof fn lemma_edge_clauses_has(k: int, input: Input, vs: Seq<Point>, limit: int, m: int, i: int, g: int, f: int)
    requires
        0 <= i < m,
        0 <= g < k * k,
        0 <= f < k * k,
        !move_allowed(k, input, vs, limit, input.figure.edges@[i], g, f),
    ensures
        edge_clauses(k, input, vs, limit, m).contains(
            seq![
                -lit_in(k * k, input.figure.edges@[i].0 as int, g) as i64,
                -lit_in(k * k, input.figure.edges@[i].1 as int, f) as i64,
            ],
        ),
    decreases m,
{
    let e = input.figure.edges@[i];
    let c = seq![-lit_in(k * k, e.0 as int, g) as i64, -lit_in(k * k, e.1 as int, f) as i64];
    if i == m - 1 {
        lemma_edge_block_has(k, input, vs, limit, e, k * k, g, f);
    } else {
        lemma_edge_clauses_has(k, input, vs, limit, m - 1, i, g, f);
    }
    lemma_concat_contains(
        edge_clauses(k, input, vs, limit, m - 1),
        edge_block(k, input, vs, limit, input.figure.edges@[m - 1], k * k),
        c,
    );
}

/// A model of the clauses of a repair step keeps every edge in the hole with
/// a penalty under the limit: at the positions it chooses for the two ends.
pub proof fn lemma_model_keeps_edges(input: Input, vs: Seq<Point>, limit: int, sol: Seq<bool>, i: int)
    requires
        vs.len() <= 1000000000000,
        0 <= i < input.figure.edges@.len(),
        input.figure.edges@[i].0 < vs.len(),
        input.figure.edges@[i].1 < vs.len(),
        satisfies_all(sol, clauses_spec(input, vs, limit)),
    ensures
        ({
            let e = input.figure.edges@[i];
            let p1 = chosen_position(sol, e.0 as int, vs[e.0 as int], 9);
            let p2 = chosen_position(sol, e.1 as int, vs[e.1 as int], 9);
            &&& crate::polygon::contains_s_spec(input.hole@, p1, p2)
            &&& edge_penalty_spec(input, e.0 as int, e.1 as int, p1, p2) < limit
        }),
{
    let e = input.figure.edges@[i];
    lemma_repair_parts(input, vs, limit, sol);
    let g = lemma_model_direction_in(3, sol, vs, e.0 as int);
    let f = lemma_model_direction_in(3, sol, vs, e.1 as int);
    lemma_model_edge(3, input, vs, limit, sol, i, g, f);
}

} // verus!
