use vstd::prelude::*;
use std::cmp::Ordering;
use crate::geom::{all_in_range, dist2, fits, in_range, v, vdot, vsub, Point, P};
use crate::polygon::{contains_p_spec, contains_s_spec};
use crate::problem::{Bonus, BonusType, Evaluation, Input, Output, UseBonus};
use crate::segment::{imin, lemma_range_diffs4};
use crate::sorting::{insertion_sort, sorted, TotalOrder};

verus! {

/// Why a solution is not valid.
#[derive(Clone, Copy, Debug, PartialEq, Eq)]
pub enum ConstraintError {
    /// The solution has not as many vertices as the figure.
    VerticesLen,
    /// A vertex lies outside the hole.
    OutsidePoint,
    /// An edge leaves the hole.
    CrossEdge,
    /// An edge is stretched or shrunk more than allowed.
    IllegalLength,
}

/// Score given to an invalid solution.
pub const INVALID_SCORE: i64 = 1000000000;

// ---------------------------------------------------------------------------
// Model
// ---------------------------------------------------------------------------

pub open spec fn message_spec(e: ConstraintError) -> Seq<char> {
    match e {
        ConstraintError::VerticesLen => "vertices len"@,
        ConstraintError::OutsidePoint => "outside point"@,
        ConstraintError::CrossEdge => "cross edge"@,
        ConstraintError::IllegalLength => "illegal length"@,
    }
}

pub open spec fn uses_globalist(bs: Seq<UseBonus>) -> bool {
    exists|i: int| 0 <= i < bs.len() && #[trigger] bs[i].bonus == BonusType::Globalist
}

pub open spec fn iabs(x: int) -> int {
    if x < 0 {
        -x
    } else {
        x
    }
}

/// Squared length of the edge `e` when the figure's vertices are at `ps`.
pub open spec fn edge_len2(ps: Seq<Point>, e: (usize, usize)) -> int {
    let d = vsub(v(ps[e.0 as int]), v(ps[e.1 as int]));
    vdot(d, d)
}

/// The squared length `after` is within `epsilon` millionths of `before`.
pub open spec fn length_ok(before: int, after: int, epsilon: int) -> bool {
    iabs(after * 1000000 - before * 1000000) <= epsilon * before
}

/// The fault that the `i`-th edge of the figure shows in the solution, if any.
pub open spec fn edge_fault(input: Input, vs: Seq<Point>, globalist: bool, i: int) -> Option<
    ConstraintError,
> {
    let e = input.figure.edges@[i];
    if !contains_s_spec(input.hole@, vs[e.0 as int], vs[e.1 as int]) {
        Some(ConstraintError::CrossEdge)
    } else if !globalist && !length_ok(
        edge_len2(input.figure.vertices@, e),
        edge_len2(vs, e),
        input.epsilon as int,
    ) {
        Some(ConstraintError::IllegalLength)
    } else {
        None
    }
}

/// The fault of the first faulty edge from the `i`-th on.
pub open spec fn first_edge_fault(input: Input, vs: Seq<Point>, globalist: bool, i: int) -> Option<
    ConstraintError,
>
    decreases input.figure.edges@.len() - i,
{
    if i < 0 || i >= input.figure.edges@.len() {
        None
    } else {
        match edge_fault(input, vs, globalist, i) {
            Some(e) => Some(e),
            None => first_edge_fault(input, vs, globalist, i + 1),
        }
    }
}

/// The first constraint that the solution breaks, in the order they are
/// checked: the number of vertices, each vertex in the hole, each edge in the
/// hole and (without the Globalist bonus) within its allowed stretch, and
/// (with it) the total stretch within budget, which `stretch_ok` tells.
pub open spec fn check_spec(
    input: Input,
    vs: Seq<Point>,
    bs: Seq<UseBonus>,
    stretch_ok: bool,
) -> Result<(), ConstraintError> {
    let globalist = uses_globalist(bs);
    if vs.len() != input.figure.vertices@.len() {
        Err(ConstraintError::VerticesLen)
    } else if exists|k: int| 0 <= k < vs.len() && contains_p_spec(input.hole@, #[trigger] vs[k]) < 0 {
        Err(ConstraintError::OutsidePoint)
    } else {
        match first_edge_fault(input, vs, globalist, 0) {
            Some(e) => Err(e),
            None => if globalist && !stretch_ok {
                Err(ConstraintError::IllegalLength)
            } else {
                Ok(())
            },
        }
    }
}

/// Smallest squared distance from `p` to the first `k` points of `vs`
/// (`i64::MAX` when there is none).
pub open spec fn min_dist2(p: Point, vs: Seq<Point>, k: int) -> int
    decreases k,
{
    if k <= 0 {
        i64::MAX as int
    } else {
        let d = vsub(v(p), v(vs[k - 1]));
        imin(min_dist2(p, vs, k - 1), vdot(d, d))
    }
}

/// Dislikes of the first `k` hole vertices.
pub open spec fn dislikes_upto(hole: Seq<Point>, vs: Seq<Point>, k: int) -> int
    decreases k,
{
    if k <= 0 {
        0
    } else {
        dislikes_upto(hole, vs, k - 1) + min_dist2(hole[k - 1], vs, vs.len() as int)
    }
}

/// The dislikes of a pose: for each hole vertex, the squared distance to the
/// nearest figure vertex, summed.
pub open spec fn dislikes(hole: Seq<Point>, vs: Seq<Point>) -> int {
    dislikes_upto(hole, vs, hole.len() as int)
}

/// A problem and a solution that the checks can be run on without failing:
/// coordinates in range, edges naming existing vertices, and `epsilon` times
/// each original squared edge length fitting in `i64`.
pub open spec fn checkable(input: Input, vs: Seq<Point>) -> bool {
    &&& all_in_range(input.hole@)
    &&& all_in_range(input.figure.vertices@)
    &&& all_in_range(vs)
    &&& forall|i: int|
        0 <= i < input.figure.edges@.len() ==> (#[trigger] input.figure.edges@[i]).0
            < input.figure.vertices@.len() && input.figure.edges@[i].1
            < input.figure.vertices@.len()
    &&& forall|i: int|
        0 <= i < input.figure.edges@.len() ==> fits(
            input.epsilon * edge_len2(input.figure.vertices@, #[trigger] input.figure.edges@[i]),
        )
}

/// The score of a solution: its dislikes when valid, `INVALID_SCORE` otherwise.
pub open spec fn score_spec(input: Input, vs: Seq<Point>, bs: Seq<UseBonus>, stretch_ok: bool) -> int {
    match check_spec(input, vs, bs, stretch_ok) {
        Ok(()) => dislikes(input.hole@, vs),
        Err(_) => INVALID_SCORE as int,
    }
}

/// The score can be computed without overflow.
pub open spec fn scorable(input: Input, vs: Seq<Point>, bs: Seq<UseBonus>, stretch_ok: bool) -> bool {
    &&& checkable(input, vs)
    &&& check_spec(input, vs, bs, stretch_ok) is Ok ==> dislikes(input.hole@, vs) <= i64::MAX
}

// ---------------------------------------------------------------------------
// Lemmas
// ---------------------------------------------------------------------------

pub proof fn lemma_min_dist2_bounds(p: Point, vs: Seq<Point>, k: int)
    ensures
        0 <= min_dist2(p, vs, k) <= i64::MAX,
    decreases k,
{
    if k > 0 {
        lemma_min_dist2_bounds(p, vs, k - 1);
        let d = vsub(v(p), v(vs[k - 1]));
        crate::geom::lemma_square_nonneg(d.0);
        crate::geom::lemma_square_nonneg(d.1);
    }
}

/// The smallest squared distance from `p` to the first `k` points is no
/// larger than its squared distance to any of them, and (when there is one)
/// is its squared distance to one of them or, when that is larger, the
/// largest `i64`.
pub proof fn lemma_min_dist2_is_min(p: Point, vs: Seq<Point>, k: int)
    requires
        0 <= k <= vs.len(),
    ensures
        forall|i: int| #![trigger vs[i]] 0 <= i < k ==> min_dist2(p, vs, k) <= dist2(p, vs[i]),
        min_dist2(p, vs, k) <= i64::MAX,
        k > 0 ==> min_dist2(p, vs, k) == i64::MAX || exists|i: int|
            #![trigger vs[i]]
            0 <= i < k && min_dist2(p, vs, k) == dist2(p, vs[i]),
    decreases k,
{
    if k > 0 {
        lemma_min_dist2_is_min(p, vs, k - 1);
        if min_dist2(p, vs, k) == min_dist2(p, vs, k - 1) {
            if k > 1 && min_dist2(p, vs, k) != i64::MAX {
                let i = choose|i: int|
                    #![trigger vs[i]]
                    0 <= i < k - 1 && min_dist2(p, vs, k - 1) == dist2(p, vs[i]);
                assert(min_dist2(p, vs, k) == dist2(p, vs[i]));
            }
        } else {
            assert(min_dist2(p, vs, k) == dist2(p, vs[k - 1]));
        }
    }
}

pub proof fn lemma_dislikes_monotone(hole: Seq<Point>, vs: Seq<Point>, j: int, k: int)
    requires
        0 <= j <= k,
    ensures
        0 <= dislikes_upto(hole, vs, j) <= dislikes_upto(hole, vs, k),
    decreases k,
{
    if k > j {
        lemma_dislikes_monotone(hole, vs, j, k - 1);
        lemma_min_dist2_bounds(hole[k - 1], vs, vs.len() as int);
    } else if k > 0 {
        lemma_dislikes_monotone(hole, vs, 0, k - 1);
        lemma_min_dist2_bounds(hole[k - 1], vs, vs.len() as int);
    }
}

/// The faults of the edges before `i` are none, so the first fault from 0
/// is the first from `i`.
proof fn lemma_first_fault_skip(input: Input, vs: Seq<Point>, globalist: bool, i: int)
    requires
        0 <= i <= input.figure.edges@.len(),
        forall|j: int| 0 <= j < i ==> #[trigger] edge_fault(input, vs, globalist, j) is None,
    ensures
        first_edge_fault(input, vs, globalist, 0) == first_edge_fault(input, vs, globalist, i),
    decreases i,
{
    if i > 0 {
        assert(edge_fault(input, vs, globalist, i - 1) is None);
        lemma_first_fault_skip(input, vs, globalist, i - 1);
    }
}

// ---------------------------------------------------------------------------
// Executable checks
// ---------------------------------------------------------------------------

impl ConstraintError {
    /// The message describing the error.
    pub fn message(&self) -> (s: &'static str)
        ensures
            s@ == message_spec(*self),
    {
        match self {
            ConstraintError::VerticesLen => "vertices len",
            ConstraintError::OutsidePoint => "outside point",
            ConstraintError::CrossEdge => "cross edge",
            ConstraintError::IllegalLength => "illegal length",
        }
    }
}

/// Whether the solution uses the Globalist bonus.
pub fn globalist_used(out: &Output) -> (g: bool)
    ensures
        g == uses_globalist(out.bonuses@),
{
    let n = out.bonuses.len();
    for i in 0..n
        invariant
            n == out.bonuses@.len(),
            forall|j: int| 0 <= j < i ==> out.bonuses@[j].bonus != BonusType::Globalist,
    {
        match out.bonuses[i].bonus {
            BonusType::Globalist => {
                return true;
            },
            _ => {},
        }
    }
    false
}

/// Squared length of the edge `(i, j)` when the vertices are at `ps`.
fn edge_length2(ps: &Vec<Point>, i: usize, j: usize) -> (d: i64)
    requires
        all_in_range(ps@),
        i < ps@.len(),
        j < ps@.len(),
    ensures
        d == edge_len2(ps@, (i, j)),
        0 <= d <= 2199023255552,
{
    assert(in_range(ps@[i as int]));
    assert(in_range(ps@[j as int]));
    proof {
        lemma_range_diffs4(ps@[i as int], ps@[j as int], ps@[i as int], ps@[j as int]);
    }
    (ps[i] - ps[j]).abs2()
}

/// Whether the squared length `after` is within `epsilon` millionths of `before`.
fn within_epsilon(before: i64, after: i64, epsilon: i64) -> (ok: bool)
    requires
        0 <= before <= 2199023255552,
        0 <= after <= 2199023255552,
        fits(epsilon * before),
    ensures
        ok == length_ok(before as int, after as int, epsilon as int),
{
    let x = after * 1000000 - before * 1000000;
    let ax = if x < 0 {
        -x
    } else {
        x
    };
    ax <= epsilon * before
}

/// The fault of the `i`-th edge, if any.
fn check_edge(input: &Input, out: &Output, globalist: bool, i: usize) -> (r: Option<
    ConstraintError,
>)
    requires
        checkable(*input, out.vertices@),
        out.vertices@.len() == input.figure.vertices@.len(),
        i < input.figure.edges@.len(),
    ensures
        r == edge_fault(*input, out.vertices@, globalist, i as int),
{
    let (a, b) = input.figure.edges[i];
    assert(in_range(out.vertices@[a as int]));
    assert(in_range(out.vertices@[b as int]));
    if !P::contains_s(&input.hole, (out.vertices[a], out.vertices[b])) {
        return Some(ConstraintError::CrossEdge);
    }
    let before = edge_length2(&input.figure.vertices, a, b);
    let after = edge_length2(&out.vertices, a, b);
    if !globalist && !within_epsilon(before, after, input.epsilon) {
        return Some(ConstraintError::IllegalLength);
    }
    None
}

/// Checks the constraints a solution must meet. The total stretch allowed
/// with the Globalist bonus is a sum of ratios in floating point; the caller
/// computes it and tells through `stretch_ok` whether it is within budget.
pub fn check_constraints(input: &Input, out: &Output, stretch_ok: bool) -> (r: Result<
    (),
    ConstraintError,
>)
    requires
        checkable(*input, out.vertices@),
    ensures
        r == check_spec(*input, out.vertices@, out.bonuses@, stretch_ok),
{
    if out.vertices.len() != input.figure.vertices.len() {
        return Err(ConstraintError::VerticesLen);
    }
    let nv = out.vertices.len();
    for k in 0..nv
        invariant
            nv == out.vertices@.len(),
            out.vertices@.len() == input.figure.vertices@.len(),
            checkable(*input, out.vertices@),
            forall|j: int| 0 <= j < k ==> contains_p_spec(input.hole@, #[trigger] out.vertices@[j]) >= 0,
    {
        assert(in_range(out.vertices@[k as int]));
        proof {
            crate::segment::lemma_seg_range(input.hole@);
        }
        if P::contains_p(&input.hole, out.vertices[k]) < 0 {
            return Err(ConstraintError::OutsidePoint);
        }
    }
    let globalist = globalist_used(out);
    let ne = input.figure.edges.len();
    for i in 0..ne
        invariant
            ne == input.figure.edges@.len(),
            checkable(*input, out.vertices@),
            out.vertices@.len() == input.figure.vertices@.len(),
            globalist == uses_globalist(out.bonuses@),
            forall|j: int|
                0 <= j < out.vertices@.len() ==> contains_p_spec(input.hole@, #[trigger] out.vertices@[j])
                    >= 0,
            forall|j: int| 0 <= j < i ==> #[trigger] edge_fault(*input, out.vertices@, globalist, j)
                is None,
    {
        match check_edge(input, out, globalist, i) {
            Some(e) => {
                proof {
                    lemma_first_fault_skip(*input, out.vertices@, globalist, i as int);
                }
                return Err(e);
            },
            None => {},
        }
    }
    proof {
        lemma_first_fault_skip(*input, out.vertices@, globalist, ne as int);
    }
    if globalist && !stretch_ok {
        return Err(ConstraintError::IllegalLength);
    }
    Ok(())
}

/// The difference of `p` and `q`, its squares and its squared length fit in
/// `i64`.
pub open spec fn dist2_fits(p: Point, q: Point) -> bool {
    let d = vsub(v(p), v(q));
    &&& fits(d.0)
    &&& fits(d.1)
    &&& vdot(d, d) <= i64::MAX
}

proof fn lemma_dist2_fits(p: Point, q: Point)
    requires
        dist2_fits(p, q),
    ensures
        fits(p.0 - q.0),
        fits(p.1 - q.1),
        fits((p.0 - q.0) * (p.0 - q.0)),
        fits((p.1 - q.1) * (p.1 - q.1)),
        fits(vdot(vsub(v(p), v(q)), vsub(v(p), v(q)))),
{
    crate::geom::lemma_square_nonneg(p.0 - q.0);
    crate::geom::lemma_square_nonneg(p.1 - q.1);
}

/// Points in range are close enough for their squared distances to fit.
proof fn lemma_in_range_dist2_fits(hole: Seq<Point>, vs: Seq<Point>)
    requires
        all_in_range(hole),
        all_in_range(vs),
    ensures
        forall|i: int, j: int|
            0 <= i < hole.len() && 0 <= j < vs.len() ==> #[trigger] dist2_fits(hole[i], vs[j]),
{
    assert forall|i: int, j: int| 0 <= i < hole.len() && 0 <= j < vs.len() implies #[trigger] dist2_fits(
        hole[i],
        vs[j],
    ) by {
        assert(in_range(hole[i]) && in_range(vs[j]));
        lemma_range_diffs4(hole[i], vs[j], hole[i], vs[j]);
    }
}

/// The nearest squared distance from `p` to the first `k` points is zero
/// exactly when `p` is one of them.
proof fn lemma_min_dist2_zero(p: Point, vs: Seq<Point>, k: int)
    requires
        0 <= k <= vs.len(),
    ensures
        min_dist2(p, vs, k) == 0 <==> vs.subrange(0, k).contains(p),
    decreases k,
{
    lemma_min_dist2_bounds(p, vs, k);
    if k > 0 {
        lemma_min_dist2_zero(p, vs, k - 1);
        lemma_min_dist2_bounds(p, vs, k - 1);
        let d = vsub(v(p), v(vs[k - 1]));
        crate::geom::lemma_square_nonneg(d.0);
        crate::geom::lemma_square_nonneg(d.1);
        assert(vdot(d, d) == 0 <==> d.0 == 0 && d.1 == 0) by (nonlinear_arith)
            requires
                d.0 * d.0 >= 0,
                d.1 * d.1 >= 0,
        ;
        let s = vs.subrange(0, k);
        let s1 = vs.subrange(0, k - 1);
        assert(s =~= s1.push(vs[k - 1]));
        if s.contains(p) {
            let j = choose|j: int| 0 <= j < s.len() && s[j] == p;
            if j < k - 1 {
                assert(s1[j] == p);
            }
        }
        if s1.contains(p) {
            let j = choose|j: int| 0 <= j < s1.len() && s1[j] == p;
            assert(s[j] == p);
        }
        if d.0 == 0 && d.1 == 0 {
            assert(s[k - 1] == p);
        }
    }
}

/// The dislikes of the first `k` hole vertices are zero exactly when each of
/// them is a position of the figure.
pub proof fn lemma_dislikes_zero(hole: Seq<Point>, vs: Seq<Point>, k: int)
    requires
        0 <= k <= hole.len(),
    ensures
        dislikes_upto(hole, vs, k) >= 0,
        dislikes_upto(hole, vs, k) == 0 <==> forall|i: int| 0 <= i < k ==> vs.contains(#[trigger] hole[i]),
    decreases k,
{
    if k > 0 {
        lemma_dislikes_zero(hole, vs, k - 1);
        lemma_min_dist2_zero(hole[k - 1], vs, vs.len() as int);
        lemma_min_dist2_bounds(hole[k - 1], vs, vs.len() as int);
        assert(vs.subrange(0, vs.len() as int) =~= vs);
        if dislikes_upto(hole, vs, k) == 0 {
            assert forall|i: int| 0 <= i < k implies vs.contains(#[trigger] hole[i]) by {
                if i < k - 1 {
                    assert(vs.contains(hole[i]));
                }
            }
        }
    }
}

/// The dislikes of a pose: for each hole vertex, the squared distance to the
/// nearest figure vertex, summed.
pub fn compute_dislikes(input: &Input, out: &Output) -> (d: i64)
    requires
        forall|i: int, j: int|
            0 <= i < input.hole@.len() && 0 <= j < out.vertices@.len() ==> #[trigger] dist2_fits(
                input.hole@[i],
                out.vertices@[j],
            ),
        dislikes(input.hole@, out.vertices@) <= i64::MAX,
    ensures
        d == dislikes(input.hole@, out.vertices@),
        d >= 0,
        d == 0 <==> forall|i: int|
            0 <= i < input.hole@.len() ==> out.vertices@.contains(#[trigger] input.hole@[i]),
{
    proof {
        lemma_dislikes_zero(input.hole@, out.vertices@, input.hole@.len() as int);
    }
    let nh = input.hole.len();
    let nv = out.vertices.len();
    let mut total: i64 = 0;
    for i in 0..nh
        invariant
            nh == input.hole@.len(),
            nv == out.vertices@.len(),
            forall|i: int, j: int|
                0 <= i < input.hole@.len() && 0 <= j < out.vertices@.len() ==> #[trigger] dist2_fits(
                    input.hole@[i],
                    out.vertices@[j],
                ),
            dislikes(input.hole@, out.vertices@) <= i64::MAX,
            total == dislikes_upto(input.hole@, out.vertices@, i as int),
    {
        let p = input.hole[i];
        let mut min: i64 = i64::MAX;
        for j in 0..nv
            invariant
                nv == out.vertices@.len(),
                i < input.hole@.len(),
                p == input.hole@[i as int],
                forall|i: int, j: int|
                    0 <= i < input.hole@.len() && 0 <= j < out.vertices@.len() ==> #[trigger] dist2_fits(
                        input.hole@[i],
                        out.vertices@[j],
                    ),
                min == min_dist2(p, out.vertices@, j as int),
        {
            let q = out.vertices[j];
            proof {
                assert(dist2_fits(input.hole@[i as int], out.vertices@[j as int]));
                lemma_dist2_fits(p, q);
            }
            let d = (p - q).abs2();
            if d < min {
                min = d;
            }
        }
        proof {
            lemma_dislikes_monotone(input.hole@, out.vertices@, i + 1, nh as int);
        }
        total = total + min;
    }
    total
}

/// The score of a solution, or the first constraint it breaks.
pub fn compute_score_or_err(input: &Input, out: &Output, stretch_ok: bool) -> (r: Result<
    i64,
    ConstraintError,
>)
    requires
        scorable(*input, out.vertices@, out.bonuses@, stretch_ok),
    ensures
        r == match check_spec(*input, out.vertices@, out.bonuses@, stretch_ok) {
            Ok(()) => Ok(dislikes(input.hole@, out.vertices@) as i64),
            Err(e) => Err(e),
        },
        r matches Ok(d) ==> d == dislikes(input.hole@, out.vertices@),
{
    match check_constraints(input, out, stretch_ok) {
        Ok(()) => {
            proof {
                lemma_in_range_dist2_fits(input.hole@, out.vertices@);
            }
            Ok(compute_dislikes(input, out))
        },
        Err(e) => Err(e),
    }
}

/// The score of a solution: its dislikes when valid, `INVALID_SCORE` otherwise.
pub fn compute_score(input: &Input, out: &Output, stretch_ok: bool) -> (s: i64)
    requires
        scorable(*input, out.vertices@, out.bonuses@, stretch_ok),
    ensures
        s == score_spec(*input, out.vertices@, out.bonuses@, stretch_ok),
{
    match compute_score_or_err(input, out, stretch_ok) {
        Ok(d) => d,
        Err(_) => INVALID_SCORE,
    }
}

// ---------------------------------------------------------------------------
// Evaluation
// ---------------------------------------------------------------------------

/// Position of a bonus kind in the declaration order.
pub open spec fn kind_index(b: BonusType) -> int {
    match b {
        BonusType::Globalist => 0,
        BonusType::BreakALeg => 1,
        BonusType::WallHack => 2,
        BonusType::SuperFlex => 3,
    }
}

fn kind_rank(b: BonusType) -> (r: u8)
    ensures
        r == kind_index(b),
{
    match b {
        BonusType::Globalist => 0,
        BonusType::BreakALeg => 1,
        BonusType::WallHack => 2,
        BonusType::SuperFlex => 3,
    }
}

/// Bonuses are ordered as their derived `Ord` orders them: by kind, then
/// problem, then position, then edge.
impl TotalOrder for Bonus {
    open spec fn le(self, other: Self) -> bool {
        let (a, b) = (self, other);
        let by_edge = a.edge.0 < b.edge.0 || (a.edge.0 == b.edge.0 && a.edge.1 <= b.edge.1);
        let by_y = a.position.1 < b.position.1 || (a.position.1 == b.position.1 && by_edge);
        let by_x = a.position.0 < b.position.0 || (a.position.0 == b.position.0 && by_y);
        let by_problem = a.problem < b.problem || (a.problem == b.problem && by_x);
        kind_index(a.bonus) < kind_index(b.bonus) || (kind_index(a.bonus) == kind_index(b.bonus)
            && by_problem)
    }

    proof fn le_total(a: Self, b: Self) {
    }

    proof fn le_trans(a: Self, b: Self, c: Self) {
    }

    proof fn le_antisym(a: Self, b: Self) {
        assert(a.bonus == b.bonus);
    }

    fn le_exec(&self, other: &Self) -> (r: bool) {
        let ka = kind_rank(self.bonus);
        let kb = kind_rank(other.bonus);
        if ka != kb {
            return ka < kb;
        }
        if self.problem != other.problem {
            return self.problem < other.problem;
        }
        if self.position.0 != other.position.0 {
            return self.position.0 < other.position.0;
        }
        if self.position.1 != other.position.1 {
            return self.position.1 < other.position.1;
        }
        if self.edge.0 != other.edge.0 {
            return self.edge.0 < other.edge.0;
        }
        self.edge.1 <= other.edge.1
    }
}

/// Used bonuses are ordered by kind, then problem.
impl TotalOrder for UseBonus {
    open spec fn le(self, other: Self) -> bool {
        kind_index(self.bonus) < kind_index(other.bonus) || (kind_index(self.bonus) == kind_index(
            other.bonus,
        ) && self.problem <= other.problem)
    }

    proof fn le_total(a: Self, b: Self) {
    }

    proof fn le_trans(a: Self, b: Self, c: Self) {
    }

    proof fn le_antisym(a: Self, b: Self) {
        assert(a.bonus == b.bonus);
    }

    fn le_exec(&self, other: &Self) -> (r: bool) {
        let ka = kind_rank(self.bonus);
        let kb = kind_rank(other.bonus);
        ka < kb || (ka == kb && self.problem <= other.problem)
    }
}

/// The bonus `b` once for each of the first `k` vertices standing on it.
pub open spec fn hits(b: Bonus, vs: Seq<Point>, k: int) -> Seq<Bonus>
    decreases k,
{
    if k <= 0 {
        Seq::empty()
    } else if vs[k - 1] == b.position {
        hits(b, vs, k - 1).push(b)
    } else {
        hits(b, vs, k - 1)
    }
}

/// The bonuses among the first `i` that the vertices obtain, each once per
/// vertex standing on it.
pub open spec fn obtained_upto(bs: Seq<Bonus>, vs: Seq<Point>, i: int) -> Seq<Bonus>
    decreases i,
{
    if i <= 0 {
        Seq::empty()
    } else {
        obtained_upto(bs, vs, i - 1) + hits(bs[i - 1], vs, vs.len() as int)
    }
}

/// The hits of a bonus among the first `k` vertices are copies of it, one
/// for each of those vertices standing on its position.
pub proof fn lemma_hits_count(b: Bonus, vs: Seq<Point>, k: int)
    requires
        0 <= k <= vs.len(),
    ensures
        forall|i: int| 0 <= i < hits(b, vs, k).len() ==> #[trigger] hits(b, vs, k)[i] == b,
        hits(b, vs, k).len() == vs.subrange(0, k).to_multiset().count(b.position),
    decreases k,
{
    broadcast use vstd::seq_lib::group_to_multiset_ensures;
    broadcast use vstd::multiset::group_multiset_axioms;

    if k == 0 {
        assert(vs.subrange(0, 0) =~= Seq::<Point>::empty());
        assert(vs.subrange(0, 0).to_multiset() =~= vstd::multiset::Multiset::empty());
    } else {
        lemma_hits_count(b, vs, k - 1);
        assert(vs.subrange(0, k) =~= vs.subrange(0, k - 1).push(vs[k - 1]));
        assert(vs.subrange(0, k).to_multiset() =~= vs.subrange(0, k - 1).to_multiset().insert(
            vs[k - 1],
        ));
    }
}

/// Each bonus obtained from the first `i` bonuses is one of them with a
/// vertex on its position, and each of them with a vertex on its position is
/// obtained.
pub proof fn lemma_obtained_members(bs: Seq<Bonus>, vs: Seq<Point>, i: int)
    requires
        0 <= i <= bs.len(),
    ensures
        forall|o: Bonus|
            #[trigger] obtained_upto(bs, vs, i).contains(o) <==> exists|j: int|
                0 <= j < i && #[trigger] bs[j] == o && vs.contains(o.position),
    decreases i,
{
    if i > 0 {
        lemma_obtained_members(bs, vs, i - 1);
        let b = bs[i - 1];
        let n = vs.len() as int;
        lemma_hits_contains(b, vs, n);
        assert(vs.subrange(0, n) =~= vs);
        let prev = obtained_upto(bs, vs, i - 1);
        let h = hits(b, vs, n);
        assert forall|o: Bonus|
            #[trigger] obtained_upto(bs, vs, i).contains(o) <==> exists|j: int|
                0 <= j < i && #[trigger] bs[j] == o && vs.contains(o.position) by {
            assert(obtained_upto(bs, vs, i) == prev + h);
            if (prev + h).contains(o) {
                let t = choose|t: int| 0 <= t < (prev + h).len() && (prev + h)[t] == o;
                if t < prev.len() {
                    assert(prev.contains(o));
                } else {
                    let u = t - prev.len();
                    assert((prev + h)[t] == h[u]);
                    assert(0 <= u < h.len() && h[u] == o);
                    assert(h.contains(o));
                    assert(bs[i - 1] == o);
                }
            }
            if exists|j: int| 0 <= j < i && #[trigger] bs[j] == o && vs.contains(o.position) {
                let j = choose|j: int| 0 <= j < i && #[trigger] bs[j] == o && vs.contains(o.position);
                if j < i - 1 {
                    assert(prev.contains(o));
                    let t = choose|t: int| 0 <= t < prev.len() && prev[t] == o;
                    assert((prev + h)[t] == o);
                } else {
                    assert(h.contains(o));
                    let t = choose|t: int| 0 <= t < h.len() && h[t] == o;
                    assert((prev + h)[prev.len() + t] == o);
                }
            }
        }
    }
}

/// The hits of a bonus among the first `k` vertices are not empty exactly
/// when one of them stands on its position.
proof fn lemma_hits_contains(b: Bonus, vs: Seq<Point>, k: int)
    requires
        0 <= k <= vs.len(),
    ensures
        hits(b, vs, k).contains(b) <==> vs.subrange(0, k).contains(b.position),
        forall|o: Bonus| #[trigger] hits(b, vs, k).contains(o) ==> o == b,
    decreases k,
{
    if k > 0 {
        lemma_hits_contains(b, vs, k - 1);
        let h = hits(b, vs, k - 1);
        let s = vs.subrange(0, k);
        let s1 = vs.subrange(0, k - 1);
        assert(s =~= s1.push(vs[k - 1]));
        if s1.contains(b.position) {
            let j = choose|j: int| 0 <= j < s1.len() && s1[j] == b.position;
            assert(s[j] == b.position);
        }
        if s.contains(b.position) && vs[k - 1] != b.position {
            let j = choose|j: int| 0 <= j < s.len() && s[j] == b.position;
            assert(s1[j] == b.position);
        }
        if vs[k - 1] == b.position {
            assert(h.push(b)[h.len() as int] == b);
            assert(s[k - 1] == b.position);
        }
        assert forall|o: Bonus| #[trigger] hits(b, vs, k).contains(o) implies o == b by {
            if vs[k - 1] == b.position {
                let t = choose|t: int| 0 <= t < h.push(b).len() && h.push(b)[t] == o;
                if t < h.len() {
                    assert(h[t] == o);
                    assert(h.contains(o));
                }
            }
        }
        if h.contains(b) && vs[k - 1] == b.position {
            let t = choose|t: int| 0 <= t < h.len() && h[t] == b;
            assert(h.push(b)[t] == b);
        }
    } else {
        assert(vs.subrange(0, 0) =~= Seq::<Point>::empty());
    }
}

pub open spec fn obtained(bs: Seq<Bonus>, vs: Seq<Point>) -> Seq<Bonus> {
    obtained_upto(bs, vs, bs.len() as int)
}

/// Evaluates a solution: its dislikes (-1 when it is invalid or scores
/// `INVALID_SCORE` or more), the bonuses it uses, and the bonuses it obtains
/// (one for each vertex on a bonus), both sorted.
pub fn evaluate(input: &Input, output: &Output, stretch_ok: bool) -> (e: Evaluation)
    requires
        scorable(*input, output.vertices@, output.bonuses@, stretch_ok),
    ensures
        e.dislikes == if score_spec(*input, output.vertices@, output.bonuses@, stretch_ok)
            < INVALID_SCORE {
            score_spec(*input, output.vertices@, output.bonuses@, stretch_ok)
        } else {
            -1
        },
        sorted(e.bonuses@),
        e.bonuses@.to_multiset() == output.bonuses@.to_multiset(),
        sorted(e.obtained_bonuses@),
        e.obtained_bonuses@.to_multiset() == obtained(input.bonuses@, output.vertices@).to_multiset(),
{
    let dislikes = compute_score(input, output, stretch_ok);

    let mut obtained_bonuses: Vec<Bonus> = Vec::new();
    let nb = input.bonuses.len();
    let nv = output.vertices.len();
    for i in 0..nb
        invariant
            nb == input.bonuses@.len(),
            nv == output.vertices@.len(),
            obtained_bonuses@ == obtained_upto(input.bonuses@, output.vertices@, i as int),
    {
        let bonus = input.bonuses[i];
        let ghost before = obtained_bonuses@;
        for j in 0..nv
            invariant
                nv == output.vertices@.len(),
                bonus == input.bonuses@[i as int],
                obtained_bonuses@ == before + hits(bonus, output.vertices@, j as int),
        {
            let p = output.vertices[j];
            if bonus.position.0 == p.0 && bonus.position.1 == p.1 {
                obtained_bonuses.push(bonus);
                assert(obtained_bonuses@ =~= before + hits(bonus, output.vertices@, j + 1));
            } else {
                assert(output.vertices@[j as int] != bonus.position);
            }
        }
    }
    insertion_sort(&mut obtained_bonuses);

    let mut bonuses: Vec<UseBonus> = Vec::new();
    for i in 0..output.bonuses.len()
        invariant
            bonuses@ == output.bonuses@.subrange(0, i as int),
    {
        bonuses.push(output.bonuses[i]);
        assert(bonuses@ =~= output.bonuses@.subrange(0, i + 1));
    }
    assert(output.bonuses@.subrange(0, output.bonuses@.len() as int) =~= output.bonuses@);
    insertion_sort(&mut bonuses);

    Evaluation {
        dislikes: if dislikes < INVALID_SCORE {
            dislikes
        } else {
            -1
        },
        bonuses: bonuses,
        obtained_bonuses: obtained_bonuses,
    }
}

/// How a squared length `d2` compares with the original `base_d2` under the
/// tolerance `epsilon` (in millionths): `Equal` when within it, otherwise
/// `Less` when shorter and `Greater` when longer.
pub fn stretch_within(d2: i64, base_d2: i64, epsilon: i64) -> (o: Ordering)
    requires
        fits(d2 - base_d2),
        fits(iabs(d2 - base_d2) * 1000000),
        fits(epsilon * base_d2),
        fits(iabs(d2 - base_d2) * 1000000 - epsilon * base_d2),
    ensures
        o == (if iabs(d2 - base_d2) * 1000000 - epsilon * base_d2 <= 0 {
            Ordering::Equal
        } else if d2 < base_d2 {
            Ordering::Less
        } else {
            Ordering::Greater
        }),
{
    let diff = d2 - base_d2;
    let ad = if diff < 0 {
        -diff
    } else {
        diff
    };
    if !(ad * 1000000 - epsilon * base_d2 > 0) {
        Ordering::Equal
    } else if diff < 0 {
        Ordering::Less
    } else {
        Ordering::Greater
    }
}

} // verus!
