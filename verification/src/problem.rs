use vstd::prelude::*;
use crate::geom::{fits, v, vdet, Point, P};
use crate::sorting::{dedup_sorted, insertion_sort, strictly_sorted};

verus! {

/// A problem: the hole (a polygon), the figure to place in it, the allowed
/// stretch `epsilon` (in millionths) and the bonuses placed in the hole.
#[derive(Clone, Debug, Hash, PartialEq, Eq, PartialOrd, Ord)]
pub struct Input {
    pub hole: Vec<Point>,
    pub figure: Figure,
    pub epsilon: i64,
    pub bonuses: Vec<Bonus>,
    /// `None`: the coordinates are those of the problem file. `Some(flag)`:
    /// they were shifted for internal use, and `flag.reversed_hole` tells
    /// whether the hole was reversed to run clockwise.
    pub internal: Option<InputInternal>,
}

#[derive(Clone, Copy, Debug, Hash, PartialEq, Eq, PartialOrd, Ord, Default)]
pub struct InputInternal {
    pub reversed_hole: bool,
}

/// The figure: vertices and the edges between them, as pairs of vertex indices.
#[derive(Clone, Debug, Hash, PartialEq, Eq, PartialOrd, Ord)]
pub struct Figure {
    pub edges: Vec<(usize, usize)>,
    pub vertices: Vec<Point>,
}

/// A bonus available in a problem: its kind, the problem it unlocks, where it
/// lies and (for `BreakALeg`) an edge.
#[derive(Clone, Copy, Debug, Hash, PartialEq, Eq, PartialOrd, Ord)]
pub struct Bonus {
    pub bonus: BonusType,
    pub problem: u32,
    pub position: Point,
    pub edge: (usize, usize),
}

/// A bonus used by a solution.
#[derive(Clone, Copy, Debug, Hash, PartialEq, Eq, PartialOrd, Ord)]
pub struct UseBonus {
    pub bonus: BonusType,
    pub problem: u32,
}

#[derive(Clone, Copy, Debug, Hash, PartialEq, Eq, PartialOrd, Ord)]
pub enum BonusType {
    Globalist,
    BreakALeg,
    WallHack,
    SuperFlex,
}

/// A solution (pose): the new positions of the figure's vertices and the
/// bonuses it uses.
#[derive(Clone, Debug, Hash, PartialEq, Eq, PartialOrd, Ord)]
pub struct Output {
    pub vertices: Vec<Point>,
    pub bonuses: Vec<UseBonus>,
}

/// The result of evaluating a solution.
#[derive(Clone, Debug, Hash, PartialEq, Eq, PartialOrd, Ord)]
pub struct Evaluation {
    /// The dislikes; -1 when the solution is invalid.
    pub dislikes: i64,
    /// The bonuses the solution uses, sorted.
    pub bonuses: Vec<UseBonus>,
    /// The bonuses the solution obtains in this problem, sorted.
    pub obtained_bonuses: Vec<Bonus>,
}

/// Internal coordinates are the problem's shifted by `(SHIFT_X, SHIFT_Y)`.
pub const SHIFT_X: i64 = 2;

pub const SHIFT_Y: i64 = 0;

// ---------------------------------------------------------------------------
// Model
// ---------------------------------------------------------------------------

pub open spec fn shift_pt(p: Point, dx: int, dy: int) -> Point {
    P((p.0 + dx) as i64, (p.1 + dy) as i64)
}

pub open spec fn shifted(ps: Seq<Point>, dx: int, dy: int) -> Seq<Point> {
    ps.map_values(|p: Point| shift_pt(p, dx, dy))
}

pub open spec fn shift_fits(ps: Seq<Point>, dx: int, dy: int) -> bool {
    forall|i: int| 0 <= i < ps.len() ==> fits(#[trigger] ps[i].0 + dx) && fits(ps[i].1 + dy)
}

pub open spec fn shift_bonus(b: Bonus, dx: int, dy: int) -> Bonus {
    Bonus { position: shift_pt(b.position, dx, dy), ..b }
}

pub open spec fn shifted_bonuses(bs: Seq<Bonus>, dx: int, dy: int) -> Seq<Bonus> {
    bs.map_values(|b: Bonus| shift_bonus(b, dx, dy))
}

pub open spec fn bonus_shift_fits(bs: Seq<Bonus>, dx: int, dy: int) -> bool {
    forall|i: int|
        0 <= i < bs.len() ==> fits(#[trigger] bs[i].position.0 + dx) && fits(
            bs[i].position.1 + dy,
        )
}

/// Index of the vertex after `i` on the closed polygon `ps`.
pub open spec fn next_index(ps: Seq<Point>, i: int) -> int {
    (i + 1) % (ps.len() as int)
}

/// Twice the signed area of the first `k` triangles of the shoelace formula.
pub open spec fn area2_upto(ps: Seq<Point>, k: int) -> int
    decreases k,
{
    if k <= 0 {
        0
    } else {
        area2_upto(ps, k - 1) + vdet(v(ps[k - 1]), v(ps[next_index(ps, k - 1)]))
    }
}

/// Twice the signed area of the polygon: positive when it runs
/// counterclockwise (in a frame whose y axis points up).
pub open spec fn area2(ps: Seq<Point>) -> int {
    area2_upto(ps, ps.len() as int)
}

/// The shoelace sum can be computed in `i64`.
pub open spec fn area_fits(ps: Seq<Point>) -> bool {
    &&& forall|i: int|
        0 <= i < ps.len() ==> fits(#[trigger] ps[i].0 * ps[next_index(ps, i)].1) && fits(
            ps[i].1 * ps[next_index(ps, i)].0,
        ) && fits(vdet(v(ps[i]), v(ps[next_index(ps, i)])))
    &&& forall|k: int| 0 <= k <= ps.len() ==> fits(#[trigger] area2_upto(ps, k))
}

/// An edge with its smaller vertex index first.
pub open spec fn norm_edge(e: (usize, usize)) -> (usize, usize) {
    if e.0 > e.1 {
        (e.1, e.0)
    } else {
        e
    }
}

pub open spec fn normalized_edges(es: Seq<(usize, usize)>) -> Seq<(usize, usize)> {
    es.map_values(|e: (usize, usize)| norm_edge(e))
}

/// The hole of a problem after the conversion to internal coordinates:
/// shifted, and reversed when it ran counterclockwise.
pub open spec fn internal_hole(hole: Seq<Point>) -> Seq<Point> {
    let s = shifted(hole, SHIFT_X as int, SHIFT_Y as int);
    if area2(s) > 0 {
        s.reverse()
    } else {
        s
    }
}

/// What `Input::to_internal` needs to run without failing.
pub open spec fn can_internalize(input: Input) -> bool {
    &&& input.internal is None
    &&& shift_fits(input.hole@, SHIFT_X as int, SHIFT_Y as int)
    &&& forall|i: int|
        0 <= i < input.hole@.len() ==> #[trigger] input.hole@[i].0 + SHIFT_X >= 0
            && input.hole@[i].1 + SHIFT_Y >= 0
    &&& area_fits(shifted(input.hole@, SHIFT_X as int, SHIFT_Y as int))
    &&& shift_fits(input.figure.vertices@, SHIFT_X as int, SHIFT_Y as int)
    &&& bonus_shift_fits(input.bonuses@, SHIFT_X as int, SHIFT_Y as int)
}

/// What `Input::to_external` needs to run without failing.
pub open spec fn can_externalize(input: Input) -> bool {
    &&& input.internal is Some
    &&& shift_fits(input.hole@, -SHIFT_X, -SHIFT_Y)
    &&& shift_fits(input.figure.vertices@, -SHIFT_X, -SHIFT_Y)
    &&& bonus_shift_fits(input.bonuses@, -SHIFT_X, -SHIFT_Y)
}

// ---------------------------------------------------------------------------
// Helpers
// ---------------------------------------------------------------------------

/// Every point moved by `(dx, dy)`.
pub fn shift_points(ps: &Vec<Point>, dx: i64, dy: i64) -> (r: Vec<Point>)
    requires
        shift_fits(ps@, dx as int, dy as int),
    ensures
        r@ == shifted(ps@, dx as int, dy as int),
{
    let mut r: Vec<Point> = Vec::new();
    for i in 0..ps.len()
        invariant
            shift_fits(ps@, dx as int, dy as int),
            r@ == shifted(ps@.subrange(0, i as int), dx as int, dy as int),
    {
        assert(fits(ps@[i as int].0 + dx));
        r.push(P(ps[i].0 + dx, ps[i].1 + dy));
        assert(ps@.subrange(0, i + 1) =~= ps@.subrange(0, i as int).push(ps@[i as int]));
        assert(r@ =~= shifted(ps@.subrange(0, i + 1), dx as int, dy as int));
    }
    assert(ps@.subrange(0, ps@.len() as int) =~= ps@);
    r
}

/// Every bonus moved by `(dx, dy)`.
pub fn shift_bonuses(bs: &Vec<Bonus>, dx: i64, dy: i64) -> (r: Vec<Bonus>)
    requires
        bonus_shift_fits(bs@, dx as int, dy as int),
    ensures
        r@ == shifted_bonuses(bs@, dx as int, dy as int),
{
    let mut r: Vec<Bonus> = Vec::new();
    for i in 0..bs.len()
        invariant
            bonus_shift_fits(bs@, dx as int, dy as int),
            r@ == shifted_bonuses(bs@.subrange(0, i as int), dx as int, dy as int),
    {
        let b = bs[i];
        assert(fits(bs@[i as int].position.0 + dx));
        r.push(Bonus { position: P(b.position.0 + dx, b.position.1 + dy), ..b });
        assert(bs@.subrange(0, i + 1) =~= bs@.subrange(0, i as int).push(bs@[i as int]));
        assert(r@ =~= shifted_bonuses(bs@.subrange(0, i + 1), dx as int, dy as int));
    }
    assert(bs@.subrange(0, bs@.len() as int) =~= bs@);
    r
}

/// The points in reverse order.
pub fn reversed(ps: &Vec<Point>) -> (r: Vec<Point>)
    ensures
        r@ == ps@.reverse(),
{
    let mut r: Vec<Point> = Vec::new();
    let n = ps.len();
    for i in 0..n
        invariant
            n == ps.len(),
            r@.len() == i,
            forall|k: int| 0 <= k < i ==> r@[k] == ps@[n - 1 - k],
    {
        r.push(ps[n - 1 - i]);
    }
    assert(r@ =~= ps@.reverse());
    r
}

/// Twice the signed area of the polygon (shoelace formula).
pub fn signed_area2(ps: &Vec<Point>) -> (a: i64)
    requires
        area_fits(ps@),
    ensures
        a == area2(ps@),
{
    let n = ps.len();
    let mut area: i64 = 0;
    for i in 0..n
        invariant
            n == ps.len(),
            area_fits(ps@),
            area == area2_upto(ps@, i as int),
    {
        let j = (i + 1) % n;
        assert(fits(ps@[i as int].0 * ps@[next_index(ps@, i as int)].1));
        assert(fits(area2_upto(ps@, i + 1)));
        area = area + ps[i].det(ps[j]);
    }
    area
}

/// `after` is the problem `before` in internal coordinates, as
/// `Input::to_internal` leaves it.
pub open spec fn internalized(before: Input, after: Input) -> bool {
    &&& after.hole@ == internal_hole(before.hole@)
    &&& after.figure.vertices@ == shifted(before.figure.vertices@, SHIFT_X as int, SHIFT_Y as int)
    &&& after.bonuses@ == shifted_bonuses(before.bonuses@, SHIFT_X as int, SHIFT_Y as int)
    &&& after.epsilon == before.epsilon
    &&& after.internal == Some(
        InputInternal {
            reversed_hole: area2(shifted(before.hole@, SHIFT_X as int, SHIFT_Y as int)) > 0,
        },
    )
    &&& strictly_sorted(after.figure.edges@)
    &&& after.figure.edges@.to_set() == normalized_edges(before.figure.edges@).to_set()
}

/// `after` is the problem `before` back in external coordinates, as
/// `Input::to_external` leaves it.
pub open spec fn externalized(before: Input, after: Input) -> bool {
    &&& after.hole@ == external_hole(before.hole@, before.internal.unwrap().reversed_hole)
    &&& after.figure.vertices@ == shifted(before.figure.vertices@, -SHIFT_X, -SHIFT_Y)
    &&& after.bonuses@ == shifted_bonuses(before.bonuses@, -SHIFT_X, -SHIFT_Y)
    &&& after.figure.edges@ == before.figure.edges@
    &&& after.epsilon == before.epsilon
    &&& after.internal is None
}

/// Converting a problem to internal coordinates and back gives back its
/// hole (in its original order), vertices, bonuses and tolerance, with no
/// internal record; its edges stay as `to_internal` normalized them: each
/// with the smaller index first, sorted, without repeats.
pub proof fn lemma_input_roundtrip(input: Input, mid: Input, back: Input)
    requires
        can_internalize(input),
        internalized(input, mid),
        externalized(mid, back),
    ensures
        back.hole@ == input.hole@,
        back.figure.vertices@ == input.figure.vertices@,
        back.bonuses@ == input.bonuses@,
        back.epsilon == input.epsilon,
        back.internal is None,
        strictly_sorted(back.figure.edges@),
        back.figure.edges@.to_set() == normalized_edges(input.figure.edges@).to_set(),
{
    lemma_internal_roundtrip(input);
}

impl Input {
    /// Converts a problem to internal coordinates: shifts every point by
    /// `(SHIFT_X, SHIFT_Y)`, writes each edge with its smaller index first,
    /// sorts the edges and drops repeated ones, and reverses the hole when it
    /// runs counterclockwise, recording that in `internal`.
    pub fn to_internal(&mut self)
        requires
            can_internalize(*old(self)),
        ensures
            final(self).hole@ == internal_hole(old(self).hole@),
            final(self).figure.vertices@ == shifted(
                old(self).figure.vertices@,
                SHIFT_X as int,
                SHIFT_Y as int,
            ),
            final(self).bonuses@ == shifted_bonuses(
                old(self).bonuses@,
                SHIFT_X as int,
                SHIFT_Y as int,
            ),
            final(self).epsilon == old(self).epsilon,
            final(self).internal == Some(
                InputInternal {
                    reversed_hole: area2(shifted(old(self).hole@, SHIFT_X as int, SHIFT_Y as int)) > 0,
                },
            ),
            strictly_sorted(final(self).figure.edges@),
            final(self).figure.edges@.to_set() == normalized_edges(
                old(self).figure.edges@,
            ).to_set(),
            forall|i: int|
                0 <= i < final(self).figure.edges@.len() ==> #[trigger] final(self).figure.edges@[i].0
                    <= final(self).figure.edges@[i].1,
            internalized(*old(self), *final(self)),
            area2(final(self).hole@) <= 0,
    {
        let hole = shift_points(&self.hole, SHIFT_X, SHIFT_Y);
        let vertices = shift_points(&self.figure.vertices, SHIFT_X, SHIFT_Y);
        let bonuses = shift_bonuses(&self.bonuses, SHIFT_X, SHIFT_Y);

        let mut edges: Vec<(usize, usize)> = Vec::new();
        let ne = self.figure.edges.len();
        for i in 0..ne
            invariant
                ne == self.figure.edges.len(),
                edges@ == normalized_edges(self.figure.edges@.subrange(0, i as int)),
        {
            let (a, b) = self.figure.edges[i];
            if a > b {
                edges.push((b, a));
            } else {
                edges.push((a, b));
            }
            assert(self.figure.edges@.subrange(0, i + 1) =~= self.figure.edges@.subrange(
                0,
                i as int,
            ).push(self.figure.edges@[i as int]));
            assert(edges@ =~= normalized_edges(self.figure.edges@.subrange(0, i + 1)));
        }
        assert(self.figure.edges@.subrange(0, ne as int) =~= self.figure.edges@);
        let ghost norm = edges@;
        insertion_sort(&mut edges);
        let ghost sorted_edges = edges@;
        let edges = dedup_sorted(&edges);
        proof {
            lemma_multiset_same_set(sorted_edges, norm);
            assert forall|i: int| 0 <= i < edges@.len() implies #[trigger] edges@[i].0
                <= edges@[i].1 by {
                assert(edges@.to_set().contains(edges@[i]));
                assert(norm.to_set().contains(edges@[i]));
                assert(norm.contains(edges@[i]));
            }
        }

        let area = signed_area2(&hole);
        let reversed_hole = area > 0;
        let hole = if reversed_hole {
            reversed(&hole)
        } else {
            hole
        };
        self.hole = hole;
        self.figure.vertices = vertices;
        self.bonuses = bonuses;
        self.figure.edges = edges;
        self.internal = Some(InputInternal { reversed_hole });
        proof {
            lemma_internal_hole_clockwise(old(self).hole@);
        }
    }
}

impl Input {
    /// Converts a problem back from internal coordinates: shifts every point
    /// back, and reverses the hole again when `to_internal` reversed it.
    /// The edges stay as they are.
    pub fn to_external(&mut self)
        requires
            can_externalize(*old(self)),
        ensures
            final(self).hole@ == external_hole(
                old(self).hole@,
                old(self).internal.unwrap().reversed_hole,
            ),
            final(self).figure.vertices@ == shifted(
                old(self).figure.vertices@,
                -SHIFT_X,
                -SHIFT_Y,
            ),
            final(self).bonuses@ == shifted_bonuses(old(self).bonuses@, -SHIFT_X, -SHIFT_Y),
            final(self).figure.edges@ == old(self).figure.edges@,
            final(self).epsilon == old(self).epsilon,
            final(self).internal is None,
            externalized(*old(self), *final(self)),
    {
        let internal = match self.internal {
            Some(x) => x,
            None => {
                proof {
                    assert(false);
                }
                InputInternal { reversed_hole: false }
            },
        };
        self.internal = None;
        let hole = shift_points(&self.hole, -SHIFT_X, -SHIFT_Y);
        let hole = if internal.reversed_hole {
            reversed(&hole)
        } else {
            hole
        };
        let vertices = shift_points(&self.figure.vertices, -SHIFT_X, -SHIFT_Y);
        let bonuses = shift_bonuses(&self.bonuses, -SHIFT_X, -SHIFT_Y);
        self.hole = hole;
        self.figure.vertices = vertices;
        self.bonuses = bonuses;
    }
}

impl Output {
    /// Converts a solution to internal coordinates.
    pub fn to_internal(&mut self)
        requires
            shift_fits(old(self).vertices@, SHIFT_X as int, SHIFT_Y as int),
        ensures
            final(self).vertices@ == shifted(old(self).vertices@, SHIFT_X as int, SHIFT_Y as int),
            final(self).bonuses@ == old(self).bonuses@,
    {
        let vertices = shift_points(&self.vertices, SHIFT_X, SHIFT_Y);
        self.vertices = vertices;
    }

    /// Converts a solution back from internal coordinates.
    pub fn to_external(&mut self)
        requires
            shift_fits(old(self).vertices@, -SHIFT_X, -SHIFT_Y),
        ensures
            final(self).vertices@ == shifted(old(self).vertices@, -SHIFT_X, -SHIFT_Y),
            final(self).bonuses@ == old(self).bonuses@,
    {
        let vertices = shift_points(&self.vertices, -SHIFT_X, -SHIFT_Y);
        self.vertices = vertices;
    }
}

/// The hole of a problem after the conversion back from internal
/// coordinates: shifted back, and reversed when it had been reversed.
pub open spec fn external_hole(hole: Seq<Point>, reversed_hole: bool) -> Seq<Point> {
    let s = shifted(hole, -SHIFT_X, -SHIFT_Y);
    if reversed_hole {
        s.reverse()
    } else {
        s
    }
}

// ---------------------------------------------------------------------------
// Laws
// ---------------------------------------------------------------------------

/// Shifting points by `(dx, dy)` and back gives the points again.
pub proof fn lemma_shift_back(ps: Seq<Point>, dx: int, dy: int)
    requires
        shift_fits(ps, dx, dy),
    ensures
        shifted(shifted(ps, dx, dy), -dx, -dy) == ps,
{
    assert(shifted(shifted(ps, dx, dy), -dx, -dy) =~= ps);
}

/// Converting a hole to internal coordinates and back gives it back, in its
/// original order.
pub proof fn lemma_hole_roundtrip(h: Seq<Point>)
    requires
        shift_fits(h, SHIFT_X as int, SHIFT_Y as int),
    ensures
        external_hole(internal_hole(h), area2(shifted(h, SHIFT_X as int, SHIFT_Y as int)) > 0)
            == h,
{
    let s = shifted(h, SHIFT_X as int, SHIFT_Y as int);
    lemma_shift_back(h, SHIFT_X as int, SHIFT_Y as int);
    if area2(s) > 0 {
        let t = shifted(s, -SHIFT_X, -SHIFT_Y);
        assert(shifted(s.reverse(), -SHIFT_X, -SHIFT_Y) =~= t.reverse());
        assert(t.reverse().reverse() =~= t);
    }
}

/// Shifting bonuses by `(dx, dy)` and back gives the bonuses again.
pub proof fn lemma_bonus_shift_back(bs: Seq<Bonus>, dx: int, dy: int)
    requires
        bonus_shift_fits(bs, dx, dy),
    ensures
        shifted_bonuses(shifted_bonuses(bs, dx, dy), -dx, -dy) == bs,
{
    assert(shifted_bonuses(shifted_bonuses(bs, dx, dy), -dx, -dy) =~= bs);
}

/// Converting a problem to internal coordinates and back gives back its
/// hole (in its original order), its vertices and its bonuses.
pub proof fn lemma_internal_roundtrip(input: Input)
    requires
        can_internalize(input),
    ensures
        external_hole(
            internal_hole(input.hole@),
            area2(shifted(input.hole@, SHIFT_X as int, SHIFT_Y as int)) > 0,
        ) == input.hole@,
        shifted(shifted(input.figure.vertices@, SHIFT_X as int, SHIFT_Y as int), -SHIFT_X, -SHIFT_Y)
            == input.figure.vertices@,
        shifted_bonuses(
            shifted_bonuses(input.bonuses@, SHIFT_X as int, SHIFT_Y as int),
            -SHIFT_X,
            -SHIFT_Y,
        ) == input.bonuses@,
{
    lemma_hole_roundtrip(input.hole@);
    lemma_shift_back(input.figure.vertices@, SHIFT_X as int, SHIFT_Y as int);
    lemma_bonus_shift_back(input.bonuses@, SHIFT_X as int, SHIFT_Y as int);
}

/// Converting a solution to internal coordinates and back gives it back.
pub proof fn lemma_output_roundtrip(out: Output)
    requires
        shift_fits(out.vertices@, SHIFT_X as int, SHIFT_Y as int),
    ensures
        shifted(shifted(out.vertices@, SHIFT_X as int, SHIFT_Y as int), -SHIFT_X, -SHIFT_Y)
            == out.vertices@,
{
    lemma_shift_back(out.vertices@, SHIFT_X as int, SHIFT_Y as int);
}

/// The first `k` shoelace terms of the reversed polygon are, negated, the
/// terms of the polygon itself from `n - 1 - k` to `n - 1`.
proof fn lemma_area_reverse_prefix(s: Seq<Point>, k: int)
    requires
        0 <= k <= s.len() - 1,
    ensures
        area2_upto(s.reverse(), k) == -(area2_upto(s, s.len() - 1) - area2_upto(
            s,
            s.len() - 1 - k,
        )),
    decreases k,
{
    let n = s.len() as int;
    let r = s.reverse();
    if k > 0 {
        lemma_area_reverse_prefix(s, k - 1);
        let j = n - 1 - k;
        vstd::arithmetic::div_mod::lemma_small_mod(k as nat, n as nat);
        vstd::arithmetic::div_mod::lemma_small_mod((j + 1) as nat, n as nat);
        assert(next_index(r, k - 1) == k);
        assert(next_index(s, j) == j + 1);
        assert(r[k - 1] == s[n - k]);
        assert(r[k] == s[n - 1 - k]);
        assert(vdet(v(s[n - k]), v(s[j])) == -vdet(v(s[j]), v(s[j + 1]))) by (nonlinear_arith)
            requires
                j + 1 == n - k,
        ;
    }
}

/// Reversing a polygon negates its signed area.
pub proof fn lemma_area_reverse(s: Seq<Point>)
    ensures
        area2(s.reverse()) == -area2(s),
{
    let n = s.len() as int;
    if n > 0 {
        let r = s.reverse();
        lemma_area_reverse_prefix(s, n - 1);
        vstd::arithmetic::div_mod::lemma_mod_self_0(n);
        assert(next_index(r, n - 1) == 0);
        assert(next_index(s, n - 1) == 0);
        assert(r[n - 1] == s[0]);
        assert(r[0] == s[n - 1]);
        assert(vdet(v(s[0]), v(s[n - 1])) == -vdet(v(s[n - 1]), v(s[0]))) by (nonlinear_arith);
        assert(area2_upto(s, 0) == 0);
    }
}

proof fn lemma_area_shift_prefix(ps: Seq<Point>, dx: int, dy: int, k: int)
    requires
        shift_fits(ps, dx, dy),
        0 <= k <= ps.len(),
        ps.len() > 0,
    ensures
        area2_upto(shifted(ps, dx, dy), k) == area2_upto(ps, k) + vdet(v(ps[0]), (dx, dy)) - vdet(
            v(ps[k % (ps.len() as int)]),
            (dx, dy),
        ),
    decreases k,
{
    let n = ps.len() as int;
    let sh = shifted(ps, dx, dy);
    if k == 0 {
        vstd::arithmetic::div_mod::lemma_small_mod(0, n as nat);
    } else {
        lemma_area_shift_prefix(ps, dx, dy, k - 1);
        let i = k - 1;
        let j = next_index(ps, i);
        vstd::arithmetic::div_mod::lemma_small_mod(i as nat, n as nat);
        assert(j == k % n);
        assert(next_index(sh, i) == j);
        assert(0 <= j < n) by {
            vstd::arithmetic::div_mod::lemma_mod_bound(k, n);
        }
        assert(fits(ps[i].0 + dx) && fits(ps[i].1 + dy));
        assert(fits(ps[j].0 + dx) && fits(ps[j].1 + dy));
        let p = v(ps[i]);
        let q = v(ps[j]);
        assert(v(sh[i]) == (p.0 + dx, p.1 + dy));
        assert(v(sh[j]) == (q.0 + dx, q.1 + dy));
        assert(vdet((p.0 + dx, p.1 + dy), (q.0 + dx, q.1 + dy)) == vdet(p, q) + vdet(p, (dx, dy))
            - vdet(q, (dx, dy))) by (nonlinear_arith);
    }
}

/// Moving a polygon (without overflow) keeps its signed area.
pub proof fn lemma_area_shift(ps: Seq<Point>, dx: int, dy: int)
    requires
        shift_fits(ps, dx, dy),
    ensures
        area2(shifted(ps, dx, dy)) == area2(ps),
{
    let n = ps.len() as int;
    if n > 0 {
        lemma_area_shift_prefix(ps, dx, dy, n);
        vstd::arithmetic::div_mod::lemma_mod_self_0(n);
    }
}

/// After the conversion to internal coordinates the hole runs clockwise:
/// its signed area is not positive.
pub proof fn lemma_internal_hole_clockwise(hole: Seq<Point>)
    ensures
        area2(internal_hole(hole)) <= 0,
{
    let s = shifted(hole, SHIFT_X as int, SHIFT_Y as int);
    lemma_area_reverse(s);
}

/// Sequences with the same multiset of elements have the same set of elements.
pub proof fn lemma_multiset_same_set<A>(a: Seq<A>, b: Seq<A>)
    requires
        a.to_multiset() =~= b.to_multiset(),
    ensures
        a.to_set() =~= b.to_set(),
{
    broadcast use vstd::seq_lib::group_to_multiset_ensures;

    assert forall|x: A| a.to_set().contains(x) <==> b.to_set().contains(x) by {
        assert(a.contains(x) <==> a.to_multiset().count(x) > 0);
        assert(b.contains(x) <==> b.to_multiset().count(x) > 0);
    }
}

} // verus!
