use vstd::prelude::*;
use crate::geom::{all_in_range, fits, in_range, trunc_div, v, vsub, Point, COORD_LIMIT, P};
use crate::problem::{Input, Output};
use crate::segment::imax;
use crate::score::edge_len2;
use crate::segment::lemma_range_diffs4;
use crate::ugougo::copy_points;

verus! {

/// How many relaxation rounds `get_new_graph` runs.
pub const RELAX_ROUNDS: usize = 100000;

/// Largest number of edges for which a relaxation round is computed without
/// overflow, whatever the edges.
pub const RELAX_EDGE_LIMIT: usize = 1073741824;

/// The move that an edge asks of its end `x` whose other end is `y`: toward
/// `y` by a twentieth of the way when the edge is longer than in the figure,
/// away from `y` by a fortieth otherwise (each coordinate rounded toward
/// zero).
pub open spec fn pull(x: Point, y: Point, stretched: bool) -> (int, int) {
    let d = vsub(v(y), v(x));
    if stretched {
        (trunc_div(d.0, 20), trunc_div(d.1, 20))
    } else {
        (-trunc_div(d.0, 40), -trunc_div(d.1, 40))
    }
}

/// `p` moved by `d`.
pub open spec fn moved(p: Point, d: (int, int)) -> Point {
    P((p.0 + d.0) as i64, (p.1 + d.1) as i64)
}

/// One relaxation round from the positions `now`, after its first `k` edges:
/// each edge moves its ends that may move by what `pull` asks, the lengths
/// being measured at `now`.
pub open spec fn relax_partial(input: Input, now: Seq<Point>, fixed: Seq<bool>, k: int) -> Seq<
    Point,
>
    decreases k,
{
    if k <= 0 {
        now
    } else {
        let prev = relax_partial(input, now, fixed, k - 1);
        let e = input.figure.edges@[k - 1];
        let (a, b) = (e.0 as int, e.1 as int);
        let stretched = edge_len2(now, e) > edge_len2(input.figure.vertices@, e);
        let p1 = if fixed[a] {
            prev
        } else {
            prev.update(a, moved(prev[a], pull(now[a], now[b], stretched)))
        };
        if fixed[b] {
            p1
        } else {
            p1.update(b, moved(p1[b], pull(now[b], now[a], stretched)))
        }
    }
}

/// One full relaxation round.
pub open spec fn relax_round(input: Input, now: Seq<Point>, fixed: Seq<bool>) -> Seq<Point> {
    relax_partial(input, now, fixed, input.figure.edges@.len() as int)
}

/// The positions after `k` relaxation rounds from `pre`.
pub open spec fn relax_rounds(input: Input, pre: Seq<Point>, fixed: Seq<bool>, k: nat) -> Seq<
    Point,
>
    decreases k,
{
    if k == 0 {
        pre
    } else {
        relax_round(input, relax_rounds(input, pre, fixed, (k - 1) as nat), fixed)
    }
}

/// The figure's edges join existing vertices, the figure lies in range, and
/// the positions and the fixed marks have one entry per vertex.
pub open spec fn relaxable(input: Input, now: Seq<Point>, fixed: Seq<bool>) -> bool {
    let n = input.figure.vertices@.len();
    &&& now.len() == n
    &&& fixed.len() == n
    &&& all_in_range(input.figure.vertices@)
    &&& input.figure.edges@.len() <= RELAX_EDGE_LIMIT
    &&& forall|i: int|
        0 <= i < input.figure.edges@.len() ==> (#[trigger] input.figure.edges@[i]).0 < n
            && input.figure.edges@[i].1 < n
}

/// A quotient rounded toward zero by a positive divisor `b`: it has the
/// dividend's sign, `b` times its size is at most the dividend's size and
/// within `b` of it, and negating the dividend negates it.
proof fn lemma_trunc_div_positive(a: int, b: int)
    requires
        b > 0,
    ensures
        a >= 0 ==> 0 <= trunc_div(a, b) && b * trunc_div(a, b) <= a < b * trunc_div(a, b) + b,
        a < 0 ==> trunc_div(a, b) <= 0 && a <= b * trunc_div(a, b) && b * trunc_div(a, b) - b < a,
        trunc_div(-a, b) == -trunc_div(a, b),
{
    if a >= 0 {
        assert(0 <= a / b && b * (a / b) <= a < b * (a / b) + b) by (nonlinear_arith)
            requires
                a >= 0,
                b > 0,
        ;
    } else {
        let c = -a;
        assert(0 <= c / b && b * (c / b) <= c < b * (c / b) + b) by (nonlinear_arith)
            requires
                c > 0,
                b > 0,
        ;
        let q = c / b;
        assert(b * (-q) == -(b * q)) by (nonlinear_arith);
        assert(trunc_div(a, b) == -q);
    }
    if a == 0 {
        assert(0int / b == 0);
    }
}

/// What an edge asks of its two ends is equal and opposite; when the edge
/// is too long each end moves toward the other by a twentieth of their
/// offset, otherwise away from it by a fortieth, each coordinate rounded
/// toward zero.
pub proof fn lemma_pull_laws(x: Point, y: Point, stretched: bool)
    ensures
        pull(x, y, stretched).0 == -pull(y, x, stretched).0,
        pull(x, y, stretched).1 == -pull(y, x, stretched).1,
        ({
            let d = vsub(v(y), v(x));
            let p = pull(x, y, stretched);
            stretched ==> {
                &&& d.0 >= 0 ==> 0 <= p.0 && 20 * p.0 <= d.0 < 20 * p.0 + 20
                &&& d.0 < 0 ==> p.0 <= 0 && d.0 <= 20 * p.0 && 20 * p.0 - 20 < d.0
                &&& d.1 >= 0 ==> 0 <= p.1 && 20 * p.1 <= d.1 < 20 * p.1 + 20
                &&& d.1 < 0 ==> p.1 <= 0 && d.1 <= 20 * p.1 && 20 * p.1 - 20 < d.1
            }
        }),
        ({
            let d = vsub(v(y), v(x));
            let p = pull(x, y, stretched);
            !stretched ==> {
                &&& d.0 >= 0 ==> p.0 <= 0 && -40 * p.0 <= d.0 < -40 * p.0 + 40
                &&& d.0 < 0 ==> 0 <= p.0 && d.0 <= -40 * p.0 && -40 * p.0 - 40 < d.0
                &&& d.1 >= 0 ==> p.1 <= 0 && -40 * p.1 <= d.1 < -40 * p.1 + 40
                &&& d.1 < 0 ==> 0 <= p.1 && d.1 <= -40 * p.1 && -40 * p.1 - 40 < d.1
            }
        }),
{
    let d = vsub(v(y), v(x));
    let e = vsub(v(x), v(y));
    assert(e.0 == -d.0 && e.1 == -d.1);
    lemma_trunc_div_positive(d.0, 20);
    lemma_trunc_div_positive(d.1, 20);
    lemma_trunc_div_positive(d.0, 40);
    lemma_trunc_div_positive(d.1, 40);
}

/// A pull from two points in range moves each coordinate by less than 2^16.
proof fn lemma_pull_small(x: Point, y: Point, stretched: bool)
    requires
        in_range(x),
        in_range(y),
    ensures
        -65536 <= pull(x, y, stretched).0 <= 65536,
        -65536 <= pull(x, y, stretched).1 <= 65536,
{
    let d = vsub(v(y), v(x));
    assert(-1048576 <= d.0 <= 1048576 && -1048576 <= d.1 <= 1048576);
    assert(-65536 <= trunc_div(d.0, 20) <= 65536) by (nonlinear_arith)
        requires
            -1048576 <= d.0 <= 1048576,
    ;
    assert(-65536 <= trunc_div(d.1, 20) <= 65536) by (nonlinear_arith)
        requires
            -1048576 <= d.1 <= 1048576,
    ;
    assert(-65536 <= trunc_div(d.0, 40) <= 65536) by (nonlinear_arith)
        requires
            -1048576 <= d.0 <= 1048576,
    ;
    assert(-65536 <= trunc_div(d.1, 40) <= 65536) by (nonlinear_arith)
        requires
            -1048576 <= d.1 <= 1048576,
    ;
}

/// After `k` edges of a round, every position has moved by at most
/// `k * 2^17` in each coordinate, and the number of positions is unchanged.
proof fn lemma_partial_bound(input: Input, now: Seq<Point>, fixed: Seq<bool>, k: int)
    requires
        relaxable(input, now, fixed),
        all_in_range(now),
        0 <= k <= input.figure.edges@.len(),
    ensures
        relax_partial(input, now, fixed, k).len() == now.len(),
        forall|j: int|
            0 <= j < now.len() ==> {
                let q = #[trigger] relax_partial(input, now, fixed, k)[j];
                &&& -k * 131072 <= q.0 - now[j].0 <= k * 131072
                &&& -k * 131072 <= q.1 - now[j].1 <= k * 131072
            },
    decreases k,
{
    if k > 0 {
        lemma_partial_bound(input, now, fixed, k - 1);
        let prev = relax_partial(input, now, fixed, k - 1);
        let e = input.figure.edges@[k - 1];
        let (a, b) = (e.0 as int, e.1 as int);
        let stretched = edge_len2(now, e) > edge_len2(input.figure.vertices@, e);
        assert(in_range(now[a]) && in_range(now[b]));
        lemma_pull_small(now[a], now[b], stretched);
        lemma_pull_small(now[b], now[a], stretched);
        let p1 = if fixed[a] {
            prev
        } else {
            prev.update(a, moved(prev[a], pull(now[a], now[b], stretched)))
        };
        assert forall|j: int| 0 <= j < now.len() implies {
            let q = #[trigger] p1[j];
            &&& -(k - 1) * 131072 - 65536 <= q.0 - now[j].0 <= (k - 1) * 131072 + 65536
            &&& -(k - 1) * 131072 - 65536 <= q.1 - now[j].1 <= (k - 1) * 131072 + 65536
        } by {
            assert(-(k - 1) * 131072 <= prev[j].0 - now[j].0 <= (k - 1) * 131072);
            assert(-(k - 1) * 131072 <= prev[j].1 - now[j].1 <= (k - 1) * 131072);
            assert((k - 1) * 131072 <= 140737488355328) by (nonlinear_arith)
                requires
                    k - 1 <= 1073741824,
            ;
        }
        let r = relax_partial(input, now, fixed, k);
        assert forall|j: int| 0 <= j < now.len() implies {
            let q = #[trigger] r[j];
            &&& -k * 131072 <= q.0 - now[j].0 <= k * 131072
            &&& -k * 131072 <= q.1 - now[j].1 <= k * 131072
        } by {
            assert((k - 1) * 131072 <= 140737488355328) by (nonlinear_arith)
                requires
                    k - 1 <= 1073741824,
            ;
            assert(k * 131072 == (k - 1) * 131072 + 131072);
        }
    }
}

/// `p` moved by the pull of the edge from `x` to `y`.
fn pulled(p: Point, x: Point, y: Point, stretched: bool) -> (r: Point)
    requires
        in_range(x),
        in_range(y),
        -281474976710656 <= p.0 <= 281474976710656,
        -281474976710656 <= p.1 <= 281474976710656,
    ensures
        r == moved(p, pull(x, y, stretched)),
        -65536 <= r.0 - p.0 <= 65536,
        -65536 <= r.1 - p.1 <= 65536,
{
    proof {
        lemma_pull_small(x, y, stretched);
    }
    let d = y - x;
    if stretched {
        P(p.0 + d.0 / 20, p.1 + d.1 / 20)
    } else {
        P(p.0 - d.0 / 40, p.1 - d.1 / 40)
    }
}

/// Rounds keep one position per vertex.
proof fn lemma_rounds_len(input: Input, pre: Seq<Point>, fixed: Seq<bool>, k: nat)
    requires
        relaxable(input, pre, fixed),
    ensures
        relax_rounds(input, pre, fixed, k).len() == pre.len(),
    decreases k,
{
    if k > 0 {
        lemma_rounds_len(input, pre, fixed, (k - 1) as nat);
        lemma_partial_len(input, relax_rounds(input, pre, fixed, (k - 1) as nat), fixed, input.figure.edges@.len() as int);
    }
}

proof fn lemma_partial_len(input: Input, now: Seq<Point>, fixed: Seq<bool>, k: int)
    requires
        relaxable(input, now, fixed),
        k <= input.figure.edges@.len(),
    ensures
        relax_partial(input, now, fixed, k).len() == now.len(),
    decreases k,
{
    if k > 0 {
        lemma_partial_len(input, now, fixed, k - 1);
        let e = input.figure.edges@[k - 1];
        assert(e.0 < now.len() && e.1 < now.len());
    }
}

/// A round leaves the fixed vertices where they are.
proof fn lemma_partial_keeps_fixed(input: Input, now: Seq<Point>, fixed: Seq<bool>, k: int, v: int)
    requires
        relaxable(input, now, fixed),
        0 <= v < now.len(),
        fixed[v],
        k <= input.figure.edges@.len(),
    ensures
        relax_partial(input, now, fixed, k)[v] == now[v],
    decreases k,
{
    if k > 0 {
        lemma_partial_keeps_fixed(input, now, fixed, k - 1, v);
        lemma_partial_len(input, now, fixed, k - 1);
        let e = input.figure.edges@[k - 1];
        assert(e.0 < now.len() && e.1 < now.len());
    }
}

/// Some edge of the figure among the first `k`, other than the `j`-th, has
/// `v` as an end.
pub open spec fn touches_but(input: Input, v: int, k: int, j: int) -> bool {
    exists|i: int|
        0 <= i < k && i != j && ((#[trigger] input.figure.edges@[i]).0 == v
            || input.figure.edges@[i].1 == v)
}

proof fn lemma_partial_lone_edge(input: Input, now: Seq<Point>, fixed: Seq<bool>, k: int, v: int, j: int)
    requires
        relaxable(input, now, fixed),
        0 <= v < now.len(),
        0 <= k <= input.figure.edges@.len(),
        !touches_but(input, v, k, j),
    ensures
        !(0 <= j < k) ==> relax_partial(input, now, fixed, k)[v] == now[v],
        ({
            let e = input.figure.edges@[j];
            let b = if e.0 == v {
                e.1 as int
            } else {
                e.0 as int
            };
            let stretched = edge_len2(now, e) > edge_len2(input.figure.vertices@, e);
            0 <= j < k && !fixed[v] && (e.0 == v) != (e.1 == v) ==> relax_partial(input, now, fixed, k)[v]
                == moved(now[v], pull(now[v], now[b], stretched))
        }),
    decreases k,
{
    if k > 0 {
        assert(!touches_but(input, v, k - 1, j)) by {
            if touches_but(input, v, k - 1, j) {
                let i = choose|i: int|
                    0 <= i < k - 1 && i != j && ((#[trigger] input.figure.edges@[i]).0 == v
                        || input.figure.edges@[i].1 == v);
                assert(0 <= i < k && i != j);
            }
        }
        lemma_partial_lone_edge(input, now, fixed, k - 1, v, j);
        lemma_partial_len(input, now, fixed, k - 1);
        let e = input.figure.edges@[k - 1];
        assert(e.0 < now.len() && e.1 < now.len());
        if k - 1 != j {
            if e.0 == v || e.1 == v {
                assert(touches_but(input, v, k, j));
            }
        }
    }
}

/// One relaxation round leaves a vertex that no edge touches where it was,
/// and moves a vertex that may move and lies on a single edge, joining it to
/// another vertex, by exactly what that edge asks of it.
pub proof fn lemma_round_lone_edge(input: Input, now: Seq<Point>, fixed: Seq<bool>, v: int, j: int)
    requires
        relaxable(input, now, fixed),
        0 <= v < now.len(),
    ensures
        (forall|i: int|
            0 <= i < input.figure.edges@.len() ==> (#[trigger] input.figure.edges@[i]).0 != v
                && input.figure.edges@[i].1 != v) ==> relax_round(input, now, fixed)[v] == now[v],
        ({
            let e = input.figure.edges@[j];
            let b = if e.0 == v {
                e.1 as int
            } else {
                e.0 as int
            };
            let stretched = edge_len2(now, e) > edge_len2(input.figure.vertices@, e);
            0 <= j < input.figure.edges@.len() && !fixed[v] && (e.0 == v) != (e.1 == v)
                && !touches_but(input, v, input.figure.edges@.len() as int, j)
                ==> relax_round(input, now, fixed)[v] == moved(now[v], pull(now[v], now[b], stretched))
        }),
{
    let m = input.figure.edges@.len() as int;
    if 0 <= j < m && !touches_but(input, v, m, j) {
        lemma_partial_lone_edge(input, now, fixed, m, v, j);
    }
    if forall|i: int|
        0 <= i < m ==> (#[trigger] input.figure.edges@[i]).0 != v && input.figure.edges@[i].1 != v {
        lemma_partial_lone_edge(input, now, fixed, m, v, -1);
    }
}

/// Relaxation never moves a vertex marked as fixed.
pub proof fn lemma_fixed_vertices_stay(input: Input, pre: Seq<Point>, fixed: Seq<bool>, k: nat, v: int)
    requires
        relaxable(input, pre, fixed),
        0 <= v < pre.len(),
        fixed[v],
    ensures
        relax_rounds(input, pre, fixed, k)[v] == pre[v],
    decreases k,
{
    if k > 0 {
        lemma_fixed_vertices_stay(input, pre, fixed, (k - 1) as nat, v);
        lemma_rounds_len(input, pre, fixed, (k - 1) as nat);
        lemma_partial_keeps_fixed(
            input,
            relax_rounds(input, pre, fixed, (k - 1) as nat),
            fixed,
            input.figure.edges@.len() as int,
            v,
        );
    }
}

/// One relaxation round from the positions `now`.
fn relax_round_exec(input: &Input, now: &Vec<Point>, dont_move: &Vec<bool>) -> (r: Vec<Point>)
    requires
        relaxable(*input, now@, dont_move@),
        all_in_range(now@),
    ensures
        r@ == relax_round(*input, now@, dont_move@),
{
    let ghost cur = now@;
    let m = input.figure.edges.len();
    let mut next = copy_points(&now);
    let mut i: usize = 0;
    while i < m
        invariant
            relaxable(*input, cur, dont_move@),
            m == input.figure.edges@.len(),
            now@ == cur,
            all_in_range(cur),
            cur.len() == input.figure.vertices@.len(),
            i <= m,
            next@ == relax_partial(*input, cur, dont_move@, i as int),
        decreases m - i,
    {
        let (a, b) = input.figure.edges[i];
        let ghost e = input.figure.edges@[i as int];
        proof {
            assert(e.0 < cur.len() && e.1 < cur.len());
            assert(in_range(cur[a as int]) && in_range(cur[b as int]));
            assert(in_range(input.figure.vertices@[a as int]));
            assert(in_range(input.figure.vertices@[b as int]));
            lemma_range_diffs4(cur[a as int], cur[b as int], cur[a as int], cur[b as int]);
            lemma_range_diffs4(cur[b as int], cur[a as int], cur[b as int], cur[a as int]);
            lemma_range_diffs4(
                input.figure.vertices@[a as int],
                input.figure.vertices@[b as int],
                input.figure.vertices@[a as int],
                input.figure.vertices@[b as int],
            );
            lemma_partial_bound(*input, cur, dont_move@, i as int);
            lemma_partial_bound(*input, cur, dont_move@, i + 1);
            lemma_pull_small(cur[a as int], cur[b as int], true);
            lemma_pull_small(cur[a as int], cur[b as int], false);
            lemma_pull_small(cur[b as int], cur[a as int], true);
            lemma_pull_small(cur[b as int], cur[a as int], false);
            assert(i * 131072 <= 140737488355328) by (nonlinear_arith)
                requires
                    i <= 1073741824,
            ;
        }
        let d1 = (now[a] - now[b]).abs2();
        let d2 = (input.figure.vertices[a] - input.figure.vertices[b]).abs2();
        let stretched = d1 > d2;
        let ghost prev = next@;
        if !dont_move[a] {
            proof {
                assert(-i * 131072 <= prev[a as int].0 - cur[a as int].0 <= i * 131072);
                assert(-i * 131072 <= prev[a as int].1 - cur[a as int].1 <= i * 131072);
            }
            let q = pulled(next[a], now[a], now[b], stretched);
            next.set(a, q);
        }
        let ghost p1 = next@;
        if !dont_move[b] {
            proof {
                assert(-i * 131072 <= prev[b as int].0 - cur[b as int].0 <= i * 131072);
                assert(-i * 131072 <= prev[b as int].1 - cur[b as int].1 <= i * 131072);
                assert(in_range(cur[b as int]));
                assert(-281474976710656 <= p1[b as int].0 <= 281474976710656);
                assert(-281474976710656 <= p1[b as int].1 <= 281474976710656);
            }
            let q = pulled(next[b], now[b], now[a], stretched);
            next.set(b, q);
        }
        assert(next@ == relax_partial(*input, cur, dont_move@, i + 1));
        i = i + 1;
    }
    next
}

/// Whether all the points are in range.
pub fn points_in_range(ps: &Vec<Point>) -> (b: bool)
    ensures
        b == all_in_range(ps@),
{
    for i in 0..ps.len()
        invariant
            forall|j: int| 0 <= j < i ==> #[trigger] in_range(ps@[j]),
    {
        let p = ps[i];
        if !(-COORD_LIMIT <= p.0 && p.0 <= COORD_LIMIT && -COORD_LIMIT <= p.1 && p.1 <= COORD_LIMIT) {
            assert(!in_range(ps@[i as int]));
            return false;
        }
    }
    true
}

/// Runs the relaxation rounds of `get_new_graph`, checking before each
/// round that the positions are in range: `None` when some round starts out
/// of range.
pub fn get_new_graph_checked(input: &Input, pre: &Vec<Point>, dont_move: &Vec<bool>) -> (r: Option<
    Vec<Point>,
>)
    requires
        relaxable(*input, pre@, dont_move@),
    ensures
        r is Some <==> forall|k: nat|
            k < RELAX_ROUNDS ==> all_in_range(#[trigger] relax_rounds(*input, pre@, dont_move@, k)),
        r matches Some(v) ==> v@ == relax_rounds(*input, pre@, dont_move@, RELAX_ROUNDS as nat),
{
    let mut now = copy_points(pre);
    let mut round: usize = 0;
    while round < RELAX_ROUNDS
        invariant
            relaxable(*input, pre@, dont_move@),
            round <= RELAX_ROUNDS,
            now@ == relax_rounds(*input, pre@, dont_move@, round as nat),
            forall|k: nat| k < round ==> all_in_range(#[trigger] relax_rounds(*input, pre@, dont_move@, k)),
        decreases RELAX_ROUNDS - round,
    {
        if !points_in_range(&now) {
            return None;
        }
        proof {
            lemma_rounds_len(*input, pre@, dont_move@, round as nat);
        }
        now = relax_round_exec(input, &now, dont_move);
        round = round + 1;
    }
    Some(now)
}

/// Runs `RELAX_ROUNDS` rounds of relaxation from the positions `pre`: in each
/// round every edge pulls its ends together by a twentieth of their offset
/// when it is longer than in the figure and pushes them apart by a fortieth
/// otherwise; vertices marked in `dont_move` stay where they are.
pub fn get_new_graph(input: &Input, pre: &Vec<Point>, dont_move: &Vec<bool>) -> (r: Vec<Point>)
    requires
        relaxable(*input, pre@, dont_move@),
        forall|k: nat|
            k < RELAX_ROUNDS ==> all_in_range(#[trigger] relax_rounds(*input, pre@, dont_move@, k)),
    ensures
        r@ == relax_rounds(*input, pre@, dont_move@, RELAX_ROUNDS as nat),
        r@.len() == pre@.len(),
        forall|v: int| 0 <= v < pre@.len() && dont_move@[v] ==> #[trigger] r@[v] == pre@[v],
{
    let r = get_new_graph_checked(input, pre, dont_move);
    proof {
        lemma_rounds_len(*input, pre@, dont_move@, RELAX_ROUNDS as nat);
        assert forall|v: int| 0 <= v < pre@.len() && dont_move@[v] implies relax_rounds(
            *input,
            pre@,
            dont_move@,
            RELAX_ROUNDS as nat,
        )[v] == pre@[v] by {
            lemma_fixed_vertices_stay(*input, pre@, dont_move@, RELAX_ROUNDS as nat, v);
        }
    }
    match r {
        Some(v) => v,
        None => {
            proof {
                assert(false);
            }
            Vec::new()
        },
    }
}

// ---------------------------------------------------------------------------
// The board of the annealing search
// ---------------------------------------------------------------------------

/// The largest coordinate among the first `k` points, and `m`.
pub open spec fn max_coord(ps: Seq<Point>, k: int, m: int) -> int
    decreases k,
{
    if k <= 0 {
        m
    } else {
        imax(imax(max_coord(ps, k - 1, m), ps[k - 1].0 as int), ps[k - 1].1 as int)
    }
}

/// The largest coordinate of the hole, the pose and the figure, and 0.
pub open spec fn board_extent(input: Input, output: Output) -> int {
    let h = max_coord(input.hole@, input.hole@.len() as int, 0);
    let o = max_coord(output.vertices@, output.vertices@.len() as int, h);
    max_coord(input.figure.vertices@, input.figure.vertices@.len() as int, o)
}

fn max_coord_exec(ps: &Vec<Point>, m: i64) -> (r: i64)
    ensures
        r == max_coord(ps@, ps@.len() as int, m as int),
{
    let mut r = m;
    for k in 0..ps.len()
        invariant
            r == max_coord(ps@, k as int, m as int),
    {
        let p = ps[k];
        if r < p.0 {
            r = p.0;
        }
        if r < p.1 {
            r = p.1;
        }
    }
    r
}

/// The side of the square board of the search: one more than the largest
/// coordinate of the hole, the pose and the figure (1 when none is
/// positive).
pub fn board_size(input: &Input, output: &Output) -> (r: usize)
    requires
        board_extent(*input, *output) < usize::MAX,
        board_extent(*input, *output) < i64::MAX,
    ensures
        r == board_extent(*input, *output) + 1,
        forall|i: int|
            #![trigger input.hole@[i]]
            0 <= i < input.hole@.len() ==> input.hole@[i].0 < r && input.hole@[i].1 < r,
        forall|i: int|
            #![trigger output.vertices@[i]]
            0 <= i < output.vertices@.len() ==> output.vertices@[i].0 < r && output.vertices@[i].1
                < r,
        forall|i: int|
            #![trigger input.figure.vertices@[i]]
            0 <= i < input.figure.vertices@.len() ==> input.figure.vertices@[i].0 < r
                && input.figure.vertices@[i].1 < r,
{
    let h = max_coord_exec(&input.hole, 0);
    let o = max_coord_exec(&output.vertices, h);
    let f = max_coord_exec(&input.figure.vertices, o);
    proof {
        lemma_max_coord_at_least(input.hole@, input.hole@.len() as int, 0);
        lemma_max_coord_at_least(output.vertices@, output.vertices@.len() as int, h as int);
        lemma_max_coord_at_least(input.figure.vertices@, input.figure.vertices@.len() as int, o as int);
        lemma_board_extent(*input, *output);
    }
    (f + 1) as usize
}

proof fn lemma_max_coord_at_least(ps: Seq<Point>, k: int, m: int)
    ensures
        max_coord(ps, k, m) >= m,
    decreases k,
{
    if k > 0 {
        lemma_max_coord_at_least(ps, k - 1, m);
    }
}

/// The largest coordinate among the first `k` points and `m` is no smaller
/// than `m` or than either coordinate of any of those points, and it is `m`
/// or one of those coordinates.
pub proof fn lemma_max_coord_bounds(ps: Seq<Point>, k: int, m: int)
    requires
        0 <= k <= ps.len(),
    ensures
        max_coord(ps, k, m) >= m,
        forall|i: int|
            #![trigger ps[i]]
            0 <= i < k ==> ps[i].0 <= max_coord(ps, k, m) && ps[i].1 <= max_coord(ps, k, m),
        max_coord(ps, k, m) == m || exists|i: int|
            #![trigger ps[i]]
            0 <= i < k && (ps[i].0 == max_coord(ps, k, m) || ps[i].1 == max_coord(ps, k, m)),
    decreases k,
{
    if k > 0 {
        lemma_max_coord_bounds(ps, k - 1, m);
        let j = k - 1;
        if max_coord(ps, k, m) == max_coord(ps, k - 1, m) {
            if max_coord(ps, k - 1, m) != m {
                let i = choose|i: int|
                    #![trigger ps[i]]
                    0 <= i < k - 1 && (ps[i].0 == max_coord(ps, k - 1, m) || ps[i].1 == max_coord(
                        ps,
                        k - 1,
                        m,
                    ));
                assert(ps[i].0 == max_coord(ps, k, m) || ps[i].1 == max_coord(ps, k, m));
            }
        } else {
            assert(ps[j].0 == max_coord(ps, k, m) || ps[j].1 == max_coord(ps, k, m));
        }
    }
}

/// The board's extent is no smaller than 0 or than any coordinate of the
/// hole, the pose or the figure, and it is 0 or one of those coordinates.
pub proof fn lemma_board_extent(input: Input, output: Output)
    ensures
        board_extent(input, output) >= 0,
        forall|i: int|
            #![trigger input.hole@[i]]
            0 <= i < input.hole@.len() ==> input.hole@[i].0 <= board_extent(input, output)
                && input.hole@[i].1 <= board_extent(input, output),
        forall|i: int|
            #![trigger output.vertices@[i]]
            0 <= i < output.vertices@.len() ==> output.vertices@[i].0 <= board_extent(input, output)
                && output.vertices@[i].1 <= board_extent(input, output),
        forall|i: int|
            #![trigger input.figure.vertices@[i]]
            0 <= i < input.figure.vertices@.len() ==> input.figure.vertices@[i].0 <= board_extent(
                input,
                output,
            ) && input.figure.vertices@[i].1 <= board_extent(input, output),
        board_extent(input, output) == 0 || (exists|i: int|
            #![trigger input.hole@[i]]
            0 <= i < input.hole@.len() && (input.hole@[i].0 == board_extent(input, output)
                || input.hole@[i].1 == board_extent(input, output))) || (exists|i: int|
            #![trigger output.vertices@[i]]
            0 <= i < output.vertices@.len() && (output.vertices@[i].0 == board_extent(input, output)
                || output.vertices@[i].1 == board_extent(input, output))) || (exists|i: int|
            #![trigger input.figure.vertices@[i]]
            0 <= i < input.figure.vertices@.len() && (input.figure.vertices@[i].0 == board_extent(
                input,
                output,
            ) || input.figure.vertices@[i].1 == board_extent(input, output))),
{
    let hs = input.hole@;
    let os = output.vertices@;
    let fs = input.figure.vertices@;
    let h = max_coord(hs, hs.len() as int, 0);
    let o = max_coord(os, os.len() as int, h);
    lemma_max_coord_bounds(hs, hs.len() as int, 0);
    lemma_max_coord_bounds(os, os.len() as int, h);
    lemma_max_coord_bounds(fs, fs.len() as int, o);
}

/// Which vertices sit on a corner of the hole.
pub fn corner_vertices(hole: &Vec<Point>, vertices: &Vec<Point>) -> (r: Vec<bool>)
    ensures
        r@.len() == vertices@.len(),
        forall|i: int| 0 <= i < vertices@.len() ==> #[trigger] r@[i] == hole@.contains(vertices@[i]),
{
    let mut r: Vec<bool> = Vec::new();
    for i in 0..vertices.len()
        invariant
            r@.len() == i,
            forall|j: int| 0 <= j < i ==> #[trigger] r@[j] == hole@.contains(vertices@[j]),
    {
        let p = vertices[i];
        let mut found = false;
        for j in 0..hole.len()
            invariant
                found == exists|t: int| 0 <= t < j && #[trigger] hole@[t] == p,
        {
            let q = hole[j];
            if q.0 == p.0 && q.1 == p.1 {
                assert(hole@[j as int] == p);
                found = true;
            }
        }
        proof {
            if hole@.contains(p) {
                let t = choose|t: int| 0 <= t < hole@.len() && hole@[t] == p;
                assert(hole@[t] == p);
            }
        }
        r.push(found);
    }
    r
}

/// Marks a cell outside the hole that no round has reached yet.
pub const FAR: i64 = 99999;

/// How many rounds grow the distances outside the hole.
pub const BOARD_ROUNDS: usize = 300;

/// Some neighbour of cell `(y, x)` (below, right, above, left) on the board
/// has the value `i`.
pub open spec fn neighbor_at(b: Seq<Seq<i64>>, y: int, x: int, i: int) -> bool {
    let n = b.len();
    ||| (y + 1 < n && b[y + 1][x] == i)
    ||| (x + 1 < n && b[y][x + 1] == i)
    ||| (y >= 1 && b[y - 1][x] == i)
    ||| (x >= 1 && b[y][x - 1] == i)
}

/// Round `i`: every cell not yet reached that has a neighbour at `i` gets
/// `i + 1`.
pub open spec fn board_round(b: Seq<Seq<i64>>, i: int) -> Seq<Seq<i64>> {
    Seq::new(
        b.len(),
        |y: int|
            Seq::new(
                b[y].len(),
                |x: int|
                    if b[y][x] > 10000 && neighbor_at(b, y, x, i) {
                        (i + 1) as i64
                    } else {
                        b[y][x]
                    },
            ),
    )
}

/// The board before any round: 0 on the cells in or on the hole, `FAR`
/// outside it (cell `(y, x)` is the point `P(y, x)`).
pub open spec fn initial_board(hole: Seq<Point>, size: int) -> Seq<Seq<i64>> {
    Seq::new(
        size as nat,
        |y: int|
            Seq::new(
                size as nat,
                |x: int|
                    if crate::polygon::contains_p_spec(hole, P(y as i64, x as i64)) == -1 {
                        FAR
                    } else {
                        0
                    },
            ),
    )
}

/// The board after `r` rounds, and whether some round changed nothing (the
/// rounds stop there).
pub open spec fn board_rounds(hole: Seq<Point>, size: int, r: nat) -> (Seq<Seq<i64>>, bool)
    decreases r,
{
    if r == 0 {
        (initial_board(hole, size), false)
    } else {
        let (b, done) = board_rounds(hole, size, (r - 1) as nat);
        if done {
            (b, true)
        } else {
            let nb = board_round(b, r - 1);
            (nb, nb == b)
        }
    }
}

pub open spec fn board_view(b: Seq<Vec<i64>>) -> Seq<Seq<i64>> {
    Seq::new(b.len(), |y: int| b[y]@)
}

/// A square board of side `n`.
pub open spec fn square_board(b: Seq<Seq<i64>>, n: int) -> bool {
    b.len() == n && forall|y: int| 0 <= y < n ==> (#[trigger] b[y]).len() == n
}

fn initial_board_exec(hole: &Vec<Point>, size: usize) -> (r: Vec<Vec<i64>>)
    requires
        all_in_range(hole@),
        size <= COORD_LIMIT + 1,
    ensures
        board_view(r@) == initial_board(hole@, size as int),
{
    let mut b: Vec<Vec<i64>> = Vec::new();
    for y in 0..size
        invariant
            all_in_range(hole@),
            size <= COORD_LIMIT + 1,
            b@.len() == y,
            forall|t: int| 0 <= t < y ==> (#[trigger] b@[t])@ == initial_board(hole@, size as int)[t],
    {
        let mut row: Vec<i64> = Vec::new();
        for x in 0..size
            invariant
                all_in_range(hole@),
                y < size <= COORD_LIMIT + 1,
                row@.len() == x,
                forall|t: int| 0 <= t < x ==> #[trigger] row@[t] == initial_board(hole@, size as int)[y as int][t],
        {
            let p = P(y as i64, x as i64);
            proof {
                crate::segment::lemma_seg_range(hole@);
            }
            let v: i64 = if P::contains_p(hole, p) == -1 {
                FAR
            } else {
                0
            };
            row.push(v);
        }
        assert(row@ =~= initial_board(hole@, size as int)[y as int]);
        b.push(row);
    }
    assert(board_view(b@) =~= initial_board(hole@, size as int));
    b
}

/// One round on the board: the new board, and whether no cell changed.
fn board_round_exec(b: &Vec<Vec<i64>>, i: i64) -> (r: (Vec<Vec<i64>>, bool))
    requires
        square_board(board_view(b@), b@.len() as int),
        0 <= i < 300,
    ensures
        board_view(r.0@) == board_round(board_view(b@), i as int),
        r.1 == (board_round(board_view(b@), i as int) == board_view(b@)),
{
    let ghost bv = board_view(b@);
    let n = b.len();
    assert forall|t: int| 0 <= t < n implies (#[trigger] b@[t])@.len() == n by {
        assert(bv[t] == b@[t]@);
    }
    let mut nb: Vec<Vec<i64>> = Vec::new();
    let mut unchanged = true;
    for y in 0..n
        invariant
            n == b@.len(),
            bv == board_view(b@),
            square_board(bv, n as int),
            forall|t: int| 0 <= t < n ==> (#[trigger] b@[t])@.len() == n,
            0 <= i < 300,
            nb@.len() == y,
            forall|t: int| 0 <= t < y ==> (#[trigger] nb@[t])@ == board_round(bv, i as int)[t],
            unchanged == forall|t: int, s: int|
                0 <= t < y && 0 <= s < n ==> board_round(bv, i as int)[t][s] == #[trigger] bv[t][s],
    {
        let ghost before_unchanged = unchanged;
        let mut row: Vec<i64> = Vec::new();
        let mut row_unchanged = true;
        assert(bv[y as int].len() == n);
        for x in 0..n
            invariant
                n == b@.len(),
                bv == board_view(b@),
                square_board(bv, n as int),
                forall|t: int| 0 <= t < n ==> (#[trigger] b@[t])@.len() == n,
                0 <= i < 300,
                y < n,
                row@.len() == x,
                forall|s: int| 0 <= s < x ==> #[trigger] row@[s] == board_round(bv, i as int)[y as int][s],
                row_unchanged == forall|s: int|
                    0 <= s < x ==> board_round(bv, i as int)[y as int][s] == #[trigger] bv[y as int][s],
        {
            let cur = b[y][x];
            assert(cur == bv[y as int][x as int]);
            let mut v = cur;
            if cur > 10000 {
                let near = (y + 1 < n && b[y + 1][x] == i) || (x + 1 < n && b[y][x + 1] == i) || (y
                    >= 1 && b[y - 1][x] == i) || (x >= 1 && b[y][x - 1] == i);
                if near {
                    v = i + 1;
                }
            }
            assert(v == board_round(bv, i as int)[y as int][x as int]);
            if v != cur {
                row_unchanged = false;
            }
            row.push(v);
        }
        assert(row@ =~= board_round(bv, i as int)[y as int]);
        nb.push(row);
        unchanged = unchanged && row_unchanged;
        proof {
            assert(unchanged == forall|t: int, s: int|
                0 <= t < y + 1 && 0 <= s < n ==> board_round(bv, i as int)[t][s] == #[trigger] bv[t][s]) by {
                if unchanged {
                    assert forall|t: int, s: int| 0 <= t < y + 1 && 0 <= s < n implies board_round(bv, i as int)[t][s] == #[trigger] bv[t][s] by {
                        if t == y {
                            assert(board_round(bv, i as int)[y as int][s] == bv[y as int][s]);
                        }
                    }
                } else if !before_unchanged {
                    let (t, s) = choose|t: int, s: int|
                        !(0 <= t < y && 0 <= s < n ==> board_round(bv, i as int)[t][s] == #[trigger] bv[t][s]);
                    assert(!(board_round(bv, i as int)[t][s] == bv[t][s]));
                } else {
                    let s = choose|s: int|
                        !(0 <= s < n ==> board_round(bv, i as int)[y as int][s] == #[trigger] bv[y as int][s]);
                    assert(!(board_round(bv, i as int)[y as int][s] == bv[y as int][s]));
                }
            }
        }
    }
    assert(board_view(nb@) =~= board_round(bv, i as int));
    proof {
        if unchanged {
            assert(board_round(bv, i as int) =~= bv) by {
                assert forall|t: int| 0 <= t < n implies #[trigger] board_round(bv, i as int)[t] =~= bv[t] by {
                    assert forall|s: int| 0 <= s < n implies #[trigger] board_round(bv, i as int)[t][s] == bv[t][s] by {
                        assert(board_round(bv, i as int)[t][s] == bv[t][s]);
                    }
                }
            }
        } else {
            let (t, s) = choose|t: int, s: int|
                !(0 <= t < n && 0 <= s < n ==> board_round(bv, i as int)[t][s] == #[trigger] bv[t][s]);
            assert(board_round(bv, i as int)[t][s] != bv[t][s]);
        }
    }
    (nb, unchanged)
}

/// The board of the search: for each cell `(y, x)` of a `size` by `size`
/// square, 0 when the point `P(y, x)` lies in or on the hole, otherwise its
/// number of steps (up, down, left, right) to such a point when that is at
/// most 300, and `FAR` beyond.
pub fn outside_board(hole: &Vec<Point>, size: usize) -> (r: Vec<Vec<i64>>)
    requires
        all_in_range(hole@),
        size <= COORD_LIMIT + 1,
    ensures
        board_view(r@) == board_rounds(hole@, size as int, BOARD_ROUNDS as nat).0,
        forall|y: int, x: int|
            0 <= y < size && 0 <= x < size ==> (#[trigger] r@[y]@[x]) == steps_within(
                hole@,
                size as int,
                y,
                x,
                BOARD_ROUNDS as nat,
            ),
{
    proof {
        lemma_board_rounds(hole@, size as int, BOARD_ROUNDS as nat);
    }
    let mut b = initial_board_exec(hole, size);
    assert(board_view(b@).len() == b@.len());
    assert(square_board(board_view(b@), size as int));
    let mut i: usize = 0;
    let mut done = false;
    while i < BOARD_ROUNDS
        invariant
            i <= BOARD_ROUNDS,
            square_board(board_view(b@), size as int),
            b@.len() == size,
            (board_view(b@), done) == board_rounds(hole@, size as int, i as nat),
        decreases BOARD_ROUNDS - i,
    {
        if !done {
            let ghost bv = board_view(b@);
            let (nb, unchanged) = board_round_exec(&b, i as i64);
            b = nb;
            done = unchanged;
            assert(board_view(b@).len() == b@.len());
            assert forall|y: int| 0 <= y < size implies (#[trigger] board_view(b@)[y]).len() == size by {
                assert(board_view(b@)[y] == board_round(bv, i as int)[y]);
            }
        }
        i = i + 1;
    }
    proof {
        assert forall|y: int, x: int| 0 <= y < size && 0 <= x < size implies (#[trigger] b@[y]@[x])
            == steps_within(hole@, size as int, y, x, BOARD_ROUNDS as nat) by {
            assert(board_view(b@)[y][x] == b@[y]@[x]);
        }
    }
    b
}

/// Some point in or on the hole is at most `k` steps (up, down, left, right,
/// staying on the `size` by `size` board) from cell `(y, x)`.
pub open spec fn reach(hole: Seq<Point>, size: int, y: int, x: int, k: nat) -> bool
    decreases k,
{
    if k == 0 {
        crate::polygon::contains_p_spec(hole, P(y as i64, x as i64)) != -1
    } else {
        let j = (k - 1) as nat;
        ||| reach(hole, size, y, x, j)
        ||| (y + 1 < size && reach(hole, size, y + 1, x, j))
        ||| (x + 1 < size && reach(hole, size, y, x + 1, j))
        ||| (y >= 1 && reach(hole, size, y - 1, x, j))
        ||| (x >= 1 && reach(hole, size, y, x - 1, j))
    }
}

/// The fewest steps from cell `(y, x)` to a point in or on the hole, when
/// at most `r`; `FAR` otherwise.
pub open spec fn steps_within(hole: Seq<Point>, size: int, y: int, x: int, r: nat) -> i64
    decreases r,
{
    if r == 0 {
        if reach(hole, size, y, x, 0) {
            0
        } else {
            FAR
        }
    } else {
        let p = steps_within(hole, size, y, x, (r - 1) as nat);
        if p != FAR {
            p
        } else if reach(hole, size, y, x, r) {
            r as i64
        } else {
            FAR
        }
    }
}

/// What `steps_within` says about `reach`.
proof fn lemma_steps_within(hole: Seq<Point>, size: int, y: int, x: int, r: nat)
    requires
        r <= 10000,
    ensures
        steps_within(hole, size, y, x, r) == FAR <==> !reach(hole, size, y, x, r),
        steps_within(hole, size, y, x, r) != FAR ==> 0 <= steps_within(hole, size, y, x, r) <= r
            && reach(hole, size, y, x, steps_within(hole, size, y, x, r) as nat),
        steps_within(hole, size, y, x, r) == r && r > 0 ==> !reach(hole, size, y, x, (r - 1) as nat),
        steps_within(hole, size, y, x, r) != FAR && steps_within(hole, size, y, x, r) < r ==> reach(
            hole,
            size,
            y,
            x,
            (r - 1) as nat,
        ),
    decreases r,
{
    if r > 0 {
        lemma_steps_within(hole, size, y, x, (r - 1) as nat);
        if steps_within(hole, size, y, x, (r - 1) as nat) != FAR {
            lemma_reach_mono(hole, size, y, x, steps_within(hole, size, y, x, (r - 1) as nat) as nat, (r - 1) as nat);
        }
    }
}

/// Reaching within `j` steps is reaching within `k >= j`.
proof fn lemma_reach_mono(hole: Seq<Point>, size: int, y: int, x: int, j: nat, k: nat)
    requires
        j <= k,
        reach(hole, size, y, x, j),
    ensures
        reach(hole, size, y, x, k),
    decreases k,
{
    if j < k {
        lemma_reach_mono(hole, size, y, x, j, (k - 1) as nat);
    }
}

/// After `r` rounds, each cell of the board holds `steps_within(.., r)`;
/// when some round changed nothing, no cell is first reached at `r` steps.
#[verifier::rlimit(40)]
proof fn lemma_board_rounds(hole: Seq<Point>, size: int, r: nat)
    requires
        0 <= size,
        r <= 300,
    ensures
        square_board(board_rounds(hole, size, r).0, size),
        forall|y: int, x: int|
            0 <= y < size && 0 <= x < size ==> #[trigger] board_rounds(hole, size, r).0[y][x]
                == steps_within(hole, size, y, x, r),
        board_rounds(hole, size, r).1 ==> r >= 1 && forall|y: int, x: int|
            0 <= y < size && 0 <= x < size && #[trigger] reach(hole, size, y, x, r) ==> reach(
                hole,
                size,
                y,
                x,
                (r - 1) as nat,
            ),
    decreases r,
{
    if r == 0 {
        let b = board_rounds(hole, size, 0).0;
        assert forall|y: int, x: int| 0 <= y < size && 0 <= x < size implies #[trigger] b[y][x]
            == steps_within(hole, size, y, x, 0) by {
        }
    } else {
        let i = (r - 1) as nat;
        lemma_board_rounds(hole, size, i);
        let (b, done) = board_rounds(hole, size, i);
        if done {
            assert forall|y: int, x: int| 0 <= y < size && 0 <= x < size implies #[trigger] b[y][x]
                == steps_within(hole, size, y, x, r) by {
                lemma_steps_within(hole, size, y, x, i);
                if reach(hole, size, y, x, r) && !reach(hole, size, y, x, i) {
                    // some neighbour reached within r - 1 steps, and so within r - 2 steps
                    lemma_neighbours_stall(hole, size, y, x, i);
                }
            }
            assert forall|y: int, x: int|
                0 <= y < size && 0 <= x < size && #[trigger] reach(hole, size, y, x, r) implies reach(
                hole,
                size,
                y,
                x,
                i,
            ) by {
                lemma_neighbours_stall(hole, size, y, x, i);
            }
        } else {
            let nb = board_round(b, i as int);
            assert forall|y: int, x: int| 0 <= y < size && 0 <= x < size implies #[trigger] nb[y][x]
                == steps_within(hole, size, y, x, r) by {
                lemma_steps_within(hole, size, y, x, i);
                lemma_steps_within(hole, size, y, x, r);
                lemma_round_cell(hole, size, b, y, x, i);
            }
            if nb == b {
                assert forall|y: int, x: int|
                    0 <= y < size && 0 <= x < size && #[trigger] reach(hole, size, y, x, r) implies reach(
                    hole,
                    size,
                    y,
                    x,
                    i,
                ) by {
                    lemma_steps_within(hole, size, y, x, i);
                    lemma_steps_within(hole, size, y, x, r);
                    lemma_round_cell(hole, size, b, y, x, i);
                    assert(nb[y][x] == b[y][x]);
                }
            }
            assert(square_board(nb, size));
        }
    }
}

/// When no cell is first reached at `i` steps (every cell reached within `i`
/// is reached within `i - 1`), a cell reached within `i + 1` is reached
/// within `i`.
proof fn lemma_neighbours_stall(hole: Seq<Point>, size: int, y: int, x: int, i: nat)
    requires
        i >= 1,
        0 <= y < size,
        0 <= x < size,
        forall|y2: int, x2: int|
            0 <= y2 < size && 0 <= x2 < size && #[trigger] reach(hole, size, y2, x2, i) ==> reach(
                hole,
                size,
                y2,
                x2,
                (i - 1) as nat,
            ),
    ensures
        reach(hole, size, y, x, i + 1) ==> reach(hole, size, y, x, i),
{
    let j = (i - 1) as nat;
    if reach(hole, size, y, x, i + 1) {
        if y + 1 < size && reach(hole, size, y + 1, x, i) {
            assert(reach(hole, size, y + 1, x, j));
        }
        if x + 1 < size && reach(hole, size, y, x + 1, i) {
            assert(reach(hole, size, y, x + 1, j));
        }
        if y >= 1 && reach(hole, size, y - 1, x, i) {
            assert(reach(hole, size, y - 1, x, j));
        }
        if x >= 1 && reach(hole, size, y, x - 1, i) {
            assert(reach(hole, size, y, x - 1, j));
        }
    }
}

/// A neighbour `(y2, x2)` of a cell not reached within `i` steps holds `i`
/// exactly when it is reached within `i` steps.
proof fn lemma_round_neighbour(
    hole: Seq<Point>,
    size: int,
    b: Seq<Seq<i64>>,
    y: int,
    x: int,
    y2: int,
    x2: int,
    i: nat,
)
    requires
        i < 300,
        b[y2][x2] == steps_within(hole, size, y2, x2, i),
        !reach(hole, size, y, x, i),
        i > 0 && reach(hole, size, y2, x2, (i - 1) as nat) ==> reach(hole, size, y, x, i),
    ensures
        b[y2][x2] == i <==> reach(hole, size, y2, x2, i),
{
    lemma_steps_within(hole, size, y2, x2, i);
}

/// One cell of round `i`, when the board holds `steps_within(.., i)`.
proof fn lemma_round_cell(hole: Seq<Point>, size: int, b: Seq<Seq<i64>>, y: int, x: int, i: nat)
    requires
        i < 300,
        square_board(b, size),
        0 <= y < size,
        0 <= x < size,
        forall|y2: int, x2: int|
            0 <= y2 < size && 0 <= x2 < size ==> #[trigger] b[y2][x2] == steps_within(hole, size, y2, x2, i),
    ensures
        board_round(b, i as int)[y][x] == steps_within(hole, size, y, x, i + 1),
{
    lemma_steps_within(hole, size, y, x, i);
    lemma_steps_within(hole, size, y, x, i + 1);
    assert(b[y][x] == steps_within(hole, size, y, x, i));
    if b[y][x] > 10000 {
        assert(!reach(hole, size, y, x, i));
        if y + 1 < size {
            assert(b[y + 1][x] == steps_within(hole, size, y + 1, x, i));
            lemma_round_neighbour(hole, size, b, y, x, y + 1, x, i);
        }
        if x + 1 < size {
            assert(b[y][x + 1] == steps_within(hole, size, y, x + 1, i));
            lemma_round_neighbour(hole, size, b, y, x, y, x + 1, i);
        }
        if y >= 1 {
            assert(b[y - 1][x] == steps_within(hole, size, y - 1, x, i));
            lemma_round_neighbour(hole, size, b, y, x, y - 1, x, i);
        }
        if x >= 1 {
            assert(b[y][x - 1] == steps_within(hole, size, y, x - 1, i));
            lemma_round_neighbour(hole, size, b, y, x, y, x - 1, i);
        }
        assert(neighbor_at(b, y, x, i as int) <==> reach(hole, size, y, x, i + 1));
    }
}

} // verus!
