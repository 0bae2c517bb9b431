use vstd::prelude::*;
use crate::geom::Point;
use crate::problem::{Figure, Input};
use crate::segment::imax;

verus! {

/// The largest coordinate of the first `k` hole vertices (`x` or `y`, each
/// vertex counting by the larger of its two).
pub open spec fn max_coord_upto(hole: Seq<Point>, k: int) -> int
    decreases k,
{
    if k <= 1 {
        imax(hole[0].0 as int, hole[0].1 as int)
    } else {
        imax(max_coord_upto(hole, k - 1), imax(hole[k - 1].0 as int, hole[k - 1].1 as int))
    }
}

/// The largest coordinate of the hole's vertices.
pub fn max_coord(input: &Input) -> (r: i64)
    requires
        input.hole@.len() > 0,
    ensures
        r == max_coord_upto(input.hole@, input.hole@.len() as int),
        forall|i: int|
            #![trigger input.hole@[i]]
            0 <= i < input.hole@.len() ==> input.hole@[i].0 <= r && input.hole@[i].1 <= r,
        exists|i: int|
            #![trigger input.hole@[i]]
            0 <= i < input.hole@.len() && (input.hole@[i].0 == r || input.hole@[i].1 == r),
{
    let p = input.hole[0];
    let mut r = if p.0 > p.1 {
        p.0
    } else {
        p.1
    };
    for k in 1..input.hole.len()
        invariant
            r == max_coord_upto(input.hole@, k as int),
    {
        let q = input.hole[k];
        let m = if q.0 > q.1 {
            q.0
        } else {
            q.1
        };
        if m > r {
            r = m;
        }
    }
    proof {
        lemma_max_coord_upto_is_max(input.hole@, input.hole@.len() as int);
    }
    r
}

/// The largest coordinate of the first `n` hole vertices is no smaller than
/// either coordinate of any of them, and is one of those coordinates.
pub proof fn lemma_max_coord_upto_is_max(hole: Seq<Point>, n: int)
    requires
        1 <= n <= hole.len(),
    ensures
        forall|i: int|
            #![trigger hole[i]]
            0 <= i < n ==> hole[i].0 <= max_coord_upto(hole, n) && hole[i].1 <= max_coord_upto(
                hole,
                n,
            ),
        exists|i: int|
            #![trigger hole[i]]
            0 <= i < n && (hole[i].0 == max_coord_upto(hole, n) || hole[i].1 == max_coord_upto(
                hole,
                n,
            )),
    decreases n,
{
    if n == 1 {
        assert(hole[0].0 == max_coord_upto(hole, n) || hole[0].1 == max_coord_upto(hole, n));
    } else {
        lemma_max_coord_upto_is_max(hole, n - 1);
        let j = n - 1;
        if max_coord_upto(hole, n) == max_coord_upto(hole, n - 1) {
            let i = choose|i: int|
                #![trigger hole[i]]
                0 <= i < n - 1 && (hole[i].0 == max_coord_upto(hole, n - 1) || hole[i].1
                    == max_coord_upto(hole, n - 1));
            assert(hole[i].0 == max_coord_upto(hole, n) || hole[i].1 == max_coord_upto(hole, n));
        } else {
            assert(hole[j].0 == max_coord_upto(hole, n) || hole[j].1 == max_coord_upto(hole, n));
        }
    }
}

/// Some edge of the figure joins `a` and `b`.
pub open spec fn adjacent(edges: Seq<(usize, usize)>, a: int, b: int) -> bool {
    exists|i: int|
        0 <= i < edges.len() && (#[trigger] edges[i] == (a as usize, b as usize) || edges[i] == (
            b as usize,
            a as usize,
        ))
}

/// The number of `w` with `v < w < k` adjacent to both `u` and `v`.
pub open spec fn closing_count(edges: Seq<(usize, usize)>, u: int, v: int, k: int) -> int
    decreases k - v,
{
    if k <= v + 1 {
        0
    } else {
        closing_count(edges, u, v, k - 1) + if adjacent(edges, u, k - 1) && adjacent(
            edges,
            k - 1,
            v,
        ) {
            1int
        } else {
            0int
        }
    }
}

/// The number of triangles `u < v < w < n` whose middle vertex is below `k`.
pub open spec fn triangles_at(edges: Seq<(usize, usize)>, n: int, u: int, k: int) -> int
    decreases k - u,
{
    if k <= u + 1 {
        0
    } else {
        triangles_at(edges, n, u, k - 1) + if adjacent(edges, u, k - 1) {
            closing_count(edges, u, k - 1, n)
        } else {
            0
        }
    }
}

/// The number of triangles `u < v < w < n` of the figure with `u < k`.
pub open spec fn triangles_upto(edges: Seq<(usize, usize)>, n: int, k: int) -> int
    decreases k,
{
    if k <= 0 {
        0
    } else {
        triangles_upto(edges, n, k - 1) + triangles_at(edges, n, k - 1, n)
    }
}

proof fn lemma_closing_bound(edges: Seq<(usize, usize)>, u: int, v: int, k: int)
    ensures
        0 <= closing_count(edges, u, v, k),
        k > v ==> closing_count(edges, u, v, k) <= k - v,
    decreases k - v,
{
    if k > v + 1 {
        lemma_closing_bound(edges, u, v, k - 1);
    }
}

proof fn lemma_at_bound(edges: Seq<(usize, usize)>, n: int, u: int, k: int)
    requires
        0 <= u,
        0 <= k <= n,
    ensures
        0 <= triangles_at(edges, n, u, k) <= k * n,
    decreases k - u,
{
    if k > u + 1 {
        lemma_at_bound(edges, n, u, k - 1);
        lemma_closing_bound(edges, u, k - 1, n);
        assert((k - 1) * n + n == k * n) by (nonlinear_arith);
    } else {
        assert(0 <= k * n) by (nonlinear_arith)
            requires
                0 <= k <= n,
        ;
    }
}

proof fn lemma_upto_bound(edges: Seq<(usize, usize)>, n: int, k: int)
    requires
        0 <= k <= n,
    ensures
        0 <= triangles_upto(edges, n, k) <= k * n * n,
    decreases k,
{
    if k > 0 {
        lemma_upto_bound(edges, n, k - 1);
        lemma_at_bound(edges, n, k - 1, n);
        assert((k - 1) * n * n + n * n == k * n * n) by (nonlinear_arith);
    } else {
        assert(0 * n * n == 0) by (nonlinear_arith);
    }
}

/// Whether `u`, `v` and `w` are joined pairwise by edges.
pub open spec fn is_triangle(edges: Seq<(usize, usize)>, u: int, v: int, w: int) -> bool {
    adjacent(edges, u, v) && adjacent(edges, v, w) && adjacent(edges, u, w)
}

proof fn lemma_adjacent_symmetric(edges: Seq<(usize, usize)>, a: int, b: int)
    ensures
        adjacent(edges, a, b) == adjacent(edges, b, a),
{
    if adjacent(edges, a, b) {
        let i = choose|i: int|
            0 <= i < edges.len() && (#[trigger] edges[i] == (a as usize, b as usize) || edges[i] == (
                b as usize,
                a as usize,
            ));
        assert(edges[i] == (b as usize, a as usize) || edges[i] == (a as usize, b as usize));
    }
    if adjacent(edges, b, a) {
        let i = choose|i: int|
            0 <= i < edges.len() && (#[trigger] edges[i] == (b as usize, a as usize) || edges[i] == (
                a as usize,
                b as usize,
            ));
        assert(edges[i] == (a as usize, b as usize) || edges[i] == (b as usize, a as usize));
    }
}

proof fn lemma_closing_zero(edges: Seq<(usize, usize)>, u: int, v: int, k: int)
    ensures
        closing_count(edges, u, v, k) >= 0,
        closing_count(edges, u, v, k) == 0 <==> forall|w: int|
            v < w < k ==> !(#[trigger] adjacent(edges, u, w) && adjacent(edges, w, v)),
    decreases k - v,
{
    if k > v + 1 {
        lemma_closing_zero(edges, u, v, k - 1);
    }
}

proof fn lemma_at_zero(edges: Seq<(usize, usize)>, n: int, u: int, k: int)
    ensures
        triangles_at(edges, n, u, k) >= 0,
        triangles_at(edges, n, u, k) == 0 <==> forall|v: int, w: int|
            u < v < k && v < w < n ==> !#[trigger] is_triangle(edges, u, v, w),
    decreases k - u,
{
    if k > u + 1 {
        let x = k - 1;
        lemma_at_zero(edges, n, u, k - 1);
        lemma_closing_zero(edges, u, x, n);
        assert forall|w: int| x < w < n implies #[trigger] is_triangle(edges, u, x, w) == (
        adjacent(edges, u, x) && (adjacent(edges, u, w) && adjacent(edges, w, x))) by {
            lemma_adjacent_symmetric(edges, x, w);
        }
        if triangles_at(edges, n, u, k) != 0 {
            if triangles_at(edges, n, u, k - 1) == 0 {
                let w = choose|w: int|
                    x < w < n && (#[trigger] adjacent(edges, u, w) && adjacent(edges, w, x));
                assert(is_triangle(edges, u, x, w));
            }
        }
    }
}

/// The figure has no triangle `u < v < w < n` with `u < k` exactly when the
/// count of them is zero; the count is never negative.
pub proof fn lemma_triangles_zero(edges: Seq<(usize, usize)>, n: int, k: int)
    ensures
        triangles_upto(edges, n, k) >= 0,
        triangles_upto(edges, n, k) == 0 <==> forall|u: int, v: int, w: int|
            0 <= u < k && u < v < w < n ==> !#[trigger] is_triangle(edges, u, v, w),
    decreases k,
{
    if k > 0 {
        lemma_triangles_zero(edges, n, k - 1);
        lemma_at_zero(edges, n, k - 1, n);
        if triangles_upto(edges, n, k) != 0 {
            if triangles_upto(edges, n, k - 1) == 0 {
                let (v, w) = choose|v: int, w: int|
                    k - 1 < v < n && v < w < n && #[trigger] is_triangle(edges, k - 1, v, w);
                assert(is_triangle(edges, k - 1, v, w));
            }
        }
    }
}

/// The triangles `(u, v, w)` of the figure with `u < v < w < n` and `u < k`.
pub open spec fn triangles_below(edges: Seq<(usize, usize)>, n: int, k: int) -> Set<(int, int, int)> {
    Set::new(
        |t: (int, int, int)|
            0 <= t.0 < k && t.0 < t.1 < t.2 < n && is_triangle(edges, t.0, t.1, t.2),
    )
}

spec fn closing_set(edges: Seq<(usize, usize)>, u: int, v: int, k: int) -> Set<(int, int, int)> {
    Set::new(
        |t: (int, int, int)|
            t.0 == u && t.1 == v && v < t.2 < k && adjacent(edges, u, t.2) && adjacent(edges, t.2, v),
    )
}

spec fn at_set(edges: Seq<(usize, usize)>, n: int, u: int, k: int) -> Set<(int, int, int)> {
    Set::new(
        |t: (int, int, int)| t.0 == u && u < t.1 < k && t.1 < t.2 < n && is_triangle(edges, u, t.1, t.2),
    )
}

proof fn lemma_closing_set(edges: Seq<(usize, usize)>, u: int, v: int, k: int)
    ensures
        closing_set(edges, u, v, k).finite(),
        closing_set(edges, u, v, k).len() == closing_count(edges, u, v, k),
    decreases k - v,
{
    if k <= v + 1 {
        assert(closing_set(edges, u, v, k) =~= Set::empty());
    } else {
        lemma_closing_set(edges, u, v, k - 1);
        let prev = closing_set(edges, u, v, k - 1);
        let x = (u, v, k - 1);
        assert(!prev.contains(x));
        if adjacent(edges, u, k - 1) && adjacent(edges, k - 1, v) {
            assert(closing_set(edges, u, v, k) =~= prev.insert(x));
        } else {
            assert(closing_set(edges, u, v, k) =~= prev);
        }
    }
}

proof fn lemma_at_set(edges: Seq<(usize, usize)>, n: int, u: int, k: int)
    ensures
        at_set(edges, n, u, k).finite(),
        at_set(edges, n, u, k).len() == triangles_at(edges, n, u, k),
    decreases k - u,
{
    if k <= u + 1 {
        assert(at_set(edges, n, u, k) =~= Set::empty());
    } else {
        let x = k - 1;
        lemma_at_set(edges, n, u, k - 1);
        let prev = at_set(edges, n, u, k - 1);
        if adjacent(edges, u, x) {
            lemma_closing_set(edges, u, x, n);
            let add = closing_set(edges, u, x, n);
            assert forall|w: int| x < w < n implies #[trigger] is_triangle(edges, u, x, w) == (
            adjacent(edges, u, w) && adjacent(edges, w, x)) by {
                lemma_adjacent_symmetric(edges, x, w);
            }
            assert(at_set(edges, n, u, k) =~= prev + add);
            assert(prev.disjoint(add));
            vstd::set_lib::lemma_set_disjoint_lens(prev, add);
        } else {
            assert(at_set(edges, n, u, k) =~= prev);
        }
    }
}

/// The count of triangles `u < v < w < n` with `u < k` is the number of
/// such triples of vertices joined pairwise by edges.
pub proof fn lemma_triangles_count(edges: Seq<(usize, usize)>, n: int, k: int)
    requires
        0 <= k,
    ensures
        triangles_below(edges, n, k).finite(),
        triangles_upto(edges, n, k) == triangles_below(edges, n, k).len(),
    decreases k,
{
    if k == 0 {
        assert(triangles_below(edges, n, k) =~= Set::empty());
    } else {
        lemma_triangles_count(edges, n, k - 1);
        lemma_at_set(edges, n, k - 1, n);
        let prev = triangles_below(edges, n, k - 1);
        let add = at_set(edges, n, k - 1, n);
        assert(triangles_below(edges, n, k) =~= prev + add);
        assert(prev.disjoint(add));
        vstd::set_lib::lemma_set_disjoint_lens(prev, add);
    }
}

/// The adjacency matrix of the figure.
fn adjacency(figure: &Figure) -> (adj: Vec<Vec<bool>>)
    requires
        forall|i: int|
            0 <= i < figure.edges@.len() ==> (#[trigger] figure.edges@[i]).0
                < figure.vertices@.len() && figure.edges@[i].1 < figure.vertices@.len(),
    ensures
        adj@.len() == figure.vertices@.len(),
        forall|a: int|
            0 <= a < adj@.len() ==> (#[trigger] adj@[a])@.len() == figure.vertices@.len(),
        forall|a: int, b: int|
            0 <= a < adj@.len() && 0 <= b < adj@.len() ==> #[trigger] adj@[a]@[b] == adjacent(
                figure.edges@,
                a,
                b,
            ),
{
    let n = figure.vertices.len();
    let mut adj: Vec<Vec<bool>> = Vec::new();
    for a in 0..n
        invariant
            n == figure.vertices@.len(),
            adj@.len() == a,
            forall|t: int| 0 <= t < a ==> (#[trigger] adj@[t])@.len() == n,
            forall|t: int, s: int| 0 <= t < a && 0 <= s < n ==> !#[trigger] adj@[t]@[s],
    {
        let mut row: Vec<bool> = Vec::new();
        for b in 0..n
            invariant
                row@.len() == b,
                forall|s: int| 0 <= s < b ==> !#[trigger] row@[s],
        {
            row.push(false);
        }
        adj.push(row);
    }
    let m = figure.edges.len();
    for i in 0..m
        invariant
            n == figure.vertices@.len(),
            m == figure.edges@.len(),
            forall|j: int|
                0 <= j < figure.edges@.len() ==> (#[trigger] figure.edges@[j]).0 < n
                    && figure.edges@[j].1 < n,
            adj@.len() == n,
            forall|t: int| 0 <= t < n ==> (#[trigger] adj@[t])@.len() == n,
            forall|a: int, b: int|
                0 <= a < n && 0 <= b < n ==> #[trigger] adj@[a]@[b] == exists|j: int|
                    0 <= j < i && (#[trigger] figure.edges@[j] == (a as usize, b as usize)
                        || figure.edges@[j] == (b as usize, a as usize)),
    {
        let (a, b) = figure.edges[i];
        assert((a, b) == figure.edges@[i as int]);
        let ghost before = adj@;
        let mut row: Vec<bool> = Vec::new();
        adj.set_and_swap(a, &mut row);
        row.set(b, true);
        adj.set_and_swap(a, &mut row);
        let mut row2: Vec<bool> = Vec::new();
        adj.set_and_swap(b, &mut row2);
        row2.set(a, true);
        adj.set_and_swap(b, &mut row2);
        assert forall|x: int, y: int| 0 <= x < n && 0 <= y < n implies #[trigger] adj@[x]@[y]
            == exists|j: int|
            0 <= j < i + 1 && (#[trigger] figure.edges@[j] == (x as usize, y as usize)
                || figure.edges@[j] == (y as usize, x as usize)) by {
            if (x == a && y == b) || (x == b && y == a) {
                assert(figure.edges@[i as int] == (a, b));
            } else {
                assert(adj@[x]@[y] == before[x]@[y]);
                if exists|j: int|
                    0 <= j < i + 1 && (#[trigger] figure.edges@[j] == (x as usize, y as usize)
                        || figure.edges@[j] == (y as usize, x as usize)) {
                    let j = choose|j: int|
                        0 <= j < i + 1 && (#[trigger] figure.edges@[j] == (x as usize, y as usize)
                            || figure.edges@[j] == (y as usize, x as usize));
                    assert(j < i);
                }
            }
        }
    }
    adj
}

/// The number of triangles of the figure: triples of vertices joined
/// pairwise by edges.
pub fn n_triangles(figure: &Figure) -> (r: usize)
    requires
        forall|i: int|
            0 <= i < figure.edges@.len() ==> (#[trigger] figure.edges@[i]).0
                < figure.vertices@.len() && figure.edges@[i].1 < figure.vertices@.len(),
        figure.vertices@.len() * figure.vertices@.len() * figure.vertices@.len() <= usize::MAX,
    ensures
        r == triangles_upto(
            figure.edges@,
            figure.vertices@.len() as int,
            figure.vertices@.len() as int,
        ),
        r == triangles_below(
            figure.edges@,
            figure.vertices@.len() as int,
            figure.vertices@.len() as int,
        ).len(),
{
    let n_vs = figure.vertices.len();
    let adj = adjacency(figure);
    let ghost es = figure.edges@;
    let ghost n = n_vs as int;
    let mut count: usize = 0;
    for u in 0..n_vs
        invariant
            n == n_vs,
            n * n * n <= usize::MAX,
            es == figure.edges@,
            adj@.len() == n,
            forall|a: int| 0 <= a < n ==> (#[trigger] adj@[a])@.len() == n,
            forall|a: int, b: int|
                0 <= a < n && 0 <= b < n ==> #[trigger] adj@[a]@[b] == adjacent(es, a, b),
            count == triangles_upto(es, n, u as int),
    {
        let ghost base = count as int;
        proof {
            lemma_upto_bound(es, n, u as int);
        }
        let mut v = u + 1;
        while v < n_vs
            invariant
                n == n_vs,
                n * n * n <= usize::MAX,
                u < v <= n_vs,
                es == figure.edges@,
                adj@.len() == n,
                forall|a: int| 0 <= a < n ==> (#[trigger] adj@[a])@.len() == n,
                forall|a: int, b: int|
                    0 <= a < n && 0 <= b < n ==> #[trigger] adj@[a]@[b] == adjacent(es, a, b),
                base == triangles_upto(es, n, u as int),
                0 <= base <= u * n * n,
                count == base + triangles_at(es, n, u as int, v as int),
            decreases n_vs - v,
        {
            proof {
                lemma_at_bound(es, n, u as int, v as int);
            }
            let ghost vbase = count as int;
            if adj[u][v] {
                let mut w = v + 1;
                while w < n_vs
                    invariant
                        n == n_vs,
                        n * n * n <= usize::MAX,
                        u < v < n_vs,
                        v < w <= n_vs,
                        adj@.len() == n,
                        forall|a: int| 0 <= a < n ==> (#[trigger] adj@[a])@.len() == n,
                        forall|a: int, b: int|
                            0 <= a < n && 0 <= b < n ==> #[trigger] adj@[a]@[b] == adjacent(
                                es,
                                a,
                                b,
                            ),
                        0 <= vbase <= u * n * n + v * n,
                        count == vbase + closing_count(es, u as int, v as int, w as int),
                    decreases n_vs - w,
                {
                    proof {
                        lemma_closing_bound(es, u as int, v as int, w as int);
                        assert(u * n * n + v * n + n <= n * n * n) by (nonlinear_arith)
                            requires
                                0 <= u < n,
                                0 <= v < n,
                        ;
                    }
                    if adj[u][w] && adj[w][v] {
                        count = count + 1;
                    }
                    w = w + 1;
                }
            }
            v = v + 1;
        }
    }
    proof {
        lemma_triangles_count(es, n, n);
    }
    count
}

} // verus!
