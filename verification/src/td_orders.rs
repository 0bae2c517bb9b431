use vstd::prelude::*;
use crate::sorting::{dedup_sorted, insertion_sort, strictly_sorted};
use crate::union_find::{lemma_unite_joins, UnionFind};

verus! {

/// How many times `v` occurs in `s`.
pub open spec fn occurrences(s: Seq<usize>, v: usize) -> nat
    decreases s.len(),
{
    if s.len() == 0 {
        0
    } else {
        occurrences(s.drop_last(), v) + if s.last() == v {
            1nat
        } else {
            0nat
        }
    }
}

/// The occurrences of `v` in `s` are its multiplicity in the multiset of
/// the items of `s`.
pub proof fn lemma_occurrences_count(s: Seq<usize>, v: usize)
    ensures
        occurrences(s, v) == s.to_multiset().count(v),
    decreases s.len(),
{
    broadcast use vstd::seq_lib::group_to_multiset_ensures;
    broadcast use vstd::multiset::group_multiset_axioms;

    if s.len() == 0 {
        assert(s.to_multiset() =~= vstd::multiset::Multiset::empty());
    } else {
        lemma_occurrences_count(s.drop_last(), v);
        assert(s =~= s.drop_last().push(s.last()));
        assert(s.to_multiset() =~= s.drop_last().to_multiset().insert(s.last()));
    }
}

/// How many times `v` occurs in the adjacency lists of the vertices of `p`:
/// its edges to them.
pub open spec fn hits(g: Seq<Vec<usize>>, p: Seq<usize>, v: usize) -> nat
    decreases p.len(),
{
    if p.len() == 0 {
        0
    } else {
        hits(g, p.drop_last(), v) + occurrences(g[p.last() as int]@, v)
    }
}

/// The total length of the first `k` adjacency lists.
pub open spec fn total_len(g: Seq<Vec<usize>>, k: int) -> nat
    decreases k,
{
    if k <= 0 {
        0
    } else {
        total_len(g, k - 1) + g[k - 1]@.len()
    }
}

/// The rule by which an elimination order picks its next vertex.
#[derive(Clone, Copy)]
pub enum OrderRule {
    /// Fewest neighbours, then smallest index.
    Degree,
    /// Fewest edges to the vertices already picked, then fewest neighbours,
    /// then largest index.
    FewestPicked,
    /// Most edges to the vertices not yet picked, then largest index.
    MostRemaining,
    /// Fewest edges to the vertices not yet picked, then largest index.
    FewestRemaining,
}

/// The key of vertex `v` once the vertices of `p` are picked: the rule picks
/// the vertex with the largest key.
pub open spec fn order_key(rule: OrderRule, g: Seq<Vec<usize>>, p: Seq<usize>, v: usize) -> (
    int,
    int,
    int,
) {
    let len = g[v as int]@.len() as int;
    let h = hits(g, p, v) as int;
    match rule {
        OrderRule::Degree => (-len, -(v as int), 0),
        OrderRule::FewestPicked => (-h, -len, v as int),
        OrderRule::MostRemaining => (len - h, v as int, 0),
        OrderRule::FewestRemaining => (h - len, v as int, 0),
    }
}

/// Lexicographic order of triples.
pub open spec fn key_lt(a: (int, int, int), b: (int, int, int)) -> bool {
    a.0 < b.0 || (a.0 == b.0 && (a.1 < b.1 || (a.1 == b.1 && a.2 < b.2)))
}

/// `order` starts with `k` greedy picks of `rule` among the `n` vertices:
/// each is a vertex not picked before, with a larger key than every other
/// vertex not picked before.
pub open spec fn greedy_prefix(rule: OrderRule, g: Seq<Vec<usize>>, order: Seq<usize>, k: int) -> bool {
    forall|i: int|
        0 <= i < k ==> {
            &&& (#[trigger] order[i]) < g.len()
            &&& !order.subrange(0, i).contains(order[i])
            &&& forall|v: usize|
                v < g.len() && !order.subrange(0, i).contains(v) && v != order[i] ==> key_lt(
                    order_key(rule, g, order.subrange(0, i), v),
                    order_key(rule, g, order.subrange(0, i), order[i]),
                )
        }
}

proof fn lemma_occurrences_bound(s: Seq<usize>, v: usize)
    ensures
        occurrences(s, v) <= s.len(),
    decreases s.len(),
{
    if s.len() > 0 {
        lemma_occurrences_bound(s.drop_last(), v);
    }
}

/// Distinct vertices hit `v` at most as often as their lists are long.
proof fn lemma_hits_bound(g: Seq<Vec<usize>>, p: Seq<usize>, v: usize)
    requires
        forall|i: int| 0 <= i < p.len() ==> (#[trigger] p[i]) < g.len(),
        forall|i: int, j: int| 0 <= i < j < p.len() ==> p[i] != p[j],
    ensures
        hits(g, p, v) <= total_len(g, g.len() as int),
{
    let all = Set::new(|x: int| 0 <= x < g.len());
    lemma_hits_set(g, p, v, all);
    lemma_total_is_set_len(g, g.len() as int);
}

/// The lengths of the lists of the vertices in `s`, over the first `k`.
pub open spec fn set_len(g: Seq<Vec<usize>>, s: Set<int>, k: int) -> nat
    decreases k,
{
    if k <= 0 {
        0
    } else {
        set_len(g, s, k - 1) + if s.contains(k - 1) {
            g[k - 1]@.len()
        } else {
            0
        }
    }
}

proof fn lemma_set_len_remove(g: Seq<Vec<usize>>, s: Set<int>, x: int, k: int)
    requires
        0 <= x < k,
        s.contains(x),
    ensures
        set_len(g, s.remove(x), k) + g[x]@.len() == set_len(g, s, k),
    decreases k,
{
    if k - 1 == x {
        lemma_set_len_eq_below(g, s.remove(x), s, k - 1);
    } else {
        lemma_set_len_remove(g, s, x, k - 1);
    }
}

proof fn lemma_set_len_eq_below(g: Seq<Vec<usize>>, s: Set<int>, t: Set<int>, k: int)
    requires
        forall|y: int| 0 <= y < k ==> (s.contains(y) <==> t.contains(y)),
    ensures
        set_len(g, s, k) == set_len(g, t, k),
    decreases k,
{
    if k > 0 {
        lemma_set_len_eq_below(g, s, t, k - 1);
    }
}

/// Hits from distinct vertices of `s` stay within the lengths of the lists
/// of `s`.
proof fn lemma_hits_set(g: Seq<Vec<usize>>, r: Seq<usize>, v: usize, s: Set<int>)
    requires
        forall|i: int| 0 <= i < r.len() ==> #[trigger] s.contains(r[i] as int) && r[i] < g.len(),
        forall|i: int, j: int| 0 <= i < j < r.len() ==> r[i] != r[j],
    ensures
        hits(g, r, v) <= set_len(g, s, g.len() as int),
    decreases r.len(),
{
    if r.len() > 0 {
        let q = r.drop_last();
        let x = r.last();
        let s2 = s.remove(x as int);
        assert forall|i: int| 0 <= i < q.len() implies #[trigger] s2.contains(q[i] as int) && q[i]
            < g.len() by {
            assert(q[i] == r[i]);
            assert(r[i] != r[r.len() - 1]);
        }
        lemma_hits_set(g, q, v, s2);
        assert(s.contains(r[r.len() - 1] as int));
        lemma_set_len_remove(g, s, x as int, g.len() as int);
        lemma_occurrences_bound(g[x as int]@, v);
    }
}

proof fn lemma_total_is_set_len(g: Seq<Vec<usize>>, k: int)
    requires
        k <= g.len(),
    ensures
        total_len(g, k) == set_len(g, Set::new(|x: int| 0 <= x < g.len()), k),
    decreases k,
{
    if k > 0 {
        lemma_total_is_set_len(g, k - 1);
    }
}

/// How many of the first `m` flags are set.
pub open spec fn count_set(f: Seq<bool>, m: int) -> nat
    decreases m,
{
    if m <= 0 {
        0
    } else {
        count_set(f, m - 1) + if f[m - 1] {
            1nat
        } else {
            0nat
        }
    }
}

proof fn lemma_count_set_update(f: Seq<bool>, m: int, i: int)
    requires
        0 <= i < m <= f.len(),
        !f[i],
    ensures
        count_set(f.update(i, true), m) == count_set(f, m) + 1,
    decreases m,
{
    if m - 1 > i {
        lemma_count_set_update(f, m - 1, i);
    } else {
        lemma_count_set_same(f, f.update(i, true), m - 1);
    }
}

proof fn lemma_count_set_same(f: Seq<bool>, h: Seq<bool>, m: int)
    requires
        0 <= m <= f.len(),
        m <= h.len(),
        forall|j: int| 0 <= j < m ==> f[j] == h[j],
    ensures
        count_set(f, m) == count_set(h, m),
    decreases m,
{
    if m > 0 {
        lemma_count_set_same(f, h, m - 1);
    }
}

proof fn lemma_count_set_unset(f: Seq<bool>, m: int)
    requires
        0 <= m <= f.len(),
        count_set(f, m) < m,
    ensures
        exists|j: int| 0 <= j < m && !f[j],
    decreases m,
{
    if f[m - 1] {
        lemma_count_set_unset(f, m - 1);
    }
}

/// The adjacency lists name vertices, and their total length leaves room
/// to add two counts.
pub open spec fn order_ok(g: Seq<Vec<usize>>) -> bool {
    &&& forall|u: int, j: int| 0 <= u < g.len() && 0 <= j < g[u]@.len() ==> (#[trigger] g[u]@[j]) < g.len()
    &&& 2 * total_len(g, g.len() as int) <= usize::MAX
}

/// Whether vertex `v` has a larger key than `b` under the rule, given the
/// counts of edges to the picked vertices.
fn better(rule: OrderRule, g: &Vec<Vec<usize>>, cnt: &Vec<usize>, v: usize, b: usize, Ghost(p): Ghost<Seq<usize>>) -> (r: bool)
    requires
        v < g@.len(),
        b < g@.len(),
        cnt@.len() == g@.len(),
        cnt@[v as int] == hits(g@, p, v),
        cnt@[b as int] == hits(g@, p, b),
        cnt@[v as int] + g@[b as int]@.len() <= usize::MAX,
        cnt@[b as int] + g@[v as int]@.len() <= usize::MAX,
    ensures
        r == key_lt(order_key(rule, g@, p, b), order_key(rule, g@, p, v)),
{
    let lv = g[v].len();
    let lb = g[b].len();
    let hv = cnt[v];
    let hb = cnt[b];
    match rule {
        OrderRule::Degree => lv < lb || (lv == lb && v < b),
        OrderRule::FewestPicked => hv < hb || (hv == hb && (lv < lb || (lv == lb && v > b))),
        OrderRule::MostRemaining => lv + hb > lb + hv || (lv + hb == lb + hv && v > b),
        OrderRule::FewestRemaining => hv + lb > hb + lv || (hv + lb == hb + lv && v > b),
    }
}

/// Picks the `n` vertices one by one by the rule.
fn elimination_order(g: &Vec<Vec<usize>>, rule: OrderRule) -> (order: Vec<usize>)
    requires
        order_ok(g@),
    ensures
        order@.len() == g@.len(),
        greedy_prefix(rule, g@, order@, g@.len() as int),
{
    let n = g.len();
    let mut order: Vec<usize> = Vec::new();
    let mut picked: Vec<bool> = Vec::new();
    let mut cnt: Vec<usize> = Vec::new();
    for i in 0..n
        invariant
            picked@.len() == i,
            cnt@.len() == i,
            forall|j: int| 0 <= j < i ==> !(#[trigger] picked@[j]),
            forall|j: int| 0 <= j < i ==> #[trigger] cnt@[j] == 0,
    {
        picked.push(false);
        cnt.push(0);
    }
    proof {
        lemma_count_set_same(picked@, Seq::new(n as nat, |j: int| false), 0);
        assert(count_set(picked@, n as int) == 0) by {
            lemma_count_zero(picked@, n as int);
        }
    }
    for k in 0..n
        invariant
            n == g@.len(),
            order_ok(g@),
            order@.len() == k,
            picked@.len() == n,
            cnt@.len() == n,
            count_set(picked@, n as int) == k,
            forall|v: int| 0 <= v < n ==> (#[trigger] picked@[v] <==> order@.contains(v as usize)),
            forall|i: int| 0 <= i < k ==> (#[trigger] order@[i]) < n,
            forall|i: int, j: int| 0 <= i < j < k ==> order@[i] != order@[j],
            forall|v: int| 0 <= v < n ==> #[trigger] cnt@[v] == hits(g@, order@, v as usize),
            greedy_prefix(rule, g@, order@, k as int),
    {
        proof {
            lemma_count_set_unset(picked@, n as int);
        }
        let ghost p = order@;
        let mut best: usize = n;
        for v in 0..n
            invariant
                n == g@.len(),
                order_ok(g@),
                p == order@,
                picked@.len() == n,
                cnt@.len() == n,
                forall|x: int| 0 <= x < n ==> #[trigger] cnt@[x] == hits(g@, p, x as usize),
                forall|x: int| 0 <= x < n ==> (#[trigger] picked@[x] <==> p.contains(x as usize)),
                forall|i: int| 0 <= i < p.len() ==> (#[trigger] p[i]) < n,
                forall|i: int, j: int| 0 <= i < j < p.len() ==> p[i] != p[j],
                best == n || (best < v && !picked@[best as int]),
                best == n ==> forall|x: int| 0 <= x < v ==> #[trigger] picked@[x],
                best < n ==> forall|x: usize|
                    x < v && !p.contains(x) && x != best ==> key_lt(
                        order_key(rule, g@, p, x),
                        order_key(rule, g@, p, best),
                    ),
        {
            let ghost old_best = best;
            if !picked[v] {
                let take = if best == n {
                    true
                } else {
                    proof {
                        lemma_hits_bound(g@, p, v);
                        lemma_hits_bound(g@, p, best);
                        lemma_total_len_at(g@, n as int, v as int);
                        lemma_total_len_at(g@, n as int, best as int);
                    }
                    better(rule, g, &cnt, v, best, Ghost(p))
                };
                if take {
                    best = v;
                }
                proof {
                    if old_best < n {
                        let kb = order_key(rule, g@, p, old_best);
                        let kv = order_key(rule, g@, p, v as usize);
                        assert(kb != kv);
                        if take {
                            assert forall|x: usize|
                                x < v + 1 && !p.contains(x) && x != best implies key_lt(
                                order_key(rule, g@, p, x),
                                order_key(rule, g@, p, best),
                            ) by {
                                assert(!picked@[x as int]);
                                if x != old_best {
                                    assert(key_lt(order_key(rule, g@, p, x), kb));
                                }
                            }
                        } else {
                            assert(key_lt(kv, kb));
                        }
                    } else {
                        assert forall|x: usize|
                            x < v + 1 && !p.contains(x) && x != best implies key_lt(
                            order_key(rule, g@, p, x),
                            order_key(rule, g@, p, best),
                        ) by {
                            assert(!picked@[x as int]);
                        }
                    }
                }
            }
        }
        assert(best < n);
        let u = best;
        let ghost old_picked = picked@;
        proof {
            lemma_count_set_update(picked@, n as int, u as int);
        }
        picked.set(u, true);
        order.push(u);
        let ghost q = order@;
        assert(q.subrange(0, k as int) =~= p);
        assert forall|i: int| 0 <= i < k implies #[trigger] q.subrange(0, i) == p.subrange(0, i) by {
            assert(q.subrange(0, i) =~= p.subrange(0, i));
        }
        assert forall|v: int| 0 <= v < n implies (#[trigger] picked@[v] <==> q.contains(v as usize)) by {
            if v == u {
                assert(q[k as int] == u);
            } else if p.contains(v as usize) {
                let i = choose|i: int| 0 <= i < p.len() && p[i] == v as usize;
                assert(q[i] == v as usize);
            } else if q.contains(v as usize) {
                let i = choose|i: int| 0 <= i < q.len() && q[i] == v as usize;
                if i < k {
                    assert(p[i] == v as usize);
                }
            }
        }
        // count the new edges
        let lu = g[u].len();
        let mut j: usize = 0;
        while j < lu
            invariant
                n == g@.len(),
                order_ok(g@),
                u < n,
                lu == g@[u as int]@.len(),
                j <= lu,
                q == order@,
                q == p.push(u),
                cnt@.len() == n,
                forall|i: int| 0 <= i < q.len() ==> (#[trigger] q[i]) < n,
                forall|i: int, i2: int| 0 <= i < i2 < q.len() ==> q[i] != q[i2],
                forall|x: int| 0 <= x < n ==> #[trigger] cnt@[x] == hits(g@, p, x as usize)
                    + occurrences(g@[u as int]@.subrange(0, j as int), x as usize),
            decreases lu - j,
        {
            let w = g[u][j];
            assert(w < n);
            proof {
                assert(g@[u as int]@.subrange(0, j + 1).drop_last() =~= g@[u as int]@.subrange(0, j as int));
                lemma_occurrences_prefix_bound(g@[u as int]@, j + 1, w);
                lemma_hits_bound(g@, q, w);
                assert(hits(g@, q, w) == hits(g@, p, w) + occurrences(g@[u as int]@, w)) by {
                    assert(q.drop_last() =~= p);
                }
            }
            let c = cnt[w];
            cnt.set(w, c + 1);
            j = j + 1;
        }
        proof {
            assert(g@[u as int]@.subrange(0, lu as int) =~= g@[u as int]@);
            assert(q.drop_last() =~= p);
            assert(greedy_prefix(rule, g@, q, k + 1)) by {
                assert forall|i: int| 0 <= i < k + 1 implies {
                    &&& (#[trigger] q[i]) < g@.len()
                    &&& !q.subrange(0, i).contains(q[i])
                    &&& forall|v: usize|
                        v < g@.len() && !q.subrange(0, i).contains(v) && v != q[i] ==> key_lt(
                            order_key(rule, g@, q.subrange(0, i), v),
                            order_key(rule, g@, q.subrange(0, i), q[i]),
                        )
                } by {
                    if i < k {
                        assert(q[i] == p[i]);
                        assert(q.subrange(0, i) == p.subrange(0, i));
                    } else {
                        assert(q.subrange(0, i) =~= p);
                        assert(!old_picked[u as int]);
                        assert forall|v: usize| v < g@.len() && !p.contains(v) && v != u implies key_lt(
                            order_key(rule, g@, p, v),
                            order_key(rule, g@, p, u),
                        ) by {
                            assert(!old_picked[v as int]);
                        }
                    }
                }
            }
        }
    }
    order
}

proof fn lemma_count_zero(f: Seq<bool>, m: int)
    requires
        0 <= m <= f.len(),
        forall|j: int| 0 <= j < m ==> !f[j],
    ensures
        count_set(f, m) == 0,
    decreases m,
{
    if m > 0 {
        lemma_count_zero(f, m - 1);
    }
}

proof fn lemma_occurrences_prefix_bound(s: Seq<usize>, j: int, v: usize)
    requires
        0 <= j <= s.len(),
    ensures
        occurrences(s.subrange(0, j), v) <= occurrences(s, v),
    decreases s.len() - j,
{
    if j < s.len() {
        lemma_occurrences_prefix_bound(s, j + 1, v);
        assert(s.subrange(0, j + 1).drop_last() =~= s.subrange(0, j));
    } else {
        assert(s.subrange(0, j) =~= s);
    }
}

proof fn lemma_total_len_at(g: Seq<Vec<usize>>, k: int, u: int)
    requires
        0 <= u < k <= g.len(),
    ensures
        g[u]@.len() <= total_len(g, k),
    decreases k,
{
    if u < k - 1 {
        lemma_total_len_at(g, k - 1, u);
    }
}

/// The vertices by number of neighbours, fewest first, ties by index.
pub fn degree_order(g: &Vec<Vec<usize>>) -> (order: Vec<usize>)
    requires
        order_ok(g@),
    ensures
        order@.len() == g@.len(),
        greedy_prefix(OrderRule::Degree, g@, order@, g@.len() as int),
{
    elimination_order(g, OrderRule::Degree)
}

/// An elimination order that picks next the vertex with the fewest edges
/// to the vertices already picked, then the fewest neighbours, then the
/// largest index.
pub fn degree_order2(g: &Vec<Vec<usize>>) -> (order: Vec<usize>)
    requires
        order_ok(g@),
    ensures
        order@.len() == g@.len(),
        greedy_prefix(OrderRule::FewestPicked, g@, order@, g@.len() as int),
{
    elimination_order(g, OrderRule::FewestPicked)
}

/// The reverse of the elimination order that picks next the vertex with
/// the most edges to the vertices not yet picked, then the largest index.
pub fn degree_order3(g: &Vec<Vec<usize>>) -> (order: Vec<usize>)
    requires
        order_ok(g@),
    ensures
        order@.len() == g@.len(),
        greedy_prefix(OrderRule::MostRemaining, g@, order@.reverse(), g@.len() as int),
{
    let picks = elimination_order(g, OrderRule::MostRemaining);
    let mut order: Vec<usize> = Vec::new();
    let mut i = picks.len();
    while i > 0
        invariant
            i <= picks@.len(),
            order@ == picks@.subrange(i as int, picks@.len() as int).reverse(),
        decreases i,
    {
        i = i - 1;
        order.push(picks[i]);
        assert(order@ =~= picks@.subrange(i as int, picks@.len() as int).reverse());
    }
    assert(picks@.subrange(0, picks@.len() as int) =~= picks@);
    assert(order@.reverse() =~= picks@);
    order
}

/// The elimination order that picks next the vertex with the fewest edges
/// to the vertices not yet picked (peeling the graph's cores), then the
/// largest index.
pub fn k_core_order(g: &Vec<Vec<usize>>) -> (order: Vec<usize>)
    requires
        order_ok(g@),
    ensures
        order@.len() == g@.len(),
        greedy_prefix(OrderRule::FewestRemaining, g@, order@, g@.len() as int),
{
    elimination_order(g, OrderRule::FewestRemaining)
}

// ---------------------------------------------------------------------------
// Tree decompositions from elimination orders
// ---------------------------------------------------------------------------

/// A tree decomposition built along an elimination order: the order, each
/// vertex's bag (its neighbours outside the part of the tree below it), and
/// each vertex's parent (`NO_PARENT` for the roots).
pub struct TreeDecomposition {
    pub order: Vec<usize>,
    pub bag: Vec<Vec<usize>>,
    pub parent: Vec<usize>,
}

/// The parent of a root.
pub const NO_PARENT: usize = usize::MAX;

/// The state of an elimination: each vertex's label (the last eliminated
/// vertex of its part, or itself), which vertices are eliminated, their
/// parents, and their bags.
pub type ElimState = (Seq<usize>, Seq<bool>, Seq<usize>, Seq<Set<usize>>);

/// Every vertex alone, none eliminated, no parents, empty bags.
pub open spec fn elim_start(n: nat) -> ElimState {
    (
        Seq::new(n, |i: int| i as usize),
        Seq::new(n, |i: int| false),
        Seq::new(n, |i: int| NO_PARENT),
        Seq::new(n, |i: int| Set::empty()),
    )
}

/// The labels after joining the parts labelled `a` and `b` under `u`.
pub open spec fn relabel(top: Seq<usize>, a: usize, b: usize, u: usize) -> Seq<usize> {
    top.map_values(|w: usize| if w == a || w == b { u } else { w })
}

/// Looks at the neighbour `v` while eliminating `u`, with the bag so far
/// `tmp`: nothing when `v` is in `u`'s part; `v` joins the bag when it is
/// not eliminated; otherwise the part of `v` becomes a child of `u` (its
/// label's parent is `u`), is joined to `u`'s part, and its bag (without
/// `u`) joins `u`'s bag.
pub open spec fn neighbor_step(st: ElimState, tmp: Set<usize>, u: usize, v: usize, cb: bool) -> (
    ElimState,
    Set<usize>,
) {
    let (top, elim, parent, bag) = st;
    if top[u as int] == top[v as int] {
        (st, tmp)
    } else if !elim[v as int] {
        (st, tmp.insert(v))
    } else {
        let r = top[v as int];
        let st2 = (relabel(top, top[u as int], r, u), elim, parent.update(r as int, u), bag);
        (st2, if cb { tmp.union(bag[r as int].remove(u)) } else { tmp })
    }
}

/// The first `j` neighbours of `u` looked at.
pub open spec fn neighbors_fold(g: Seq<Vec<usize>>, st: ElimState, u: usize, cb: bool, j: int) -> (
    ElimState,
    Set<usize>,
)
    decreases j,
{
    if j <= 0 {
        (st, Set::empty())
    } else {
        let (st1, tmp) = neighbors_fold(g, st, u, cb, j - 1);
        neighbor_step(st1, tmp, u, g[u as int]@[j - 1], cb)
    }
}

/// Eliminating `u`.
pub open spec fn elim_step(g: Seq<Vec<usize>>, st: ElimState, u: usize, cb: bool) -> ElimState {
    let (st1, tmp) = neighbors_fold(g, st, u, cb, g[u as int]@.len() as int);
    let (top, elim, parent, bag) = st1;
    (top, elim.update(u as int, true), parent, if cb { bag.update(u as int, tmp) } else { bag })
}

/// The state after eliminating the first `k` vertices of the order.
pub open spec fn elim_run(g: Seq<Vec<usize>>, order: Seq<usize>, cb: bool, k: int) -> ElimState
    decreases k,
{
    if k <= 0 {
        elim_start(g.len())
    } else {
        elim_step(g, elim_run(g, order, cb, k - 1), order[k - 1], cb)
    }
}

/// The union-find sets, the labels of their roots, the flags, parents and
/// bags hold the elimination state `st`.
pub open spec fn elim_rel(
    st: ElimState,
    uf: UnionFind,
    root: Seq<usize>,
    eliminated: Seq<bool>,
    parent: Seq<usize>,
    bag: Seq<Vec<usize>>,
    n: nat,
) -> bool {
    let (top, elim, par, bags) = st;
    &&& uf.wf()
    &&& uf.len() == n
    &&& top.len() == n
    &&& elim.len() == n
    &&& par.len() == n
    &&& bags.len() == n
    &&& root.len() == n
    &&& eliminated == elim
    &&& parent == par
    &&& bag.len() == n
    &&& forall|a: int| 0 <= a < n ==> (#[trigger] top[a]) < n && top[top[a] as int] == top[a]
    &&& forall|a: int, b: int|
        0 <= a < n && 0 <= b < n ==> ((#[trigger] uf.reps()[a] == #[trigger] uf.reps()[b]) <==> (top[a]
            == top[b]))
    &&& forall|a: int| 0 <= a < n ==> root[#[trigger] uf.reps()[a] as int] == top[a]
    &&& forall|u: int|
        0 <= u < n ==> strictly_sorted((#[trigger] bag[u])@) && bag[u]@.to_set() == bags[u]
}

/// Looks at the neighbour `v` while eliminating `u`.
fn look_at(
    u: usize,
    v: usize,
    cb: bool,
    uf: &mut UnionFind,
    root: &mut Vec<usize>,
    eliminated: &Vec<bool>,
    parent: &mut Vec<usize>,
    bag: &Vec<Vec<usize>>,
    tmp: &mut Vec<usize>,
    Ghost(st): Ghost<ElimState>,
    Ghost(tset): Ghost<Set<usize>>,
) -> (next: Ghost<(ElimState, Set<usize>)>)
    requires
        elim_rel(st, *old(uf), old(root)@, eliminated@, old(parent)@, bag@, bag@.len() as nat),
        u < bag@.len(),
        v < bag@.len(),
        old(tmp)@.to_set() == tset,
    ensures
        next@ == neighbor_step(st, tset, u, v, cb),
        elim_rel(next@.0, *final(uf), final(root)@, eliminated@, final(parent)@, bag@, bag@.len() as nat),
        final(tmp)@.to_set() == next@.1,
{
    let ghost n = bag@.len();
    let ghost (top, elim, par, bags) = st;
    proof {
        uf.lemma_reps();
    }
    if uf.same(u, v) {
        return Ghost((st, tset));
    }
    if !eliminated[v] {
        let ghost t0 = tmp@;
        tmp.push(v);
        proof {
            t0.lemma_push_to_set_commute(v);
        }
        return Ghost((st, tset.insert(v)));
    }
    let fv = uf.find(v);
    let r = root[fv];
    assert(r == top[v as int]);
    assert(top[r as int] == r);
    assert(uf.reps()[r as int] == uf.reps()[v as int]);
    parent.set(r, u);
    let ghost reps0 = uf.reps();
    let ghost small_big = (reps0[u as int], reps0[r as int]);
    uf.unite(u, r);
    let fu = uf.find(u);
    root.set(fu, u);
    let ghost top2 = relabel(top, top[u as int], r, u);
    let ghost st2 = (top2, elim, par.update(r as int, u), bags);
    proof {
        uf.lemma_reps();
        let reps1 = uf.reps();
        assert forall|a: int| 0 <= a < n implies (#[trigger] top2[a]) < n && top2[top2[a] as int] == top2[a] by {
            if top[a] == top[u as int] || top[a] == r {
            } else {
                assert(top[a] != u) by {
                    if top[a] == u {
                        assert(top[u as int] == u);
                    }
                }
            }
        }
        assert forall|a: int| 0 <= a < n implies (reps1[a] == reps1[u as int]) == (top[a] == top[u as int] || top[a] == r) by {
            lemma_unite_joins(reps0, small_big.0, small_big.1, a, u as int);
            lemma_unite_joins(reps0, small_big.1, small_big.0, a, u as int);
        }
        assert forall|a: int, b: int| 0 <= a < n && 0 <= b < n implies ((#[trigger] reps1[a] == #[trigger] reps1[b]) <==> (top2[a] == top2[b])) by {
            lemma_unite_joins(reps0, small_big.0, small_big.1, a, b);
            lemma_unite_joins(reps0, small_big.1, small_big.0, a, b);
            if top[a] == u {
                assert(top[u as int] == u);
            }
            if top[b] == u {
                assert(top[u as int] == u);
            }
        }
        assert forall|a: int| 0 <= a < n implies root@[#[trigger] reps1[a] as int] == top2[a] by {
            if top[a] == top[u as int] || top[a] == r {
                assert(reps1[a] == reps1[u as int]);
            } else {
                assert(reps1[a] != reps1[u as int]);
                lemma_unite_joins(reps0, small_big.0, small_big.1, a, a);
                if reps0[a] != small_big.0 && reps0[a] != small_big.1 {
                    assert(reps1[a] == reps0[a]);
                } else {
                    assert(reps0[a] == reps0[u as int] || reps0[a] == reps0[r as int]);
                    if reps0[a] == reps0[u as int] {
                        assert(top[a] == top[u as int]);
                    } else {
                        assert(top[a] == top[r as int]);
                    }
                }
                if top[a] == u {
                    assert(top[u as int] == u);
                }
            }
        }
    }
    if cb {
        let b = &bag[r];
        let ghost t0 = tmp@;
        let ghost add = bags[r as int].remove(u);
        for i in 0..b.len()
            invariant
                tmp@.to_set() == t0.to_set().union(b@.subrange(0, i as int).to_set().remove(u)),
        {
            let w = b[i];
            let ghost t1 = tmp@;
            if w != u {
                tmp.push(w);
            }
            proof {
                t1.lemma_push_to_set_commute(w);
                b@.subrange(0, i as int).lemma_push_to_set_commute(w);
                assert(b@.subrange(0, i + 1) =~= b@.subrange(0, i as int).push(w));
                assert(tmp@.to_set() =~= t0.to_set().union(b@.subrange(0, i + 1).to_set().remove(u)));
            }
        }
        assert(b@.subrange(0, b@.len() as int) =~= b@);
        assert(tmp@.to_set() =~= tset.union(add));
        return Ghost((st2, tset.union(add)));
    }
    Ghost((st2, tset))
}

impl TreeDecomposition {
    /// The tree decomposition of the graph `g` along the elimination order:
    /// eliminating each vertex `u` in turn joins to it the parts of its
    /// eliminated neighbours (each part's last eliminated vertex gets parent
    /// `u`), and, with `construct_bag`, gives `u` the bag of its neighbours
    /// and of its children's bags that are not in its part, sorted.
    pub fn from_ordering(g: &Vec<Vec<usize>>, order: Vec<usize>, construct_bag: bool) -> (td: TreeDecomposition)
        requires
            forall|u: int, j: int| 0 <= u < g@.len() && 0 <= j < g@[u]@.len() ==> (#[trigger] g@[u]@[j]) < g@.len(),
            forall|k: int| 0 <= k < order@.len() ==> (#[trigger] order@[k]) < g@.len(),
        ensures
            td.order@ == order@,
            td.parent@ == elim_run(g@, order@, construct_bag, order@.len() as int).2,
            td.bag@.len() == g@.len(),
            forall|u: int|
                0 <= u < g@.len() ==> strictly_sorted((#[trigger] td.bag@[u])@) && td.bag@[u]@.to_set()
                    == elim_run(g@, order@, construct_bag, order@.len() as int).3[u],
    {
        let n = g.len();
        let mut uf = UnionFind::new(n);
        let mut bag: Vec<Vec<usize>> = Vec::new();
        let mut parent: Vec<usize> = Vec::new();
        let mut root: Vec<usize> = Vec::new();
        let mut eliminated: Vec<bool> = Vec::new();
        for i in 0..n
            invariant
                bag@.len() == i,
                parent@.len() == i,
                root@.len() == i,
                eliminated@.len() == i,
                forall|j: int| 0 <= j < i ==> (#[trigger] bag@[j])@.len() == 0,
                forall|j: int| 0 <= j < i ==> #[trigger] parent@[j] == NO_PARENT,
                forall|j: int| 0 <= j < i ==> #[trigger] root@[j] == j,
                forall|j: int| 0 <= j < i ==> !#[trigger] eliminated@[j],
        {
            bag.push(Vec::new());
            parent.push(NO_PARENT);
            root.push(i);
            eliminated.push(false);
        }
        proof {
            uf.lemma_reps();
            let st = elim_start(n as nat);
            assert(eliminated@ =~= st.1);
            assert(parent@ =~= st.2);
            assert forall|u: int| 0 <= u < n implies strictly_sorted((#[trigger] bag@[u])@) && bag@[u]@.to_set() == st.3[u] by {
                assert(bag@[u]@.to_set() =~= Set::empty());
            }
        }
        let m = order.len();
        for k in 0..m
            invariant
                n == g@.len(),
                m == order@.len(),
                forall|u: int, j: int| 0 <= u < g@.len() && 0 <= j < g@[u]@.len() ==> (#[trigger] g@[u]@[j]) < g@.len(),
                forall|k: int| 0 <= k < order@.len() ==> (#[trigger] order@[k]) < g@.len(),
                elim_rel(elim_run(g@, order@, construct_bag, k as int), uf, root@, eliminated@, parent@, bag@, n as nat),
        {
            let u = order[k];
            let ghost st0 = elim_run(g@, order@, construct_bag, k as int);
            let mut tmp: Vec<usize> = Vec::new();
            let ghost mut cur: (ElimState, Set<usize>) = (st0, Set::empty());
            assert(tmp@.to_set() =~= Set::<usize>::empty());
            let lu = g[u].len();
            for j in 0..lu
                invariant
                    n == g@.len(),
                    u < n,
                    lu == g@[u as int]@.len(),
                    forall|a: int, b: int| 0 <= a < g@.len() && 0 <= b < g@[a]@.len() ==> (#[trigger] g@[a]@[b]) < g@.len(),
                    cur == neighbors_fold(g@, st0, u, construct_bag, j as int),
                    elim_rel(cur.0, uf, root@, eliminated@, parent@, bag@, n as nat),
                    tmp@.to_set() == cur.1,
            {
                let v = g[u][j];
                let next = look_at(u, v, construct_bag, &mut uf, &mut root, &eliminated, &mut parent, &bag, &mut tmp, Ghost(cur.0), Ghost(cur.1));
                proof {
                    cur = next@;
                }
            }
            let ghost st1 = cur.0;
            eliminated.set(u, true);
            if construct_bag {
                let ghost t0 = tmp@;
                insertion_sort(&mut tmp);
                let d = dedup_sorted(&tmp);
                proof {
                    assert(tmp@.to_set() =~= t0.to_set()) by {
                        assert forall|x: usize| tmp@.to_set().contains(x) <==> t0.to_set().contains(x) by {
                            vstd::seq_lib::to_multiset_contains(tmp@, x);
                            vstd::seq_lib::to_multiset_contains(t0, x);
                        }
                    }
                }
                bag.set(u, d);
            }
            proof {
                let st2 = elim_run(g@, order@, construct_bag, k + 1);
                assert(st2 == elim_step(g@, st0, u, construct_bag));
                assert(eliminated@ =~= st2.1);
                assert forall|x: int| 0 <= x < n implies strictly_sorted((#[trigger] bag@[x])@) && bag@[x]@.to_set() == st2.3[x] by {
                }
            }
        }
        TreeDecomposition { order, bag, parent }
    }
}

// ---------------------------------------------------------------------------
// Edges land in bags
// ---------------------------------------------------------------------------

/// The labels of an elimination state: a vertex not eliminated is its own
/// label, and an eliminated one is labelled by an eliminated vertex.
pub open spec fn labels_ok(st: ElimState, n: int) -> bool {
    let (top, elim, par, bag) = st;
    &&& top.len() == n
    &&& elim.len() == n
    &&& bag.len() == n
    &&& forall|w: int| 0 <= w < n ==> (#[trigger] top[w]) < n
    &&& forall|w: int| 0 <= w < n && !#[trigger] elim[w] ==> top[w] == w
    &&& forall|w: int| 0 <= w < n && #[trigger] elim[w] ==> elim[top[w] as int]
}

/// The labels while `u` is being eliminated: as in `labels_ok`, except that
/// the parts joined to `u` so far are labelled `u`.
#[verifier::opaque]
pub open spec fn fold_labels_ok(st: ElimState, n: int, u: usize) -> bool {
    let (top, elim, par, bag) = st;
    &&& top.len() == n
    &&& elim.len() == n
    &&& bag.len() == n
    &&& u < n
    &&& !elim[u as int]
    &&& top[u as int] == u
    &&& forall|w: int| 0 <= w < n ==> (#[trigger] top[w]) < n
    &&& forall|w: int| 0 <= w < n && !#[trigger] elim[w] && w != u ==> top[w] == w
    &&& forall|w: int| 0 <= w < n && #[trigger] elim[w] ==> elim[top[w] as int] || top[w] == u
}

/// Looking at a neighbour keeps the labels, the flags and the bags, only
/// adds to the bag being built, and adds the neighbour when it is not
/// eliminated.
proof fn lemma_neighbor_step(st: ElimState, tmp: Set<usize>, u: usize, v: usize, n: int)
    requires
        fold_labels_ok(st, n, u),
        v < n,
    ensures
        fold_labels_ok(neighbor_step(st, tmp, u, v, true).0, n, u),
        neighbor_step(st, tmp, u, v, true).0.1 == st.1,
        neighbor_step(st, tmp, u, v, true).0.3 == st.3,
        tmp.subset_of(neighbor_step(st, tmp, u, v, true).1),
        !st.1[v as int] && v != u ==> neighbor_step(st, tmp, u, v, true).1.contains(v),
{
    reveal(fold_labels_ok);
    let (top, elim, par, bag) = st;
    if top[u as int] != top[v as int] && elim[v as int] {
        let r = top[v as int];
        assert(elim[r as int]);
        let top2 = relabel(top, top[u as int], r, u);
        assert forall|w: int| 0 <= w < n && !#[trigger] elim[w] && w != u implies top2[w] == w by {
            assert(top[w] == w);
        }
        assert forall|w: int| 0 <= w < n && #[trigger] elim[w] implies elim[top2[w] as int] || top2[w] == u by {
        }
    }
}

/// Looking at the first `j` neighbours of `u`.
proof fn lemma_neighbors_fold(g: Seq<Vec<usize>>, st: ElimState, u: usize, j: int)
    requires
        fold_labels_ok(st, g.len() as int, u),
        0 <= j <= g[u as int]@.len(),
        forall|t: int| 0 <= t < g[u as int]@.len() ==> (#[trigger] g[u as int]@[t]) < g.len(),
    ensures
        fold_labels_ok(neighbors_fold(g, st, u, true, j).0, g.len() as int, u),
        neighbors_fold(g, st, u, true, j).0.1 == st.1,
        neighbors_fold(g, st, u, true, j).0.3 == st.3,
        forall|t: int|
            0 <= t < j && !st.1[g[u as int]@[t] as int] && g[u as int]@[t] != u
                ==> neighbors_fold(g, st, u, true, j).1.contains(#[trigger] g[u as int]@[t]),
    decreases j,
{
    if j > 0 {
        lemma_neighbors_fold(g, st, u, j - 1);
        let prev = neighbors_fold(g, st, u, true, j - 1);
        let st1 = prev.0;
        let tmp = prev.1;
        lemma_neighbor_step(st1, tmp, u, g[u as int]@[j - 1], g.len() as int);
        let next = neighbor_step(st1, tmp, u, g[u as int]@[j - 1], true);
        assert forall|t: int|
            0 <= t < j && !st.1[g[u as int]@[t] as int] && g[u as int]@[t] != u implies next.1.contains(
            #[trigger] g[u as int]@[t],
        ) by {
            if t < j - 1 {
                assert(tmp.contains(g[u as int]@[t]));
            }
        }
    }
}

/// After the first `k` eliminations of an order without repeats, the
/// labels are as `labels_ok` says, exactly the first `k` vertices of the
/// order are eliminated, and the bag of each of them holds its neighbours
/// that were not eliminated before it.
proof fn lemma_elim_run(g: Seq<Vec<usize>>, order: Seq<usize>, k: int)
    requires
        g.len() <= usize::MAX,
        forall|u: int, j: int| 0 <= u < g.len() && 0 <= j < g[u]@.len() ==> (#[trigger] g[u]@[j]) < g.len(),
        forall|i: int| 0 <= i < order.len() ==> (#[trigger] order[i]) < g.len(),
        order.no_duplicates(),
        0 <= k <= order.len(),
    ensures
        labels_ok(elim_run(g, order, true, k), g.len() as int),
        forall|w: int|
            0 <= w < g.len() ==> (#[trigger] elim_run(g, order, true, k).1[w] <==> order.subrange(
                0,
                k,
            ).contains(w as usize)),
        forall|i: int, j: int|
            0 <= i < k && 0 <= j < g[order[i] as int]@.len() && g[order[i] as int]@[j] != order[i]
                && !order.subrange(0, i).contains(g[order[i] as int]@[j])
                ==> #[trigger] elim_run(g, order, true, k).3[order[i] as int].contains(
                #[trigger] g[order[i] as int]@[j],
            ),
    decreases k,
{
    let n = g.len() as int;
    if k == 0 {
        assert(elim_run(g, order, true, 0) == elim_start(g.len()));
        assert forall|w: int| 0 <= w < n implies !(#[trigger] elim_run(g, order, true, 0).1[w]) && !order.subrange(0, 0).contains(w as usize) by {
        }
    } else {
        lemma_elim_run(g, order, k - 1);
        let st = elim_run(g, order, true, k - 1);
        let u = order[k - 1];
        assert(!order.subrange(0, k - 1).contains(u)) by {
            if order.subrange(0, k - 1).contains(u) {
                let i = choose|i: int| 0 <= i < k - 1 && #[trigger] order.subrange(0, k - 1)[i] == u;
                assert(order[i] == order[k - 1]);
            }
        }
        assert(!st.1[u as int]);
        assert(fold_labels_ok(st, n, u)) by {
            reveal(fold_labels_ok);
        }
        let m = g[u as int]@.len() as int;
        lemma_neighbors_fold(g, st, u, m);
        let fold = neighbors_fold(g, st, u, true, m);
        let st1 = fold.0;
        let tmp = fold.1;
        let st2 = elim_run(g, order, true, k);
        assert(st2 == elim_step(g, st, u, true));
        assert(st2.0 == st1.0 && st2.1 == st.1.update(u as int, true) && st2.3 == st.3.update(u as int, tmp));
        assert(labels_ok(st2, n)) by {
            reveal(fold_labels_ok);
            assert forall|w: int| 0 <= w < n && !#[trigger] st2.1[w] implies st2.0[w] == w by {
                assert(w != u);
            }
            assert forall|w: int| 0 <= w < n && #[trigger] st2.1[w] implies st2.1[st2.0[w] as int] by {
                if w != u {
                    assert(st1.1[w]);
                }
            }
        }
        assert(order.subrange(0, k) =~= order.subrange(0, k - 1).push(u));
        assert forall|w: int| 0 <= w < n implies (#[trigger] st2.1[w] <==> order.subrange(0, k).contains(
            w as usize,
        )) by {
            if w == u {
                assert(order.subrange(0, k)[k - 1] == u);
            } else if order.subrange(0, k).contains(w as usize) {
                let i = choose|i: int| 0 <= i < k && #[trigger] order.subrange(0, k)[i] == w as usize;
                assert(order.subrange(0, k)[k - 1] == u);
                assert(w as usize as int == w);
                assert(i != k - 1);
                assert(order.subrange(0, k - 1)[i] == w as usize);
            } else {
                if order.subrange(0, k - 1).contains(w as usize) {
                    let i = choose|i: int| 0 <= i < k - 1 && #[trigger] order.subrange(0, k - 1)[i] == w as usize;
                    assert(order.subrange(0, k)[i] == w as usize);
                }
            }
        }
        assert forall|i: int, j: int|
            0 <= i < k && 0 <= j < g[order[i] as int]@.len() && g[order[i] as int]@[j] != order[i]
                && !order.subrange(0, i).contains(g[order[i] as int]@[j]) implies #[trigger] st2.3[order[i] as int].contains(
            #[trigger] g[order[i] as int]@[j],
        ) by {
            if i == k - 1 {
                let v = g[u as int]@[j];
                assert(!st.1[v as int]);
                assert(tmp.contains(v));
            } else {
                assert(order[i] != u);
                assert(st.3[order[i] as int].contains(g[order[i] as int]@[j]));
            }
        }
    }
}

/// Each edge of the graph lies in a bag: when a vertex `u` is eliminated
/// (along an order without repeats, with bags built), every neighbour of `u`
/// other than itself that is not eliminated before it is in `u`'s bag.
pub proof fn lemma_edges_in_bags(g: Seq<Vec<usize>>, order: Seq<usize>, i: int, j: int)
    requires
        g.len() <= usize::MAX,
        forall|u: int, t: int| 0 <= u < g.len() && 0 <= t < g[u]@.len() ==> (#[trigger] g[u]@[t]) < g.len(),
        forall|t: int| 0 <= t < order.len() ==> (#[trigger] order[t]) < g.len(),
        order.no_duplicates(),
        0 <= i < order.len(),
        0 <= j < g[order[i] as int]@.len(),
        g[order[i] as int]@[j] != order[i],
        !order.subrange(0, i).contains(g[order[i] as int]@[j]),
    ensures
        elim_run(g, order, true, order.len() as int).3[order[i] as int].contains(g[order[i] as int]@[j]),
{
    lemma_elim_run(g, order, order.len() as int);
}

// ---------------------------------------------------------------------------
// A child's bag lies in its parent's
// ---------------------------------------------------------------------------

/// The parents of an elimination state: the label of a part has no parent,
/// and the parent of a vertex is an eliminated vertex whose bag holds the
/// child's bag, but for the parent itself.
pub open spec fn parents_ok(st: ElimState, n: int) -> bool {
    let (top, elim, par, bag) = st;
    &&& par.len() == n
    &&& forall|w: int| 0 <= w < n ==> par[#[trigger] top[w] as int] == NO_PARENT
    &&& forall|w: int|
        0 <= w < n && #[trigger] par[w] != NO_PARENT ==> par[w] < n && elim[par[w] as int] && bag[w].remove(
            par[w],
        ).subset_of(bag[par[w] as int])
}

/// The parents while `u` is being eliminated with the bag `tmp` built so
/// far: as in `parents_ok`, with the children of `u` so far held by `tmp`.
#[verifier::opaque]
pub open spec fn fold_parents_ok(st: ElimState, tmp: Set<usize>, n: int, u: usize) -> bool {
    let (top, elim, par, bag) = st;
    &&& par.len() == n
    &&& forall|w: int| 0 <= w < n ==> par[#[trigger] top[w] as int] == NO_PARENT
    &&& forall|w: int|
        0 <= w < n && #[trigger] par[w] != NO_PARENT && par[w] != u ==> par[w] < n && elim[par[w] as int]
            && bag[w].remove(par[w]).subset_of(bag[par[w] as int])
    &&& forall|w: int| 0 <= w < n && #[trigger] par[w] == u ==> bag[w].remove(u).subset_of(tmp)
}

proof fn lemma_neighbor_step_parents(st: ElimState, tmp: Set<usize>, u: usize, v: usize, n: int)
    requires
        fold_labels_ok(st, n, u),
        fold_parents_ok(st, tmp, n, u),
        v < n,
    ensures
        fold_parents_ok(neighbor_step(st, tmp, u, v, true).0, neighbor_step(st, tmp, u, v, true).1, n, u),
{
    reveal(fold_labels_ok);
    reveal(fold_parents_ok);
    let (top, elim, par, bag) = st;
    let next = neighbor_step(st, tmp, u, v, true);
    if top[u as int] == top[v as int] {
    } else if !elim[v as int] {
        assert forall|w: int| 0 <= w < n && #[trigger] par[w] == u implies bag[w].remove(u).subset_of(next.1) by {
            assert(bag[w].remove(u).subset_of(tmp));
        }
    } else {
        let r = top[v as int];
        assert(elim[r as int]);
        assert(r != u);
        let top2 = relabel(top, top[u as int], r, u);
        let par2 = par.update(r as int, u);
        let tmp2 = tmp.union(bag[r as int].remove(u));
        assert(next.0 == (top2, elim, par2, bag));
        assert(next.1 == tmp2);
        assert forall|w: int| 0 <= w < n implies par2[#[trigger] top2[w] as int] == NO_PARENT by {
            if top[w] == u || top[w] == r {
                assert(top2[w] == u);
                assert(par[top[u as int] as int] == NO_PARENT);
            } else {
                assert(top2[w] == top[w]);
                assert(par[top[w] as int] == NO_PARENT);
            }
        }
        assert forall|w: int| 0 <= w < n && #[trigger] par2[w] == u implies bag[w].remove(u).subset_of(tmp2) by {
            if w != r {
                assert(par[w] == u);
                assert(bag[w].remove(u).subset_of(tmp));
            }
        }
        assert forall|w: int|
            0 <= w < n && #[trigger] par2[w] != NO_PARENT && par2[w] != u implies par2[w] < n && elim[par2[w] as int]
                && bag[w].remove(par2[w]).subset_of(bag[par2[w] as int]) by {
            assert(w != r);
            assert(par2[w] == par[w]);
        }
    }
}

proof fn lemma_neighbors_fold_parents(g: Seq<Vec<usize>>, st: ElimState, u: usize, j: int)
    requires
        fold_labels_ok(st, g.len() as int, u),
        fold_parents_ok(st, Set::empty(), g.len() as int, u),
        0 <= j <= g[u as int]@.len(),
        forall|t: int| 0 <= t < g[u as int]@.len() ==> (#[trigger] g[u as int]@[t]) < g.len(),
    ensures
        fold_parents_ok(
            neighbors_fold(g, st, u, true, j).0,
            neighbors_fold(g, st, u, true, j).1,
            g.len() as int,
            u,
        ),
    decreases j,
{
    if j > 0 {
        lemma_neighbors_fold_parents(g, st, u, j - 1);
        lemma_neighbors_fold(g, st, u, j - 1);
        let prev = neighbors_fold(g, st, u, true, j - 1);
        lemma_neighbor_step_parents(prev.0, prev.1, u, g[u as int]@[j - 1], g.len() as int);
    }
}

/// After the first `k` eliminations of an order without repeats, the
/// parents are as `parents_ok` says.
proof fn lemma_elim_run_parents(g: Seq<Vec<usize>>, order: Seq<usize>, k: int)
    requires
        g.len() <= usize::MAX,
        forall|u: int, j: int| 0 <= u < g.len() && 0 <= j < g[u]@.len() ==> (#[trigger] g[u]@[j]) < g.len(),
        forall|i: int| 0 <= i < order.len() ==> (#[trigger] order[i]) < g.len(),
        order.no_duplicates(),
        0 <= k <= order.len(),
    ensures
        parents_ok(elim_run(g, order, true, k), g.len() as int),
    decreases k,
{
    let n = g.len() as int;
    if k == 0 {
        assert(elim_run(g, order, true, 0) == elim_start(g.len()));
    } else {
        lemma_elim_run_parents(g, order, k - 1);
        lemma_elim_run(g, order, k - 1);
        let st = elim_run(g, order, true, k - 1);
        let u = order[k - 1];
        assert(!order.subrange(0, k - 1).contains(u)) by {
            if order.subrange(0, k - 1).contains(u) {
                let i = choose|i: int| 0 <= i < k - 1 && #[trigger] order.subrange(0, k - 1)[i] == u;
                assert(order[i] == order[k - 1]);
            }
        }
        assert(!st.1[u as int]);
        assert(fold_labels_ok(st, n, u)) by {
            reveal(fold_labels_ok);
        }
        assert(fold_parents_ok(st, Set::empty(), n, u)) by {
            reveal(fold_parents_ok);
            assert forall|w: int| 0 <= w < n && #[trigger] st.2[w] == u implies st.3[w].remove(u).subset_of(
                Set::<usize>::empty(),
            ) by {
                assert(st.2[w] != NO_PARENT);
            }
        }
        let m = g[u as int]@.len() as int;
        lemma_neighbors_fold(g, st, u, m);
        lemma_neighbors_fold_parents(g, st, u, m);
        let fold = neighbors_fold(g, st, u, true, m);
        let st1 = fold.0;
        let tmp = fold.1;
        let st2 = elim_run(g, order, true, k);
        assert(st2 == elim_step(g, st, u, true));
        assert(st2.0 == st1.0 && st2.1 == st.1.update(u as int, true) && st2.2 == st1.2 && st2.3
            == st.3.update(u as int, tmp));
        reveal(fold_labels_ok);
        reveal(fold_parents_ok);
        assert(st1.2[u as int] == NO_PARENT) by {
            assert(st1.0[u as int] == u);
        }
        assert forall|w: int|
            0 <= w < n && #[trigger] st2.2[w] != NO_PARENT implies st2.2[w] < n && st2.1[st2.2[w] as int]
                && st2.3[w].remove(st2.2[w]).subset_of(st2.3[st2.2[w] as int]) by {
            assert(w != u);
            if st1.2[w] == u {
                assert(st.3[w].remove(u).subset_of(tmp));
            } else {
                assert(st1.2[w] != u);
            }
        }
    }
}

/// A child's bag lies in its parent's, but for the parent itself: for every
/// vertex `w` with a parent `p` (along an order without repeats, with bags
/// built), `p` is a vertex and the bag of `w` without `p` is part of the
/// bag of `p`.
pub proof fn lemma_child_bag_in_parent(g: Seq<Vec<usize>>, order: Seq<usize>, w: int)
    requires
        g.len() <= usize::MAX,
        forall|u: int, t: int| 0 <= u < g.len() && 0 <= t < g[u]@.len() ==> (#[trigger] g[u]@[t]) < g.len(),
        forall|t: int| 0 <= t < order.len() ==> (#[trigger] order[t]) < g.len(),
        order.no_duplicates(),
        0 <= w < g.len(),
        elim_run(g, order, true, order.len() as int).2[w] != NO_PARENT,
    ensures
        ({
            let st = elim_run(g, order, true, order.len() as int);
            &&& st.2[w] < g.len()
            &&& st.3[w].remove(st.2[w]).subset_of(st.3[st.2[w] as int])
        }),
{
    lemma_elim_run_parents(g, order, order.len() as int);
}

} // verus!
