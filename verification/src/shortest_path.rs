use vstd::prelude::*;
use crate::geom::{all_in_range, in_range, Point, P};
use crate::polygon::contains_s_spec;

verus! {

/// Marks a pair with no intermediate vertex in a `via` matrix.
pub const NO_VIA: usize = usize::MAX;

/// `m` is the visibility matrix of the hole: `m[u][v]` tells whether the
/// segment between the hole vertices `u` and `v` (`u != v`) stays inside the
/// hole; the diagonal is false.
pub open spec fn is_adjmat(hole: Seq<Point>, m: Seq<Vec<bool>>) -> bool {
    &&& m.len() == hole.len()
    &&& forall|u: int| 0 <= u < hole.len() ==> (#[trigger] m[u])@.len() == hole.len()
    &&& forall|u: int, w: int|
        0 <= u < w < hole.len() ==> #[trigger] m[u]@[w] == contains_s_spec(hole, hole[u], hole[w])
            && m[w]@[u] == m[u]@[w]
    &&& forall|u: int| 0 <= u < hole.len() ==> !(#[trigger] m[u])@[u]
}

/// The visibility matrix of the hole: which pairs of hole vertices can be
/// joined by a segment inside the hole.
pub fn compute_adjmat(hole: &Vec<Point>) -> (m: Vec<Vec<bool>>)
    requires
        all_in_range(hole@),
    ensures
        is_adjmat(hole@, m@),
{
    let n = hole.len();
    // upper[u][w] holds the answer for u < w
    let mut upper: Vec<Vec<bool>> = Vec::new();
    for u in 0..n
        invariant
            n == hole@.len(),
            all_in_range(hole@),
            upper@.len() == u,
            forall|a: int| 0 <= a < u ==> (#[trigger] upper@[a])@.len() == n,
            forall|a: int, b: int|
                0 <= a < u && a < b < n ==> #[trigger] upper@[a]@[b] == contains_s_spec(
                    hole@,
                    hole@[a],
                    hole@[b],
                ),
    {
        let mut row: Vec<bool> = Vec::new();
        for w in 0..n
            invariant
                n == hole@.len(),
                all_in_range(hole@),
                u < n,
                row@.len() == w,
                forall|b: int|
                    u < b < w ==> #[trigger] row@[b] == contains_s_spec(
                        hole@,
                        hole@[u as int],
                        hole@[b],
                    ),
        {
            if u < w {
                assert(in_range(hole@[u as int]));
                assert(in_range(hole@[w as int]));
                let b = P::contains_s(hole, (hole[u], hole[w]));
                row.push(b);
            } else {
                row.push(false);
            }
        }
        upper.push(row);
    }
    let mut m: Vec<Vec<bool>> = Vec::new();
    for u in 0..n
        invariant
            n == hole@.len(),
            upper@.len() == n,
            forall|a: int| 0 <= a < n ==> (#[trigger] upper@[a])@.len() == n,
            forall|a: int, b: int|
                0 <= a < n && a < b < n ==> #[trigger] upper@[a]@[b] == contains_s_spec(
                    hole@,
                    hole@[a],
                    hole@[b],
                ),
            m@.len() == u,
            forall|a: int| 0 <= a < u ==> (#[trigger] m@[a])@.len() == n,
            forall|a: int, b: int|
                0 <= a < u && 0 <= b < n ==> #[trigger] m@[a]@[b] == if a < b {
                    contains_s_spec(hole@, hole@[a], hole@[b])
                } else if b < a {
                    contains_s_spec(hole@, hole@[b], hole@[a])
                } else {
                    false
                },
    {
        let mut row: Vec<bool> = Vec::new();
        for w in 0..n
            invariant
                n == hole@.len(),
                u < n,
                upper@.len() == n,
                forall|a: int| 0 <= a < n ==> (#[trigger] upper@[a])@.len() == n,
                forall|a: int, b: int|
                    0 <= a < n && a < b < n ==> #[trigger] upper@[a]@[b] == contains_s_spec(
                        hole@,
                        hole@[a],
                        hole@[b],
                    ),
                row@.len() == w,
                forall|b: int|
                    0 <= b < w ==> #[trigger] row@[b] == if u < b {
                        contains_s_spec(hole@, hole@[u as int], hole@[b])
                    } else if b < u {
                        contains_s_spec(hole@, hole@[b], hole@[u as int])
                    } else {
                        false
                    },
        {
            let x = if u < w {
                upper[u][w]
            } else if w < u {
                upper[w][u]
            } else {
                false
            };
            row.push(x);
        }
        m.push(row);
    }
    m
}

/// The vertices the `via` matrix of a shortest-path computation leads through
/// from `i` toward `j` (`j` excluded), expanding at most `fuel` levels;
/// `None` when that is not enough, or when the expansion reads an entry
/// outside the matrix.
pub open spec fn via_path(via: Seq<Vec<usize>>, i: int, j: int, fuel: nat) -> Option<Seq<usize>>
    decreases fuel,
{
    if fuel == 0 || !(0 <= i < via.len() && 0 <= j < via[i]@.len()) {
        None
    } else if via[i]@[j] == NO_VIA {
        Some(seq![i as usize])
    } else {
        let k = via[i]@[j] as int;
        match (via_path(via, i, k, (fuel - 1) as nat), via_path(via, k, j, (fuel - 1) as nat)) {
            (Some(a), Some(b)) => Some(a + b),
            _ => None,
        }
    }
}

/// The expansion of `i` toward `j` terminates, reading only entries of the
/// matrix.
pub open spec fn via_defined(via: Seq<Vec<usize>>, i: int, j: int) -> bool {
    exists|f: nat| #[trigger] via_path(via, i, j, f) is Some
}

/// The vertices `via` leads through from `i` toward `j` (`j` excluded).
pub open spec fn via_expansion(via: Seq<Vec<usize>>, i: int, j: int) -> Seq<usize> {
    via_path(via, i, j, choose|f: nat| #[trigger] via_path(via, i, j, f) is Some).unwrap()
}

/// More fuel does not change a finished expansion.
pub proof fn lemma_via_path_fuel(via: Seq<Vec<usize>>, i: int, j: int, f: nat, g: nat)
    requires
        via_path(via, i, j, f) is Some,
        f <= g,
    ensures
        via_path(via, i, j, g) == via_path(via, i, j, f),
    decreases f,
{
    if via[i]@[j] != NO_VIA {
        let k = via[i]@[j] as int;
        lemma_via_path_fuel(via, i, k, (f - 1) as nat, (g - 1) as nat);
        lemma_via_path_fuel(via, k, j, (f - 1) as nat, (g - 1) as nat);
    }
}

/// A finished expansion from `i` toward `j` starts at `i`, and through an
/// intermediate vertex `k` it is the expansion from `i` toward `k` followed by
/// that from `k` toward `j`.
pub proof fn lemma_via_path_shape(via: Seq<Vec<usize>>, i: int, j: int, f: nat)
    requires
        via_path(via, i, j, f) is Some,
        usize::MAX >= via.len(),
    ensures
        via_path(via, i, j, f).unwrap().len() >= 1,
        via_path(via, i, j, f).unwrap()[0] == i,
        ({
            let k = via[i]@[j] as int;
            let g = (f - 1) as nat;
            k != NO_VIA ==> via_path(via, i, j, f).unwrap() == via_path(via, i, k, g).unwrap()
                + via_path(via, k, j, g).unwrap()
        }),
    decreases f,
{
    if via[i]@[j] != NO_VIA {
        let k = via[i]@[j] as int;
        lemma_via_path_shape(via, i, k, (f - 1) as nat);
        let a = via_path(via, i, k, (f - 1) as nat).unwrap();
        let b = via_path(via, k, j, (f - 1) as nat).unwrap();
        assert((a + b)[0] == a[0]);
    }
}

fn expand(i: usize, j: usize, via: &Vec<Vec<usize>>, path: &mut Vec<usize>, Ghost(fuel): Ghost<nat>)
    requires
        via_path(via@, i as int, j as int, fuel) is Some,
    ensures
        final(path)@ == old(path)@ + via_path(via@, i as int, j as int, fuel).unwrap(),
    decreases fuel,
{
    if via[i][j] == NO_VIA {
        path.push(i);
    } else {
        let k = via[i][j];
        let ghost before = path@;
        expand(i, k, via, path, Ghost((fuel - 1) as nat));
        expand(k, j, via, path, Ghost((fuel - 1) as nat));
        assert(path@ =~= before + via_path(via@, i as int, j as int, fuel).unwrap());
    }
}

/// Appends to `path` the vertices that the `via` matrix of a shortest-path
/// computation leads through from `i` toward `j` (`j` excluded).
pub fn shortest_path_rec(i: usize, j: usize, via: &Vec<Vec<usize>>, path: &mut Vec<usize>)
    requires
        via_defined(via@, i as int, j as int),
    ensures
        final(path)@ == old(path)@ + via_expansion(via@, i as int, j as int),
{
    let ghost f = choose|f: nat| #[trigger] via_path(via@, i as int, j as int, f) is Some;
    expand(i, j, via, path, Ghost(f));
}

/// Whether the expansion of `i` toward `j` finishes within `fuel` levels.
pub fn via_expands(i: usize, j: usize, via: &Vec<Vec<usize>>, fuel: usize) -> (b: bool)
    ensures
        b == via_path(via@, i as int, j as int, fuel as nat) is Some,
        b ==> via_defined(via@, i as int, j as int),
    decreases fuel,
{
    if fuel == 0 || i >= via.len() || j >= via[i].len() {
        return false;
    }
    if via[i][j] == NO_VIA {
        return true;
    }
    let k = via[i][j];
    via_expands(i, k, via, fuel - 1) && via_expands(k, j, via, fuel - 1)
}

} // verus!
