use vstd::prelude::*;
use crate::geom::{all_in_range, dist2, in_range, Point};
use crate::polygon::{contains_p_spec, contains_s_spec};
use crate::problem::{Input, Output};
use crate::segment::lemma_range_diffs4;

verus! {

/// The pose's vertices and edges can be checked against the hole.
pub open spec fn pose_checkable(input: Input, out: Output) -> bool {
    &&& all_in_range(input.hole@)
    &&& all_in_range(out.vertices@)
    &&& forall|i: int|
        0 <= i < input.figure.edges@.len() ==> (#[trigger] input.figure.edges@[i]).0
            < out.vertices@.len() && input.figure.edges@[i].1 < out.vertices@.len()
}

/// Which vertices of the pose lie in the hole (inside or on its boundary),
/// and which edges of the figure lie in it, in the order of the pose's
/// vertices and of the figure's edges.
pub fn check_solution1(input: &Input, out: &Output) -> (r: (Vec<bool>, Vec<bool>))
    requires
        pose_checkable(*input, *out),
    ensures
        r.0@.len() == out.vertices@.len(),
        forall|k: int|
            0 <= k < out.vertices@.len() ==> #[trigger] r.0@[k] == (contains_p_spec(
                input.hole@,
                out.vertices@[k],
            ) >= 0),
        r.1@.len() == input.figure.edges@.len(),
        forall|i: int|
            0 <= i < input.figure.edges@.len() ==> #[trigger] r.1@[i] == contains_s_spec(
                input.hole@,
                out.vertices@[input.figure.edges@[i].0 as int],
                out.vertices@[input.figure.edges@[i].1 as int],
            ),
{
    let mut ok_v: Vec<bool> = Vec::new();
    for k in 0..out.vertices.len()
        invariant
            pose_checkable(*input, *out),
            ok_v@.len() == k,
            forall|j: int|
                0 <= j < k ==> #[trigger] ok_v@[j] == (contains_p_spec(
                    input.hole@,
                    out.vertices@[j],
                ) >= 0),
    {
        assert(in_range(out.vertices@[k as int]));
        proof {
            crate::segment::lemma_seg_range(input.hole@);
        }
        ok_v.push(crate::geom::P::contains_p(&input.hole, out.vertices[k]) >= 0);
    }
    let mut ok_e: Vec<bool> = Vec::new();
    for i in 0..input.figure.edges.len()
        invariant
            pose_checkable(*input, *out),
            ok_e@.len() == i,
            forall|j: int|
                0 <= j < i ==> #[trigger] ok_e@[j] == contains_s_spec(
                    input.hole@,
                    out.vertices@[input.figure.edges@[j].0 as int],
                    out.vertices@[input.figure.edges@[j].1 as int],
                ),
    {
        let (a, b) = input.figure.edges[i];
        assert(in_range(out.vertices@[a as int]) && in_range(out.vertices@[b as int]));
        ok_e.push(crate::geom::P::contains_s(&input.hole, (out.vertices[a], out.vertices[b])));
    }
    (ok_v, ok_e)
}

proof fn lemma_flat_index(a: int, b: int, i: int, n: int)
    requires
        0 <= a < i,
        0 <= b < n,
    ensures
        0 <= a * n + b < i * n,
        a * n + b < (a + 1) * n,
{
    assert(0 <= a * n + b < i * n) by (nonlinear_arith)
        requires
            0 <= a < i,
            0 <= b < n,
    ;
    assert((a + 1) * n == a * n + n) by (nonlinear_arith);
}

/// The squared distances between all pairs of the pose's vertices, row by
/// row (`r[i * n + j]` for the vertices `i` and `j`), each truncated to
/// 32 bits.
pub fn all_pair_abs2(pose: &Output) -> (r: Vec<u32>)
    requires
        all_in_range(pose.vertices@),
        pose.vertices@.len() * pose.vertices@.len() <= usize::MAX,
    ensures
        r@.len() == pose.vertices@.len() * pose.vertices@.len(),
        forall|i: int, j: int|
            0 <= i < pose.vertices@.len() && 0 <= j < pose.vertices@.len() ==> #[trigger] r@[i
                * pose.vertices@.len() + j] == dist2(pose.vertices@[i], pose.vertices@[j]) as u32,
{
    let vs = &pose.vertices;
    let n = vs.len();
    let mut ret: Vec<u32> = Vec::new();
    assert(0 * n == 0) by (nonlinear_arith);
    for i in 0..n
        invariant
            n == vs@.len(),
            n * n <= usize::MAX,
            all_in_range(vs@),
            ret@.len() == i * n,
            forall|a: int, b: int|
                0 <= a < i && 0 <= b < n ==> #[trigger] ret@[a * n + b] == dist2(vs@[a], vs@[b])
                    as u32,
    {
        proof {
            assert(i * n + n <= n * n) by (nonlinear_arith)
                requires
                    i < n,
            ;
        }
        for j in 0..n
            invariant
                n == vs@.len(),
                n * n <= usize::MAX,
                i < n,
                i * n + n <= n * n,
                all_in_range(vs@),
                ret@.len() == i * n + j,
                forall|a: int, b: int|
                    0 <= a < i && 0 <= b < n ==> #[trigger] ret@[a * n + b] == dist2(
                        vs@[a],
                        vs@[b],
                    ) as u32,
                forall|b: int| 0 <= b < j ==> #[trigger] ret@[i * n + b] == dist2(vs@[i as int], vs@[b]) as u32,
        {
            let ghost before = ret@;
            assert(in_range(vs@[i as int]) && in_range(vs@[j as int]));
            proof {
                lemma_range_diffs4(vs@[i as int], vs@[j as int], vs@[i as int], vs@[j as int]);
            }
            let d = (vs[i] - vs[j]).abs2();
            ret.push(d as u32);
            assert forall|a: int, b: int| 0 <= a < i && 0 <= b < n implies #[trigger] ret@[a * n
                + b] == dist2(vs@[a], vs@[b]) as u32 by {
                lemma_flat_index(a, b, i as int, n as int);
                assert(ret@[a * n + b] == before[a * n + b]);
            }
        }
        assert forall|a: int, b: int| 0 <= a < i + 1 && 0 <= b < n implies #[trigger] ret@[a * n
            + b] == dist2(vs@[a], vs@[b]) as u32 by {
            if a == i {
            }
        }
        assert((i + 1) * n == i * n + n) by (nonlinear_arith);
    }
    ret
}

} // verus!
