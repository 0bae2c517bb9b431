use vstd::prelude::*;
use std::cmp::Ordering;
use crate::geom::{all_in_range, fits, in_box, in_range, Point, P};
use crate::polygon::contains_s_spec;
use crate::problem::Input;
use crate::score::{edge_len2, iabs, stretch_within};
use crate::segment::{imax, imin, lemma_range_diffs4};
use crate::tree_decomposition::{all_digits, digits_value, is_digit, lemma_digits_push};

verus! {

/// How an edge of a pose looks against its problem.
#[derive(Clone, Copy, Debug, PartialEq, Eq)]
pub enum EdgeKind {
    /// In the hole and within the allowed stretch.
    Fit,
    /// In the hole, too short.
    Short,
    /// In the hole, too long.
    Long,
    /// Not in the hole.
    Out,
}

/// The kind of a squared length `d2` against the original `base` under the
/// tolerance `epsilon` (in millionths).
pub open spec fn stretch_kind(d2: int, base: int, epsilon: int) -> EdgeKind {
    if iabs(d2 - base) * 1000000 - epsilon * base <= 0 {
        EdgeKind::Fit
    } else if d2 < base {
        EdgeKind::Short
    } else {
        EdgeKind::Long
    }
}

/// The kind of the edge `e` when the figure's vertices are at `vs`.
pub open spec fn edge_kind(prob: Input, vs: Seq<Point>, e: (usize, usize)) -> EdgeKind {
    if contains_s_spec(prob.hole@, vs[e.0 as int], vs[e.1 as int]) {
        stretch_kind(edge_len2(vs, e), edge_len2(prob.figure.vertices@, e), prob.epsilon as int)
    } else {
        EdgeKind::Out
    }
}

/// The first `k` edges of the figure whose kind is `kind`, in order.
pub open spec fn edges_of_kind(prob: Input, vs: Seq<Point>, kind: EdgeKind, k: int) -> Seq<
    (usize, usize),
>
    decreases k,
{
    if k <= 0 {
        Seq::empty()
    } else {
        let e = prob.figure.edges@[k - 1];
        let rest = edges_of_kind(prob, vs, kind, k - 1);
        if edge_kind(prob, vs, e) == kind {
            rest.push(e)
        } else {
            rest
        }
    }
}

/// Every edge falls in exactly one of the four kinds: the four lists
/// together are as long as the edges they sort.
pub proof fn lemma_kinds_partition(prob: Input, vs: Seq<Point>, k: int)
    requires
        0 <= k,
    ensures
        edges_of_kind(prob, vs, EdgeKind::Fit, k).len() + edges_of_kind(prob, vs, EdgeKind::Short, k).len()
            + edges_of_kind(prob, vs, EdgeKind::Long, k).len() + edges_of_kind(
            prob,
            vs,
            EdgeKind::Out,
            k,
        ).len() == k,
    decreases k,
{
    if k > 0 {
        lemma_kinds_partition(prob, vs, k - 1);
    }
}

/// The edges can be classified without failing: points in range, edges
/// naming existing vertices, and the stretch test fitting in `i64`.
pub open spec fn classifiable(prob: Input, vs: Seq<Point>) -> bool {
    &&& all_in_range(prob.hole@)
    &&& all_in_range(prob.figure.vertices@)
    &&& all_in_range(vs)
    &&& vs.len() == prob.figure.vertices@.len()
    &&& forall|i: int|
        0 <= i < prob.figure.edges@.len() ==> (#[trigger] prob.figure.edges@[i]).0 < vs.len()
            && prob.figure.edges@[i].1 < vs.len()
    &&& forall|i: int|
        0 <= i < prob.figure.edges@.len() ==> {
            let e = #[trigger] prob.figure.edges@[i];
            let base = edge_len2(prob.figure.vertices@, e);
            &&& fits(prob.epsilon * base)
            &&& fits(iabs(edge_len2(vs, e) - base) * 1000000 - prob.epsilon * base)
        }
}

fn stretch_class(d2: i64, base: i64, epsilon: i64) -> (k: EdgeKind)
    requires
        0 <= d2 <= 2199023255552,
        0 <= base <= 2199023255552,
        fits(epsilon * base),
        fits(iabs(d2 - base) * 1000000 - epsilon * base),
    ensures
        k == (if iabs(d2 - base) * 1000000 - epsilon * base <= 0 {
            EdgeKind::Fit
        } else if d2 < base {
            EdgeKind::Short
        } else {
            EdgeKind::Long
        }),
{
    match stretch_within(d2, base, epsilon) {
        Ordering::Equal => EdgeKind::Fit,
        Ordering::Less => EdgeKind::Short,
        Ordering::Greater => EdgeKind::Long,
    }
}

/// Sorts the figure's edges by how they look when its vertices are at
/// `vertices`: (within stretch, too short, too long, out of the hole), each
/// list in the order of the figure's edges.
pub fn classify_edges(prob: &Input, vertices: &Vec<Point>) -> (r: (
    Vec<(usize, usize)>,
    Vec<(usize, usize)>,
    Vec<(usize, usize)>,
    Vec<(usize, usize)>,
))
    requires
        classifiable(*prob, vertices@),
    ensures
        r.0@ == edges_of_kind(*prob, vertices@, EdgeKind::Fit, prob.figure.edges@.len() as int),
        r.1@ == edges_of_kind(*prob, vertices@, EdgeKind::Short, prob.figure.edges@.len() as int),
        r.2@ == edges_of_kind(*prob, vertices@, EdgeKind::Long, prob.figure.edges@.len() as int),
        r.3@ == edges_of_kind(*prob, vertices@, EdgeKind::Out, prob.figure.edges@.len() as int),
{
    let mut edges_ok: Vec<(usize, usize)> = Vec::new();
    let mut edges_short: Vec<(usize, usize)> = Vec::new();
    let mut edges_long: Vec<(usize, usize)> = Vec::new();
    let mut edges_out: Vec<(usize, usize)> = Vec::new();
    let ghost vs = vertices@;
    let m = prob.figure.edges.len();
    for i in 0..m
        invariant
            m == prob.figure.edges@.len(),
            vs == vertices@,
            classifiable(*prob, vs),
            edges_ok@ == edges_of_kind(*prob, vs, EdgeKind::Fit, i as int),
            edges_short@ == edges_of_kind(*prob, vs, EdgeKind::Short, i as int),
            edges_long@ == edges_of_kind(*prob, vs, EdgeKind::Long, i as int),
            edges_out@ == edges_of_kind(*prob, vs, EdgeKind::Out, i as int),
    {
        let (a, b) = prob.figure.edges[i];
        let ghost e = prob.figure.edges@[i as int];
        assert(in_range(vs[a as int]) && in_range(vs[b as int]));
        assert(in_range(prob.figure.vertices@[a as int]) && in_range(
            prob.figure.vertices@[b as int],
        ));
        let kind = if P::contains_s(&prob.hole, (vertices[a], vertices[b])) {
            proof {
                lemma_range_diffs4(vs[a as int], vs[b as int], vs[a as int], vs[b as int]);
                lemma_range_diffs4(
                    prob.figure.vertices@[a as int],
                    prob.figure.vertices@[b as int],
                    prob.figure.vertices@[a as int],
                    prob.figure.vertices@[b as int],
                );
            }
            let d2 = (vertices[a] - vertices[b]).abs2();
            let base = (prob.figure.vertices[a] - prob.figure.vertices[b]).abs2();
            stretch_class(d2, base, prob.epsilon)
        } else {
            EdgeKind::Out
        };
        assert(kind == edge_kind(*prob, vs, e));
        match kind {
            EdgeKind::Fit => edges_ok.push((a, b)),
            EdgeKind::Short => edges_short.push((a, b)),
            EdgeKind::Long => edges_long.push((a, b)),
            EdgeKind::Out => edges_out.push((a, b)),
        }
    }
    (edges_ok, edges_short, edges_long, edges_out)
}

/// Smallest x coordinate of the first `k` points (the first point's when `k` is 0).
pub open spec fn min_x(ps: Seq<Point>, k: int) -> int
    decreases k,
{
    if k <= 1 {
        ps[0].0 as int
    } else {
        imin(min_x(ps, k - 1), ps[k - 1].0 as int)
    }
}

pub open spec fn max_x(ps: Seq<Point>, k: int) -> int
    decreases k,
{
    if k <= 1 {
        ps[0].0 as int
    } else {
        imax(max_x(ps, k - 1), ps[k - 1].0 as int)
    }
}

pub open spec fn min_y(ps: Seq<Point>, k: int) -> int
    decreases k,
{
    if k <= 1 {
        ps[0].1 as int
    } else {
        imin(min_y(ps, k - 1), ps[k - 1].1 as int)
    }
}

pub open spec fn max_y(ps: Seq<Point>, k: int) -> int
    decreases k,
{
    if k <= 1 {
        ps[0].1 as int
    } else {
        imax(max_y(ps, k - 1), ps[k - 1].1 as int)
    }
}

/// The extremes of the first `n` points bound each of their coordinates, and
/// each extreme is the coordinate of one of them.
pub proof fn lemma_extremes(ps: Seq<Point>, n: int)
    requires
        1 <= n <= ps.len(),
    ensures
        forall|i: int|
            #![trigger ps[i]]
            0 <= i < n ==> min_x(ps, n) <= ps[i].0 <= max_x(ps, n) && min_y(ps, n) <= ps[i].1
                <= max_y(ps, n),
        exists|i: int| #![trigger ps[i]] 0 <= i < n && ps[i].0 == min_x(ps, n),
        exists|i: int| #![trigger ps[i]] 0 <= i < n && ps[i].0 == max_x(ps, n),
        exists|i: int| #![trigger ps[i]] 0 <= i < n && ps[i].1 == min_y(ps, n),
        exists|i: int| #![trigger ps[i]] 0 <= i < n && ps[i].1 == max_y(ps, n),
    decreases n,
{
    if n == 1 {
        assert(ps[0].0 == min_x(ps, n));
        assert(ps[0].0 == max_x(ps, n));
        assert(ps[0].1 == min_y(ps, n));
        assert(ps[0].1 == max_y(ps, n));
    } else {
        lemma_extremes(ps, n - 1);
        let j = n - 1;
        if min_x(ps, n) == ps[j].0 {
        } else {
            let i = choose|i: int| #![trigger ps[i]] 0 <= i < n - 1 && ps[i].0 == min_x(ps, n - 1);
            assert(ps[i].0 == min_x(ps, n));
        }
        if max_x(ps, n) == ps[j].0 {
        } else {
            let i = choose|i: int| #![trigger ps[i]] 0 <= i < n - 1 && ps[i].0 == max_x(ps, n - 1);
            assert(ps[i].0 == max_x(ps, n));
        }
        if min_y(ps, n) == ps[j].1 {
        } else {
            let i = choose|i: int| #![trigger ps[i]] 0 <= i < n - 1 && ps[i].1 == min_y(ps, n - 1);
            assert(ps[i].1 == min_y(ps, n));
        }
        if max_y(ps, n) == ps[j].1 {
        } else {
            let i = choose|i: int| #![trigger ps[i]] 0 <= i < n - 1 && ps[i].1 == max_y(ps, n - 1);
            assert(ps[i].1 == max_y(ps, n));
        }
    }
}

/// Margin around the drawing.
pub const PADDING: i64 = 2;

/// The largest coordinate whose drawing area, widened by `PADDING`, fits in
/// `i64`.
pub const VIEW_LIMIT: i64 = 9223372036854775805;

/// The drawing area `(left, right, top, bottom)`: the bounding box of the
/// hole and the vertices, widened by `PADDING` on each side.
pub fn view_box(hole: &Vec<Point>, vertices: &Vec<Point>) -> (r: (i64, i64, i64, i64))
    requires
        hole@.len() + vertices@.len() > 0,
        hole@.len() + vertices@.len() <= usize::MAX,
        forall|k: int| 0 <= k < hole@.len() ==> #[trigger] in_box(hole@[k], VIEW_LIMIT as int),
        forall|k: int| 0 <= k < vertices@.len() ==> #[trigger] in_box(vertices@[k], VIEW_LIMIT as int),
    ensures
        ({
            let ps = hole@ + vertices@;
            let n = ps.len() as int;
            &&& r.0 == min_x(ps, n) - PADDING
            &&& r.1 == max_x(ps, n) + PADDING
            &&& r.2 == min_y(ps, n) - PADDING
            &&& r.3 == max_y(ps, n) + PADDING
        }),
        forall|k: int|
            #![trigger hole@[k]]
            0 <= k < hole@.len() ==> r.0 + PADDING <= hole@[k].0 <= r.1 - PADDING && r.2 + PADDING
                <= hole@[k].1 <= r.3 - PADDING,
        forall|k: int|
            #![trigger vertices@[k]]
            0 <= k < vertices@.len() ==> r.0 + PADDING <= vertices@[k].0 <= r.1 - PADDING && r.2
                + PADDING <= vertices@[k].1 <= r.3 - PADDING,
{
    let ghost ps = hole@ + vertices@;
    let nh = hole.len();
    let n = nh + vertices.len();
    let first = if nh > 0 {
        hole[0]
    } else {
        vertices[0]
    };
    let mut left = first.0;
    let mut right = first.0;
    let mut top = first.1;
    let mut bottom = first.1;
    assert(ps[0] == first);
    assert(in_box(first, VIEW_LIMIT as int)) by {
        if nh > 0 {
            assert(in_box(hole@[0], VIEW_LIMIT as int));
        } else {
            assert(in_box(vertices@[0], VIEW_LIMIT as int));
        }
    }
    let mut i: usize = 1;
    while i < n
        invariant
            1 <= i <= n,
            n == ps.len(),
            nh == hole@.len(),
            ps == hole@ + vertices@,
            forall|k: int| 0 <= k < hole@.len() ==> #[trigger] in_box(hole@[k], VIEW_LIMIT as int),
            forall|k: int| 0 <= k < vertices@.len() ==> #[trigger] in_box(vertices@[k], VIEW_LIMIT as int),
            left == min_x(ps, i as int),
            right == max_x(ps, i as int),
            top == min_y(ps, i as int),
            bottom == max_y(ps, i as int),
            -VIEW_LIMIT <= left <= VIEW_LIMIT,
            -VIEW_LIMIT <= right <= VIEW_LIMIT,
            -VIEW_LIMIT <= top <= VIEW_LIMIT,
            -VIEW_LIMIT <= bottom <= VIEW_LIMIT,
        decreases n - i,
    {
        let p = if i < nh {
            hole[i]
        } else {
            vertices[i - nh]
        };
        assert(p == ps[i as int]);
        assert(in_box(p, VIEW_LIMIT as int)) by {
            if i < nh {
                assert(in_box(hole@[i as int], VIEW_LIMIT as int));
            } else {
                assert(in_box(vertices@[i - nh], VIEW_LIMIT as int));
            }
        }
        if p.0 < left {
            left = p.0;
        }
        if p.0 > right {
            right = p.0;
        }
        if p.1 < top {
            top = p.1;
        }
        if p.1 > bottom {
            bottom = p.1;
        }
        i = i + 1;
    }
    proof {
        lemma_extremes(ps, n as int);
        assert forall|k: int| 0 <= k < hole@.len() implies #[trigger] hole@[k] == ps[k] by {}
        assert forall|k: int| 0 <= k < vertices@.len() implies #[trigger] vertices@[k] == ps[nh
            + k] by {}
    }
    (left - PADDING, right + PADDING, top - PADDING, bottom + PADDING)
}

// ---------------------------------------------------------------------------
// Path text
// ---------------------------------------------------------------------------

/// The decimal digits of a natural number.
pub open spec fn digits_text(n: nat) -> Seq<u8>
    decreases n,
{
    if n < 10 {
        seq![(48 + n) as u8]
    } else {
        digits_text(n / 10).push((48 + n % 10) as u8)
    }
}

/// The decimal digits of a number read back as that number: they are all
/// digits, there is at least one, and the first is `0` only for 0 itself.
pub proof fn lemma_digits_text_value(n: nat)
    ensures
        digits_text(n).len() > 0,
        all_digits(digits_text(n)),
        digits_value(digits_text(n)) == n,
        digits_text(n)[0] == 48 ==> n == 0,
    decreases n,
{
    if n < 10 {
        let t = digits_text(n);
        assert(t.drop_last() =~= Seq::<u8>::empty());
        assert(t.last() == 48 + n);
        assert(digits_value(t) == digits_value(t.drop_last()) * 10 + (t.last() - 48));
        assert(is_digit(t[0]));
    } else {
        let q = (n / 10) as nat;
        let c = (48 + n % 10) as u8;
        lemma_digits_text_value(q);
        let t = digits_text(q);
        lemma_digits_push(t, c);
        assert(c == 48 + n % 10);
        assert(n == 10 * q + n % 10);
        assert(digits_text(n) == t.push(c));
        assert(all_digits(t.push(c))) by {
            assert forall|i: int| 0 <= i < t.push(c).len() implies #[trigger] is_digit(
                t.push(c)[i],
            ) by {
                if i < t.len() {
                    assert(is_digit(t[i]));
                }
            }
        }
        assert(t.push(c)[0] == t[0]);
    }
}

/// An integer as Rust prints it: its digits, after a `-` when negative.
pub open spec fn int_text(x: int) -> Seq<u8> {
    if x < 0 {
        seq![45u8] + digits_text((-x) as nat)
    } else {
        digits_text(x as nat)
    }
}

pub open spec fn digits_or_empty(n: nat) -> Seq<u8> {
    if n == 0 {
        Seq::empty()
    } else {
        digits_text(n)
    }
}

/// Appends `x` in decimal.
fn push_int(buf: &mut Vec<u8>, x: i64)
    ensures
        final(buf)@ == old(buf)@ + int_text(x as int),
{
    let ghost before = buf@;
    let m: u64 = if x < 0 {
        buf.push(45);
        ((-(x + 1)) as u64) + 1
    } else {
        x as u64
    };
    let ghost sign = if x < 0 {
        seq![45u8]
    } else {
        Seq::<u8>::empty()
    };
    assert(buf@ =~= before + sign);
    assert(m as int == if x < 0 { -x } else { x as int });
    let mut rev: Vec<u8> = Vec::new();
    if m == 0 {
        rev.push(48);
        assert(rev@.reverse() =~= digits_text(0));
    } else {
        let mut q: u64 = m;
        assert(rev@.reverse() =~= Seq::<u8>::empty());
        while q > 0
            invariant
                m > 0,
                digits_text(m as nat) == digits_or_empty(q as nat) + rev@.reverse(),
            decreases q,
        {
            let ghost old_rev = rev@;
            let d = (48 + q % 10) as u8;
            rev.push(d);
            assert(rev@.reverse() =~= seq![d] + old_rev.reverse());
            assert(digits_text(q as nat) == digits_or_empty((q / 10) as nat).push(d));
            assert(digits_or_empty((q / 10) as nat).push(d) + old_rev.reverse()
                =~= digits_or_empty((q / 10) as nat) + rev@.reverse());
            q = q / 10;
        }
        assert(digits_text(m as nat) =~= rev@.reverse());
    }
    let ghost text = rev@.reverse();
    assert(text == digits_text(m as nat));
    let ghost mid = buf@;
    let mut i = rev.len();
    while i > 0
        invariant
            i <= rev@.len(),
            text == rev@.reverse(),
            buf@ == mid + text.subrange(0, rev@.len() - i),
        decreases i,
    {
        i = i - 1;
        buf.push(rev[i]);
        assert(buf@ =~= mid + text.subrange(0, rev@.len() - i));
    }
    assert(text.subrange(0, rev@.len() as int) =~= text);
    assert(buf@ =~= before + int_text(x as int));
}

/// ASCII text as a `String` of the same characters.
pub open spec fn ascii_chars(b: Seq<u8>) -> Seq<char> {
    Seq::new(b.len(), |i: int| b[i] as char)
}

pub open spec fn is_ascii_text(b: Seq<u8>) -> bool {
    forall|i: int| 0 <= i < b.len() ==> #[trigger] b[i] < 128
}

/// `String::from_utf8`: the bytes are ASCII, hence valid UTF-8, and each
/// byte becomes the character with the same code.
#[verifier::external_body]
fn ascii_string(bytes: Vec<u8>) -> (s: String)
    requires
        is_ascii_text(bytes@),
    ensures
        s@ == ascii_chars(bytes@),
{
    String::from_utf8(bytes).unwrap()
}

proof fn lemma_digits_ascii(n: nat)
    ensures
        is_ascii_text(digits_text(n)),
    decreases n,
{
    if n >= 10 {
        lemma_digits_ascii(n / 10);
    }
}

proof fn lemma_int_ascii(x: int)
    ensures
        is_ascii_text(int_text(x)),
{
    if x < 0 {
        lemma_digits_ascii((-x) as nat);
    } else {
        lemma_digits_ascii(x as nat);
    }
}

/// The points of a polygon for an SVG `points` attribute: `x,y ` each.
pub open spec fn polygon_text(ps: Seq<Point>) -> Seq<u8>
    decreases ps.len(),
{
    if ps.len() == 0 {
        Seq::empty()
    } else {
        polygon_text(ps.drop_last()) + int_text(ps.last().0 as int) + seq![44u8] + int_text(
            ps.last().1 as int,
        ) + seq![32u8]
    }
}

/// A path through the points for an SVG `d` attribute: `M` to the first,
/// then `L` to each next one, `x y` each.
pub open spec fn polygon_path_text(ps: Seq<Point>) -> Seq<u8>
    decreases ps.len(),
{
    if ps.len() == 0 {
        Seq::empty()
    } else {
        polygon_path_text(ps.drop_last()) + seq![if ps.len() == 1 { 77u8 } else { 76u8 }]
            + int_text(ps.last().0 as int) + seq![32u8] + int_text(ps.last().1 as int)
    }
}

/// The first `k` edges as SVG path segments: `Mx1 y1Lx2 y2` each.
pub open spec fn segments_text(edges: Seq<(usize, usize)>, vs: Seq<Point>, k: int) -> Seq<u8>
    decreases k,
{
    if k <= 0 {
        Seq::empty()
    } else {
        let (i, j) = edges[k - 1];
        segments_text(edges, vs, k - 1) + seq![77u8] + int_text(vs[i as int].0 as int) + seq![
            32u8,
        ] + int_text(vs[i as int].1 as int) + seq![76u8] + int_text(vs[j as int].0 as int) + seq![
            32u8,
        ] + int_text(vs[j as int].1 as int)
    }
}

proof fn lemma_concat_ascii(a: Seq<u8>, b: Seq<u8>)
    requires
        is_ascii_text(a),
        is_ascii_text(b),
    ensures
        is_ascii_text(a + b),
{
    assert forall|i: int| 0 <= i < (a + b).len() implies #[trigger] (a + b)[i] < 128 by {
        if i < a.len() {
            assert((a + b)[i] == a[i]);
        } else {
            assert((a + b)[i] == b[i - a.len()]);
        }
    }
}

/// The points of a polygon as the value of an SVG `points` attribute.
pub fn polygon(points: &Vec<Point>) -> (s: String)
    ensures
        s@ == ascii_chars(polygon_text(points@)),
{
    let mut buf: Vec<u8> = Vec::new();
    for k in 0..points.len()
        invariant
            buf@ == polygon_text(points@.subrange(0, k as int)),
            is_ascii_text(buf@),
    {
        let ghost before = buf@;
        let p = points[k];
        push_int(&mut buf, p.0);
        buf.push(44);
        push_int(&mut buf, p.1);
        buf.push(32);
        assert(points@.subrange(0, k + 1).drop_last() =~= points@.subrange(0, k as int));
        assert(buf@ =~= polygon_text(points@.subrange(0, k + 1)));
        proof {
            lemma_int_ascii(p.0 as int);
            lemma_int_ascii(p.1 as int);
            lemma_concat_ascii(before, int_text(p.0 as int));
            lemma_concat_ascii(before + int_text(p.0 as int), seq![44u8]);
            lemma_concat_ascii(before + int_text(p.0 as int) + seq![44u8], int_text(p.1 as int));
            lemma_concat_ascii(
                before + int_text(p.0 as int) + seq![44u8] + int_text(p.1 as int),
                seq![32u8],
            );
        }
    }
    assert(points@.subrange(0, points@.len() as int) =~= points@);
    ascii_string(buf)
}

/// A path through the points, as the value of an SVG `d` attribute.
pub fn polygon_path(points: &Vec<Point>) -> (s: String)
    ensures
        s@ == ascii_chars(polygon_path_text(points@)),
{
    let mut buf: Vec<u8> = Vec::new();
    for k in 0..points.len()
        invariant
            buf@ == polygon_path_text(points@.subrange(0, k as int)),
            is_ascii_text(buf@),
    {
        let ghost before = buf@;
        let p = points[k];
        let c: u8 = if k == 0 {
            77
        } else {
            76
        };
        buf.push(c);
        push_int(&mut buf, p.0);
        buf.push(32);
        push_int(&mut buf, p.1);
        assert(points@.subrange(0, k + 1).drop_last() =~= points@.subrange(0, k as int));
        assert(buf@ =~= polygon_path_text(points@.subrange(0, k + 1)));
        proof {
            lemma_int_ascii(p.0 as int);
            lemma_int_ascii(p.1 as int);
            lemma_concat_ascii(before, seq![c]);
            lemma_concat_ascii(before + seq![c], int_text(p.0 as int));
            lemma_concat_ascii(before + seq![c] + int_text(p.0 as int), seq![32u8]);
            lemma_concat_ascii(
                before + seq![c] + int_text(p.0 as int) + seq![32u8],
                int_text(p.1 as int),
            );
        }
    }
    assert(points@.subrange(0, points@.len() as int) =~= points@);
    ascii_string(buf)
}

/// The edges as path segments between the vertices, as the value of an SVG
/// `d` attribute.
pub fn segments(edges: &Vec<(usize, usize)>, vertices: &Vec<Point>) -> (s: String)
    requires
        forall|k: int|
            0 <= k < edges@.len() ==> (#[trigger] edges@[k]).0 < vertices@.len() && edges@[k].1
                < vertices@.len(),
    ensures
        s@ == ascii_chars(segments_text(edges@, vertices@, edges@.len() as int)),
{
    let mut buf: Vec<u8> = Vec::new();
    for k in 0..edges.len()
        invariant
            forall|k: int|
                0 <= k < edges@.len() ==> (#[trigger] edges@[k]).0 < vertices@.len()
                    && edges@[k].1 < vertices@.len(),
            buf@ == segments_text(edges@, vertices@, k as int),
            is_ascii_text(buf@),
    {
        let ghost before = buf@;
        let (i, j) = edges[k];
        assert((i, j) == edges@[k as int]);
        let a = vertices[i];
        let b = vertices[j];
        buf.push(77);
        push_int(&mut buf, a.0);
        buf.push(32);
        push_int(&mut buf, a.1);
        buf.push(76);
        push_int(&mut buf, b.0);
        buf.push(32);
        push_int(&mut buf, b.1);
        assert(buf@ =~= segments_text(edges@, vertices@, k + 1));
        proof {
            lemma_int_ascii(a.0 as int);
            lemma_int_ascii(a.1 as int);
            lemma_int_ascii(b.0 as int);
            lemma_int_ascii(b.1 as int);
            let s1 = before + seq![77u8];
            lemma_concat_ascii(before, seq![77u8]);
            let s2 = s1 + int_text(a.0 as int);
            lemma_concat_ascii(s1, int_text(a.0 as int));
            let s3 = s2 + seq![32u8];
            lemma_concat_ascii(s2, seq![32u8]);
            let s4 = s3 + int_text(a.1 as int);
            lemma_concat_ascii(s3, int_text(a.1 as int));
            let s5 = s4 + seq![76u8];
            lemma_concat_ascii(s4, seq![76u8]);
            let s6 = s5 + int_text(b.0 as int);
            lemma_concat_ascii(s5, int_text(b.0 as int));
            let s7 = s6 + seq![32u8];
            lemma_concat_ascii(s6, seq![32u8]);
            lemma_concat_ascii(s7, int_text(b.1 as int));
        }
    }
    ascii_string(buf)
}

} // verus!
