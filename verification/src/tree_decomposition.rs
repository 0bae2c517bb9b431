use vstd::prelude::*;

verus! {

/// A tree decomposition: the vertices of each bag, and the edges of the tree
/// between bags (all numbered from 0).
pub struct TreeDecomposition {
    pub bag_vs: Vec<Vec<usize>>,
    pub es: Vec<(usize, usize)>,
}

/// The tokens of a line, split at every space (two spaces in a row give an
/// empty token between them).
pub open spec fn split_spaces(line: Seq<u8>) -> Seq<Seq<u8>>
    decreases line.len(),
{
    if line.len() == 0 {
        seq![Seq::empty()]
    } else {
        let t = split_spaces(line.drop_last());
        if line.last() == 32 {
            t.push(Seq::empty())
        } else {
            t.update(t.len() - 1, t.last().push(line.last()))
        }
    }
}

/// Tokens joined back into a line, with one space between each two.
pub open spec fn joined(ts: Seq<Seq<u8>>) -> Seq<u8>
    decreases ts.len(),
{
    if ts.len() <= 1 {
        if ts.len() == 0 {
            Seq::empty()
        } else {
            ts[0]
        }
    } else {
        joined(ts.drop_last()) + seq![32u8] + ts.last()
    }
}

/// Splitting a line at its spaces gives at least one token, none holding a
/// space, and joining the tokens with single spaces gives the line back.
pub proof fn lemma_split_join(line: Seq<u8>)
    ensures
        split_spaces(line).len() >= 1,
        forall|i: int, j: int|
            0 <= i < split_spaces(line).len() && 0 <= j < split_spaces(line)[i].len()
                ==> #[trigger] split_spaces(line)[i][j] != 32,
        joined(split_spaces(line)) == line,
    decreases line.len(),
{
    if line.len() == 0 {
        assert(joined(split_spaces(line)) =~= line);
    } else {
        let pre = line.drop_last();
        let c = line.last();
        let t = split_spaces(pre);
        lemma_split_join(pre);
        if c == 32 {
            let r = t.push(Seq::empty());
            assert(r.drop_last() =~= t);
            assert(joined(r) =~= line);
            assert forall|i: int, j: int|
                0 <= i < r.len() && 0 <= j < r[i].len() implies #[trigger] r[i][j] != 32 by {
                assert(r[i] == t[i]);
            }
        } else {
            let m = t.len() - 1;
            let r = t.update(m, t.last().push(c));
            assert forall|i: int, j: int|
                0 <= i < r.len() && 0 <= j < r[i].len() implies #[trigger] r[i][j] != 32 by {
                if i < m {
                    assert(r[i] == t[i]);
                } else if j < t[m].len() {
                    assert(r[i][j] == t[m][j]);
                }
            }
            assert(line =~= pre.push(c));
            if t.len() == 1 {
                assert(joined(t) == t[0]);
                assert(joined(r) == r[0]);
                assert(r[0] == t[0].push(c));
                assert(joined(r) =~= line);
            } else {
                assert(r.drop_last() =~= t.drop_last());
                assert(joined(r) =~= line);
            }
        }
    }
}

pub open spec fn is_digit(c: u8) -> bool {
    48 <= c <= 57
}

/// A number without its `+` sign, if it has one.
pub open spec fn unsigned_part(t: Seq<u8>) -> Seq<u8> {
    if t.len() > 0 && t[0] == 43 {
        t.drop_first()
    } else {
        t
    }
}

pub open spec fn all_digits(d: Seq<u8>) -> bool {
    forall|i: int| 0 <= i < d.len() ==> #[trigger] is_digit(d[i])
}

/// A number in decimal: one or more digits, after an optional `+`.
pub open spec fn is_decimal(t: Seq<u8>) -> bool {
    unsigned_part(t).len() > 0 && all_digits(unsigned_part(t))
}

/// The value of a string of digits.
pub open spec fn digits_value(d: Seq<u8>) -> int
    decreases d.len(),
{
    if d.len() == 0 {
        0
    } else {
        digits_value(d.drop_last()) * 10 + (d.last() - 48)
    }
}

/// Appending a digit to a string of digits multiplies its value by ten and
/// adds the digit.
pub proof fn lemma_digits_push(d: Seq<u8>, c: u8)
    ensures
        digits_value(d.push(c)) == 10 * digits_value(d) + (c - 48),
{
    assert(d.push(c).drop_last() =~= d);
}

/// The value of two strings of digits written one after the other: the first
/// counts in units of ten to the length of the second.
pub proof fn lemma_digits_concat(a: Seq<u8>, b: Seq<u8>)
    ensures
        digits_value(a + b) == digits_value(a) * vstd::arithmetic::power::pow(10, b.len())
            + digits_value(b),
    decreases b.len(),
{
    if b.len() == 0 {
        assert(a + b =~= a);
        assert(vstd::arithmetic::power::pow(10, 0) == 1) by {
            reveal_with_fuel(vstd::arithmetic::power::pow, 1);
        }
    } else {
        let b1 = b.drop_last();
        lemma_digits_concat(a, b1);
        assert((a + b).drop_last() =~= a + b1);
        assert((a + b).last() == b.last());
        let p1 = vstd::arithmetic::power::pow(10, b1.len());
        assert(vstd::arithmetic::power::pow(10, b.len()) == 10 * p1) by {
            reveal_with_fuel(vstd::arithmetic::power::pow, 1);
        }
        let va = digits_value(a);
        let vb1 = digits_value(b1);
        assert((va * p1 + vb1) * 10 == va * (10 * p1) + vb1 * 10) by (nonlinear_arith);
    }
}

/// A string of `n` digits has a value from 0 to ten to the `n`, that bound
/// excluded.
pub proof fn lemma_digits_bound(d: Seq<u8>)
    requires
        all_digits(d),
    ensures
        0 <= digits_value(d) < vstd::arithmetic::power::pow(10, d.len()),
    decreases d.len(),
{
    if d.len() == 0 {
        assert(vstd::arithmetic::power::pow(10, 0) == 1) by {
            reveal_with_fuel(vstd::arithmetic::power::pow, 1);
        }
    } else {
        let d1 = d.drop_last();
        assert(all_digits(d1)) by {
            assert forall|i: int| 0 <= i < d1.len() implies #[trigger] is_digit(d1[i]) by {
                assert(is_digit(d[i]));
            }
        }
        assert(is_digit(d[d.len() - 1]));
        lemma_digits_bound(d1);
        let p1 = vstd::arithmetic::power::pow(10, d1.len());
        assert(vstd::arithmetic::power::pow(10, d.len()) == 10 * p1) by {
            reveal_with_fuel(vstd::arithmetic::power::pow, 1);
        }
        let v1 = digits_value(d1);
        let c = d.last() - 48;
        assert(0 <= v1 * 10 + c < 10 * p1) by (nonlinear_arith)
            requires
                0 <= v1 < p1,
                0 <= c <= 9,
        ;
    }
}

/// The value of a number in decimal.
pub open spec fn decimal_value(t: Seq<u8>) -> int {
    digits_value(unsigned_part(t))
}

/// A decimal number that fits in `usize` and is at least 1 (an index
/// numbered from 1).
pub open spec fn is_index1(t: Seq<u8>) -> bool {
    is_decimal(t) && 1 <= decimal_value(t) <= usize::MAX
}

/// The state after reading some lines: the bags' vertices and the tree's edges.
pub open spec fn td_view(td: TreeDecomposition) -> (Seq<Seq<usize>>, Seq<(usize, usize)>) {
    (Seq::new(td.bag_vs@.len(), |i: int| td.bag_vs@[i]@), td.es@)
}

/// `bags` resized to `n` bags, the new ones empty.
pub open spec fn resized(bags: Seq<Seq<usize>>, n: int) -> Seq<Seq<usize>> {
    Seq::new(n as nat, |i: int| if i < bags.len() { bags[i] } else { Seq::empty() })
}

/// The tokens `ts[k..]`, each numbered from 1, as indices from 0.
pub open spec fn indices0(ts: Seq<Seq<u8>>, k: int) -> Seq<usize> {
    Seq::new((ts.len() - k) as nat, |i: int| (decimal_value(ts[k + i]) - 1) as usize)
}

/// The line can be read when there are `n_bags` bags: a header `s td <bags>
/// ...`, a bag `b <bag> <vertex> ...` naming an existing bag, or an edge
/// `<bag> <bag> ...`, all numbers in decimal and the indices numbered from 1.
pub open spec fn line_ok(n_bags: int, line: Seq<u8>) -> bool {
    let ts = split_spaces(line);
    if ts[0] == seq![115u8] {
        &&& ts.len() >= 3
        &&& ts[1] == seq![116u8, 100u8]
        &&& is_decimal(ts[2])
        &&& decimal_value(ts[2]) <= usize::MAX
    } else if ts[0] == seq![98u8] {
        &&& ts.len() >= 2
        &&& is_index1(ts[1])
        &&& decimal_value(ts[1]) <= n_bags
        &&& forall|k: int| 2 <= k < ts.len() ==> #[trigger] is_index1(ts[k])
    } else {
        &&& ts.len() >= 2
        &&& is_index1(ts[0])
        &&& is_index1(ts[1])
    }
}

/// The state after reading the line in the state `st`.
pub open spec fn line_effect(st: (Seq<Seq<usize>>, Seq<(usize, usize)>), line: Seq<u8>) -> (
    Seq<Seq<usize>>,
    Seq<(usize, usize)>,
) {
    let ts = split_spaces(line);
    if ts[0] == seq![115u8] {
        (resized(st.0, decimal_value(ts[2])), st.1)
    } else if ts[0] == seq![98u8] {
        let b = decimal_value(ts[1]) - 1;
        (st.0.update(b, st.0[b] + indices0(ts, 2)), st.1)
    } else {
        (
            st.0,
            st.1.push(
                ((decimal_value(ts[0]) - 1) as usize, (decimal_value(ts[1]) - 1) as usize),
            ),
        )
    }
}

/// The state after the first `k` lines, from no bags and no edges.
pub open spec fn td_after(lines: Seq<Seq<u8>>, k: int) -> (Seq<Seq<usize>>, Seq<(usize, usize)>)
    decreases k,
{
    if k <= 0 {
        (Seq::empty(), Seq::empty())
    } else {
        line_effect(td_after(lines, k - 1), lines[k - 1])
    }
}

/// Every line can be read in the state the lines before it leave.
pub open spec fn lines_ok(lines: Seq<Seq<u8>>) -> bool {
    forall|k: int| 0 <= k < lines.len() ==> line_ok(td_after(lines, k).0.len() as int, #[trigger] lines[k])
}

/// The tokens of a line split at every space.
fn split_line(line: &Vec<u8>) -> (r: Vec<Vec<u8>>)
    ensures
        Seq::new(r@.len(), |i: int| r@[i]@) == split_spaces(line@),
{
    let mut r: Vec<Vec<u8>> = Vec::new();
    let mut cur: Vec<u8> = Vec::new();
    for i in 0..line.len()
        invariant
            Seq::new(r@.len(), |j: int| r@[j]@).push(cur@) == split_spaces(line@.subrange(0, i as int)),
    {
        let ghost pre = line@.subrange(0, i as int);
        let ghost next = line@.subrange(0, i + 1);
        assert(next.drop_last() =~= pre);
        let c = line[i];
        if c == 32 {
            let ghost old_r = Seq::new(r@.len(), |j: int| r@[j]@);
            let ghost old_cur = cur@;
            r.push(cur);
            cur = Vec::new();
            assert(Seq::new(r@.len(), |j: int| r@[j]@) =~= old_r.push(old_cur));
            assert(Seq::new(r@.len(), |j: int| r@[j]@).push(cur@) =~= split_spaces(next));
        } else {
            let ghost old_cur = cur@;
            cur.push(c);
            assert(Seq::new(r@.len(), |j: int| r@[j]@).push(cur@) =~= split_spaces(pre).update(
                split_spaces(pre).len() - 1,
                old_cur.push(c),
            ));
        }
    }
    assert(line@.subrange(0, line@.len() as int) =~= line@);
    let ghost old_r = Seq::new(r@.len(), |j: int| r@[j]@);
    let ghost old_cur = cur@;
    r.push(cur);
    assert(Seq::new(r@.len(), |j: int| r@[j]@) =~= old_r.push(old_cur));
    r
}

/// Whether the token is exactly the given one or two bytes.
fn token_is(t: &Vec<u8>, a: u8, b: Option<u8>) -> (r: bool)
    ensures
        r == (match b {
            Some(b) => t@ == seq![a, b],
            None => t@ == seq![a],
        }),
{
    match b {
        Some(b) => {
            let r = t.len() == 2 && t[0] == a && t[1] == b;
            if !r && t.len() == 2 {
                assert(t@ != seq![a, b] ==> (t@[0] != a || t@[1] != b)) by {
                    if t@[0] == a && t@[1] == b {
                        assert(t@ =~= seq![a, b]);
                    }
                }
            }
            if r {
                assert(t@ =~= seq![a, b]);
            }
            r
        },
        None => {
            let r = t.len() == 1 && t[0] == a;
            if r {
                assert(t@ =~= seq![a]);
            }
            r
        },
    }
}

proof fn lemma_digits_prefix(d: Seq<u8>, i: int)
    requires
        0 <= i < d.len(),
    ensures
        d.subrange(0, i + 1).drop_last() =~= d.subrange(0, i),
        d.subrange(0, i + 1).last() == d[i],
{
}

/// The value of a decimal number that fits in `usize`.
fn decimal(t: &Vec<u8>) -> (r: usize)
    requires
        is_decimal(t@),
        decimal_value(t@) <= usize::MAX,
    ensures
        r == decimal_value(t@),
{
    let start: usize = if t.len() > 0 && t[0] == 43 {
        1
    } else {
        0
    };
    let ghost d = unsigned_part(t@);
    assert(d =~= t@.subrange(start as int, t@.len() as int));
    assert(d.len() > 0 && all_digits(d));
    assert(digits_value(d) == decimal_value(t@));
    assert(d.subrange(0, d.len() as int) =~= d);
    let mut value: usize = 0;
    let mut i = start;
    proof {
        lemma_digits_monotone(d, 0, d.len() as int);
        assert(d.subrange(0, 0) =~= Seq::<u8>::empty());
    }
    while i < t.len()
        invariant
            start <= i <= t@.len(),
            start <= 1,
            d == t@.subrange(start as int, t@.len() as int),
            forall|k: int| 0 <= k < d.len() ==> #[trigger] is_digit(d[k]),
            digits_value(d) <= usize::MAX,
            value == digits_value(d.subrange(0, i - start)),
        decreases t@.len() - i,
    {
        let c = t[i];
        proof {
            lemma_digits_prefix(d, i - start);
            lemma_digits_monotone(d, i - start + 1, d.len() as int);
            assert(is_digit(d[i - start]));
            assert(d.subrange(0, d.len() as int) =~= d);
            assert(digits_value(d.subrange(0, i - start + 1)) == value * 10 + (c - 48));
        }
        value = value * 10 + (c - 48) as usize;
        i = i + 1;
    }
    assert(d.subrange(0, d.len() as int) =~= d);
    value
}

/// The value of a prefix of digits is at most that of a longer prefix.
proof fn lemma_digits_monotone(d: Seq<u8>, i: int, j: int)
    requires
        0 <= i <= j <= d.len(),
        forall|k: int| 0 <= k < d.len() ==> #[trigger] is_digit(d[k]),
    ensures
        0 <= digits_value(d.subrange(0, i)) <= digits_value(d.subrange(0, j)),
    decreases j - i,
{
    if i < j {
        lemma_digits_monotone(d, i, j - 1);
        assert(d.subrange(0, j).drop_last() =~= d.subrange(0, j - 1));
        assert(is_digit(d[j - 1]));
        lemma_digits_nonneg(d.subrange(0, j - 1));
    } else {
        lemma_digits_nonneg(d.subrange(0, i));
    }
}

proof fn lemma_digits_nonneg(d: Seq<u8>)
    requires
        forall|k: int| 0 <= k < d.len() ==> #[trigger] is_digit(d[k]),
    ensures
        digits_value(d) >= 0,
    decreases d.len(),
{
    if d.len() > 0 {
        assert(is_digit(d[d.len() - 1]));
        lemma_digits_nonneg(d.drop_last());
    }
}

proof fn lemma_split_nonempty(line: Seq<u8>)
    ensures
        split_spaces(line).len() >= 1,
    decreases line.len(),
{
    if line.len() > 0 {
        lemma_split_nonempty(line.drop_last());
    }
}

/// Reads one line into the decomposition.
fn read_line(td: &mut TreeDecomposition, line: &Vec<u8>)
    requires
        line_ok(td_view(*old(td)).0.len() as int, line@),
    ensures
        td_view(*final(td)) == line_effect(td_view(*old(td)), line@),
{
    let ghost st = td_view(*td);
    let ts = split_line(line);
    let ghost tv = Seq::new(ts@.len(), |i: int| ts@[i]@);
    proof {
        lemma_split_nonempty(line@);
        assert(tv == split_spaces(line@));
    }
    if token_is(&ts[0], 115, None) {
        assert(tv[0] == seq![115u8]);
        let n = decimal(&ts[2]);
        if n < td.bag_vs.len() {
            td.bag_vs.truncate(n);
        } else {
            while td.bag_vs.len() < n
                invariant
                    n == decimal_value(tv[2]),
                    st.0.len() <= td.bag_vs@.len() <= n,
                    td.es@ == st.1,
                    forall|i: int|
                        0 <= i < td.bag_vs@.len() ==> #[trigger] td.bag_vs@[i]@ == if i
                            < st.0.len() {
                            st.0[i]
                        } else {
                            Seq::empty()
                        },
                decreases n - td.bag_vs@.len(),
            {
                td.bag_vs.push(Vec::new());
            }
        }
        assert(td_view(*td).0 =~= resized(st.0, n as int));
    } else if token_is(&ts[0], 98, None) {
        assert(tv[0] == seq![98u8]);
        let b = decimal(&ts[1]) - 1;
        let mut bag: Vec<usize> = Vec::new();
        td.bag_vs.set_and_swap(b, &mut bag);
        let ghost before = bag@;
        assert(before == st.0[b as int]);
        let mut k: usize = 2;
        while k < ts.len()
            invariant
                2 <= k <= ts@.len(),
                tv == Seq::new(ts@.len(), |i: int| ts@[i]@),
                forall|j: int| 2 <= j < tv.len() ==> #[trigger] is_index1(tv[j]),
                bag@ == before + Seq::new((k - 2) as nat, |i: int| (decimal_value(tv[2 + i]) - 1) as usize),
            decreases ts@.len() - k,
        {
            assert(is_index1(tv[k as int]));
            let v = decimal(&ts[k]) - 1;
            bag.push(v);
            assert(bag@ =~= before + Seq::new((k - 1) as nat, |i: int| (decimal_value(tv[2 + i]) - 1) as usize));
            k = k + 1;
        }
        assert(bag@ =~= before + indices0(tv, 2));
        td.bag_vs.set_and_swap(b, &mut bag);
        assert(td_view(*td).0 =~= st.0.update(b as int, st.0[b as int] + indices0(tv, 2)));
    } else {
        let a = decimal(&ts[0]) - 1;
        let c = decimal(&ts[1]) - 1;
        td.es.push((a, c));
        assert(td_view(*td).0 =~= st.0);
    }
}

/// A tree decomposition read from the lines of its file: `s td <bags> ...`
/// declares the number of bags, `b <bag> <vertex> ...` lists the vertices of a
/// bag, and any other line `<bag> <bag>` is an edge of the tree; the file
/// numbers bags and vertices from 1, the result from 0.
pub fn parse_tree_decomposition(lines: &Vec<Vec<u8>>) -> (td: TreeDecomposition)
    requires
        lines_ok(Seq::new(lines@.len(), |i: int| lines@[i]@)),
    ensures
        td_view(td) == td_after(
            Seq::new(lines@.len(), |i: int| lines@[i]@),
            lines@.len() as int,
        ),
{
    let ghost ls = Seq::new(lines@.len(), |i: int| lines@[i]@);
    let mut td = TreeDecomposition { bag_vs: Vec::new(), es: Vec::new() };
    assert(td_view(td).0 =~= Seq::empty());
    for k in 0..lines.len()
        invariant
            ls == Seq::new(lines@.len(), |i: int| lines@[i]@),
            lines_ok(ls),
            td_view(td) == td_after(ls, k as int),
    {
        assert(line_ok(td_after(ls, k as int).0.len() as int, ls[k as int]));
        read_line(&mut td, &lines[k]);
    }
    td
}

/// The number of bags after reading the line when there were `n_bags`.
pub open spec fn bags_after(n_bags: int, line: Seq<u8>) -> int {
    let ts = split_spaces(line);
    if ts[0] == seq![115u8] {
        decimal_value(ts[2])
    } else {
        n_bags
    }
}

proof fn lemma_bags_after(st: (Seq<Seq<usize>>, Seq<(usize, usize)>), line: Seq<u8>)
    requires
        line_ok(st.0.len() as int, line),
    ensures
        line_effect(st, line).0.len() == bags_after(st.0.len() as int, line),
{
    let ts = split_spaces(line);
    if ts[0] == seq![115u8] {
        lemma_digits_nonneg(unsigned_part(ts[2]));
    }
}

/// The value of a token if it is a decimal number that fits in `usize`.
fn decimal_checked(t: &Vec<u8>) -> (r: Option<usize>)
    ensures
        r matches Some(v) ==> is_decimal(t@) && v == decimal_value(t@),
        r is None ==> !(is_decimal(t@) && decimal_value(t@) <= usize::MAX),
{
    let start: usize = if t.len() > 0 && t[0] == 43 {
        1
    } else {
        0
    };
    let ghost d = unsigned_part(t@);
    assert(d =~= t@.subrange(start as int, t@.len() as int));
    if start >= t.len() {
        return None;
    }
    let mut value: usize = 0;
    let mut i = start;
    assert(d.subrange(0, 0) =~= Seq::<u8>::empty());
    while i < t.len()
        invariant
            start <= i <= t@.len(),
            start <= 1,
            d == t@.subrange(start as int, t@.len() as int),
            d == unsigned_part(t@),
            d.len() > 0,
            forall|k: int| 0 <= k < i - start ==> #[trigger] is_digit(d[k]),
            value == digits_value(d.subrange(0, i - start)),
        decreases t@.len() - i,
    {
        let c = t[i];
        assert(c == d[i - start]);
        if c < 48 || c > 57 {
            assert(!is_digit(d[i - start]));
            assert(!all_digits(d));
            return None;
        }
        proof {
            lemma_digits_prefix(d, i - start);
        }
        let next = match value.checked_mul(10) {
            Some(x) => x.checked_add((c - 48) as usize),
            None => None,
        };
        match next {
            Some(x) => {
                value = x;
            },
            None => {
                proof {
                    if all_digits(d) {
                        lemma_digits_monotone(d, i - start + 1, d.len() as int);
                        assert(d.subrange(0, d.len() as int) =~= d);
                        lemma_digits_nonneg(d.subrange(0, i - start));
                    }
                }
                return None;
            },
        }
        i = i + 1;
    }
    assert(d.subrange(0, d.len() as int) =~= d);
    Some(value)
}

/// Whether the token is a decimal number from 1 to `usize::MAX`, with its
/// value.
fn index1_checked(t: &Vec<u8>) -> (r: Option<usize>)
    ensures
        r is Some <==> is_index1(t@),
        r matches Some(v) ==> v == decimal_value(t@),
{
    match decimal_checked(t) {
        Some(v) => if v >= 1 {
            Some(v)
        } else {
            None
        },
        None => None,
    }
}

/// Whether the line can be read when there are `n_bags` bags, and if so the
/// number of bags after it.
fn line_valid(n_bags: usize, line: &Vec<u8>) -> (r: Option<usize>)
    ensures
        r is Some <==> line_ok(n_bags as int, line@),
        r matches Some(c) ==> c == bags_after(n_bags as int, line@),
{
    let ts = split_line(line);
    let ghost tv = Seq::new(ts@.len(), |i: int| ts@[i]@);
    proof {
        lemma_split_nonempty(line@);
        assert(tv == split_spaces(line@));
    }
    if token_is(&ts[0], 115, None) {
        if ts.len() < 3 || !token_is(&ts[1], 116, Some(100)) {
            return None;
        }
        match decimal_checked(&ts[2]) {
            Some(v) => Some(v),
            None => None,
        }
    } else if token_is(&ts[0], 98, None) {
        if ts.len() < 2 {
            return None;
        }
        match index1_checked(&ts[1]) {
            Some(b) => {
                if b > n_bags {
                    return None;
                }
            },
            None => {
                return None;
            },
        }
        let mut k: usize = 2;
        while k < ts.len()
            invariant
                2 <= k <= ts@.len(),
                tv == Seq::new(ts@.len(), |i: int| ts@[i]@),
                tv == split_spaces(line@),
                tv[0] == seq![98u8],
                tv[0] != seq![115u8],
                forall|j: int| 2 <= j < k ==> #[trigger] is_index1(tv[j]),
            decreases ts@.len() - k,
        {
            if index1_checked(&ts[k]).is_none() {
                assert(!is_index1(tv[k as int]));
                return None;
            }
            k = k + 1;
        }
        Some(n_bags)
    } else {
        if ts.len() < 2 || index1_checked(&ts[0]).is_none() || index1_checked(&ts[1]).is_none() {
            return None;
        }
        Some(n_bags)
    }
}

/// Whether the lines make a tree decomposition file that
/// `parse_tree_decomposition` can read.
pub fn tree_decomposition_lines_ok(lines: &Vec<Vec<u8>>) -> (b: bool)
    ensures
        b == lines_ok(Seq::new(lines@.len(), |i: int| lines@[i]@)),
{
    let ghost ls = Seq::new(lines@.len(), |i: int| lines@[i]@);
    let mut n_bags: usize = 0;
    let n = lines.len();
    for k in 0..n
        invariant
            n == lines@.len(),
            ls == Seq::new(lines@.len(), |i: int| lines@[i]@),
            n_bags == td_after(ls, k as int).0.len(),
            forall|j: int| 0 <= j < k ==> line_ok(td_after(ls, j).0.len() as int, #[trigger] ls[j]),
    {
        let ghost st = td_after(ls, k as int);
        assert(ls[k as int] == lines@[k as int]@);
        match line_valid(n_bags, &lines[k]) {
            Some(c) => {
                proof {
                    lemma_bags_after(st, ls[k as int]);
                    assert(td_after(ls, k + 1) == line_effect(st, ls[k as int]));
                }
                n_bags = c;
            },
            None => {
                return false;
            },
        }
    }
    true
}

} // verus!
