use vstd::prelude::*;

verus! {

/// A total order on the values of a type, decided by an executable comparison.
pub trait TotalOrder: Sized {
    spec fn le(self, other: Self) -> bool;

    proof fn le_total(a: Self, b: Self)
        ensures
            Self::le(a, b) || Self::le(b, a),
    ;

    proof fn le_trans(a: Self, b: Self, c: Self)
        requires
            Self::le(a, b),
            Self::le(b, c),
        ensures
            Self::le(a, c),
    ;

    proof fn le_antisym(a: Self, b: Self)
        requires
            Self::le(a, b),
            Self::le(b, a),
        ensures
            a == b,
    ;

    fn le_exec(&self, other: &Self) -> (r: bool)
        ensures
            r == self.le(*other),
    ;
}

/// `s` is in non-decreasing order.
pub open spec fn sorted<T: TotalOrder>(s: Seq<T>) -> bool {
    forall|i: int, j: int| 0 <= i < j < s.len() ==> #[trigger] s[i].le(#[trigger] s[j])
}

/// `s` is in increasing order: sorted without repetitions.
pub open spec fn strictly_sorted<T: TotalOrder>(s: Seq<T>) -> bool {
    forall|i: int, j: int| 0 <= i < j < s.len() ==> #[trigger] s[i].le(#[trigger] s[j]) && s[i] != s[j]
}

/// Exchanging two elements keeps the multiset of elements.
pub proof fn lemma_swap_multiset<A>(s: Seq<A>, i: int, j: int)
    requires
        0 <= i < s.len(),
        0 <= j < s.len(),
        i != j,
    ensures
        s.update(i, s[j]).update(j, s[i]).to_multiset() =~= s.to_multiset(),
{
    broadcast use vstd::seq_lib::group_to_multiset_ensures;
    broadcast use vstd::multiset::group_multiset_axioms;

    let s1 = s.update(i, s[j]);
    assert(s1[j] == s[j]);
    assert(s.to_multiset().count(s[i]) > 0) by {
        assert(s.contains(s[i]));
    }
    assert(s1.to_multiset().count(s[j]) > 0) by {
        assert(s1.contains(s1[j]));
    }
}

/// Sorts `v` in place by insertion sort (stable).
pub fn insertion_sort<T: TotalOrder + Copy>(v: &mut Vec<T>)
    ensures
        sorted(final(v)@),
        final(v)@.to_multiset() =~= old(v)@.to_multiset(),
        final(v)@.len() == old(v)@.len(),
{
    broadcast use vstd::seq_lib::group_to_multiset_ensures;

    let n = v.len();
    if n == 0 {
        return;
    }
    let ghost orig = v@;
    let mut i: usize = 1;
    while i < n
        invariant
            1 <= i <= n,
            n == v.len(),
            v@.to_multiset() =~= orig.to_multiset(),
            forall|a: int, b: int| 0 <= a < b < i ==> #[trigger] v@[a].le(#[trigger] v@[b]),
        decreases n - i,
    {
        let mut j: usize = i;
        while j > 0 && !v[j - 1].le_exec(&v[j])
            invariant
                0 <= j <= i < n,
                n == v.len(),
                v@.to_multiset() =~= orig.to_multiset(),
                forall|a: int, b: int| 0 <= a < b < j ==> #[trigger] v@[a].le(#[trigger] v@[b]),
                forall|a: int, b: int| j <= a < b <= i ==> #[trigger] v@[a].le(#[trigger] v@[b]),
                forall|a: int, b: int|
                    0 <= a < j && j < b <= i ==> #[trigger] v@[a].le(#[trigger] v@[b]),
            decreases j,
        {
            let ghost s = v@;
            proof {
                T::le_total(s[j - 1], s[j as int]);
                lemma_swap_multiset(s, j - 1, j as int);
            }
            let x = v[j - 1];
            let y = v[j];
            v.set(j - 1, y);
            v.set(j, x);
            assert(v@ =~= s.update(j - 1, s[j as int]).update(j as int, s[j - 1]));
            assert forall|a: int, b: int| j - 1 <= a < b <= i implies #[trigger] v@[a].le(
                #[trigger] v@[b],
            ) by {
                if a == j - 1 && b > j {
                    T::le_trans(s[j as int], s[j - 1], s[b]);
                }
            }
            assert forall|a: int, b: int| 0 <= a < j - 1 && j - 1 < b <= i implies #[trigger] v@[a].le(
                #[trigger] v@[b],
            ) by {
                if b == j {
                    assert(s[a].le(s[j - 1]));
                }
            }
            j = j - 1;
        }
        assert forall|a: int, b: int| 0 <= a < b < i + 1 implies #[trigger] v@[a].le(
            #[trigger] v@[b],
        ) by {
            if a < j && b == j {
                if a < j - 1 {
                    T::le_trans(v@[a], v@[j - 1], v@[b]);
                }
            }
        }
        i = i + 1;
    }
}

/// Removes the repetitions from a sorted sequence: the result holds the same
/// values, each once, in increasing order.
pub fn dedup_sorted<T: TotalOrder + Copy>(v: &Vec<T>) -> (r: Vec<T>)
    requires
        sorted(v@),
    ensures
        strictly_sorted(r@),
        r@.to_set() =~= v@.to_set(),
        r@.len() <= v@.len(),
{
    let mut r: Vec<T> = Vec::new();
    let n = v.len();
    for i in 0..n
        invariant
            n == v.len(),
            sorted(v@),
            strictly_sorted(r@),
            r@.len() <= i,
            forall|x: T| #[trigger] r@.contains(x) <==> v@.subrange(0, i as int).contains(x),
            i > 0 ==> r@.len() > 0 && r@.last() == v@[i - 1],
    {
        let x = v[i];
        let ghost r0 = r@;
        let fresh = if r.len() == 0 {
            true
        } else {
            let last = r[r.len() - 1];
            !(x.le_exec(&last) && last.le_exec(&x))
        };
        if fresh {
            proof {
                if r0.len() > 0 {
                    let last = r0.last();
                    assert(v@[i - 1].le(v@[i as int]));
                    assert(last.le(x));
                    if last == x {
                        T::le_total(x, x);
                    }
                    assert(last != x);
                    assert forall|a: int| 0 <= a < r0.len() implies #[trigger] r0[a].le(x) && r0[a]
                        != x by {
                        if a < r0.len() - 1 {
                            T::le_trans(r0[a], last, x);
                            if r0[a] == x {
                                T::le_antisym(r0[a], last);
                            }
                        }
                    }
                }
            }
            r.push(x);
            assert(r@ == r0.push(x));
            assert forall|a: int, b: int| 0 <= a < b < r@.len() implies #[trigger] r@[a].le(
                #[trigger] r@[b],
            ) && r@[a] != r@[b] by {
                if b == r0.len() {
                    assert(r@[a] == r0[a]);
                    assert(r0[a].le(x) && r0[a] != x);
                } else {
                    assert(r@[a] == r0[a] && r@[b] == r0[b]);
                }
            }
        } else {
            proof {
                T::le_antisym(x, r0.last());
                assert(r0.contains(x)) by {
                    assert(r0[r0.len() - 1] == x);
                }
            }
        }
        assert(v@.subrange(0, i + 1) =~= v@.subrange(0, i as int).push(v@[i as int]));
        assert forall|y: T| #[trigger] r@.contains(y) <==> v@.subrange(0, i + 1).contains(y) by {
            if y == x {
                assert(v@.subrange(0, i + 1)[i as int] == x);
                if fresh {
                    assert(r@[r@.len() - 1] == x);
                }
            } else {
                if r@.contains(y) {
                    let k = choose|k: int| 0 <= k < r@.len() && #[trigger] r@[k] == y;
                    if fresh {
                        assert(k < r0.len());
                        assert(r0[k] == y);
                    }
                    assert(r0.contains(y));
                    assert(v@.subrange(0, i as int).contains(y));
                    let m = choose|m: int| 0 <= m < i && #[trigger] v@.subrange(0, i as int)[m] == y;
                    assert(v@.subrange(0, i + 1)[m] == y);
                }
                if v@.subrange(0, i + 1).contains(y) {
                    let m = choose|m: int| 0 <= m < i + 1 && #[trigger] v@.subrange(0, i + 1)[m] == y;
                    assert(m < i);
                    assert(v@.subrange(0, i as int)[m] == y);
                    assert(r0.contains(y));
                    let k = choose|k: int| 0 <= k < r0.len() && #[trigger] r0[k] == y;
                    if fresh {
                        assert(r@[k] == y);
                    }
                }
            }
        }
    }
    assert(v@.subrange(0, n as int) =~= v@);
    assert forall|x: T| #[trigger] r@.to_set().contains(x) <==> v@.to_set().contains(x) by {
        assert(r@.to_set().contains(x) <==> r@.contains(x));
        assert(v@.to_set().contains(x) <==> v@.contains(x));
    }
    r
}

/// The order of indices.
impl TotalOrder for usize {
    open spec fn le(self, other: Self) -> bool {
        self <= other
    }

    proof fn le_total(a: Self, b: Self) {
    }

    proof fn le_trans(a: Self, b: Self, c: Self) {
    }

    proof fn le_antisym(a: Self, b: Self) {
    }

    fn le_exec(&self, other: &Self) -> (r: bool) {
        *self <= *other
    }
}

/// The lexicographic order of pairs of indices.
impl TotalOrder for (usize, usize) {
    open spec fn le(self, other: Self) -> bool {
        self.0 < other.0 || (self.0 == other.0 && self.1 <= other.1)
    }

    proof fn le_total(a: Self, b: Self) {
    }

    proof fn le_trans(a: Self, b: Self, c: Self) {
    }

    proof fn le_antisym(a: Self, b: Self) {
    }

    fn le_exec(&self, other: &Self) -> (r: bool) {
        self.0 < other.0 || (self.0 == other.0 && self.1 <= other.1)
    }
}

} // verus!
