use vstd::prelude::*;

verus! {

/// Disjoint sets over `0..n`, joined by size.
pub struct UnionFind {
    /// The size of the set at a root, the parent elsewhere.
    ps: Vec<usize>,
    pub is_root: Vec<bool>,
    /// The root of each element's set.
    reps: Ghost<Seq<usize>>,
    /// Each element's distance to its root.
    depth: Ghost<Seq<nat>>,
}

/// Whether an element's root is `r`.
pub open spec fn rooted_at(r: usize) -> spec_fn(usize) -> bool {
    |y: usize| y == r
}

/// The number of elements whose root is `r`.
pub open spec fn class_size(reps: Seq<usize>, r: usize) -> nat {
    reps.filter(rooted_at(r)).len()
}

/// `reps` with the set of `small` joined to that of `big`.
pub open spec fn merged(reps: Seq<usize>, small: usize, big: usize) -> Seq<usize> {
    reps.map_values(|y: usize| if y == small { big } else { y })
}

impl UnionFind {
    /// The number of elements.
    pub closed spec fn len(&self) -> nat {
        self.ps@.len()
    }

    /// The root of each element's set.
    pub closed spec fn reps(&self) -> Seq<usize> {
        self.reps@
    }

    /// The flags of `is_root`, one per element.
    pub closed spec fn roots(&self) -> Seq<bool> {
        self.is_root@
    }

    /// The sets are well formed: every element reaches its root through
    /// parents, and each root holds the size of its set.
    pub closed spec fn wf(&self) -> bool {
        let n = self.ps@.len();
        &&& self.is_root@.len() == n
        &&& self.reps@.len() == n
        &&& self.depth@.len() == n
        &&& forall|x: int| 0 <= x < n ==> (#[trigger] self.reps@[x]) < n && self.is_root@[self.reps@[x] as int]
        &&& forall|x: int| 0 <= x < n && #[trigger] self.is_root@[x] ==> self.reps@[x] == x && self.depth@[x] == 0 && self.ps@[x] == class_size(self.reps@, x as usize)
        &&& forall|x: int|
            0 <= x < n && !#[trigger] self.is_root@[x] ==> {
                &&& self.ps@[x] < n
                &&& self.reps@[self.ps@[x] as int] == self.reps@[x]
                &&& self.depth@[x] == self.depth@[self.ps@[x] as int] + 1
            }
    }

    /// Every element's root is an element whose root is itself, and the
    /// elements marked as roots are exactly those that are their own root.
    pub proof fn lemma_reps(&self)
        requires
            self.wf(),
        ensures
            self.reps().len() == self.len(),
            self.roots().len() == self.len(),
            forall|x: int|
                0 <= x < self.len() ==> (#[trigger] self.reps()[x]) < self.len()
                    && self.reps()[self.reps()[x] as int] == self.reps()[x],
            forall|x: int| 0 <= x < self.len() ==> (#[trigger] self.roots()[x] <==> self.reps()[x] == x),
    {
        assert forall|x: int| 0 <= x < self.len() implies (#[trigger] self.roots()[x] <==> self.reps()[x] == x) by {
            if !self.is_root@[x] {
                assert(self.is_root@[self.reps@[self.ps@[x] as int] as int]);
            }
        }
    }

    /// `n` sets of one element each.
    pub fn new(n: usize) -> (uf: UnionFind)
        ensures
            uf.wf(),
            uf.len() == n,
            uf.reps() == Seq::new(n as nat, |i: int| i as usize),
    {
        let mut ps: Vec<usize> = Vec::new();
        let mut is_root: Vec<bool> = Vec::new();
        for i in 0..n
            invariant
                ps@.len() == i,
                is_root@.len() == i,
                forall|j: int| 0 <= j < i ==> #[trigger] ps@[j] == 1,
                forall|j: int| 0 <= j < i ==> #[trigger] is_root@[j],
        {
            ps.push(1);
            is_root.push(true);
        }
        let ghost reps = Seq::new(n as nat, |i: int| i as usize);
        let ghost depth = Seq::new(n as nat, |i: int| 0nat);
        proof {
            assert forall|x: int| 0 <= x < n implies #[trigger] class_size(reps, x as usize) == 1 by {
                lemma_identity_class(n as int, x);
            }
        }
        UnionFind { ps, is_root, reps: Ghost(reps), depth: Ghost(depth) }
    }

    /// The root of the set of `x`.
    pub fn find(&self, x: usize) -> (r: usize)
        requires
            self.wf(),
            x < self.len(),
        ensures
            r == self.reps()[x as int],
    {
        let mut cur = x;
        while !self.is_root[cur]
            invariant
                self.wf(),
                cur < self.len(),
                self.reps@[cur as int] == self.reps@[x as int],
            decreases self.depth@[cur as int],
        {
            cur = self.ps[cur];
        }
        cur
    }

    /// Whether `x` and `y` are in the same set.
    pub fn same(&self, x: usize, y: usize) -> (b: bool)
        requires
            self.wf(),
            x < self.len(),
            y < self.len(),
        ensures
            b == (self.reps()[x as int] == self.reps()[y as int]),
    {
        self.find(x) == self.find(y)
    }

    /// The number of elements in the set of `x`.
    pub fn size(&self, x: usize) -> (s: usize)
        requires
            self.wf(),
            x < self.len(),
        ensures
            s == class_size(self.reps(), self.reps()[x as int]),
    {
        let r = self.find(x);
        self.ps[r]
    }

    /// Joins the sets of `x` and `y`: the root of the larger set (that of
    /// `x` when they are equal) becomes the root of both.
    pub fn unite(&mut self, x: usize, y: usize)
        requires
            old(self).wf(),
            x < old(self).len(),
            y < old(self).len(),
        ensures
            final(self).wf(),
            final(self).len() == old(self).len(),
            ({
                let reps = old(self).reps();
                let (rx, ry) = (reps[x as int], reps[y as int]);
                if rx == ry {
                    final(self).reps() == reps
                } else if class_size(reps, rx) < class_size(reps, ry) {
                    final(self).reps() == merged(reps, rx, ry)
                } else {
                    final(self).reps() == merged(reps, ry, rx)
                }
            }),
            ({
                let reps = old(self).reps();
                let (rx, ry) = (reps[x as int], reps[y as int]);
                rx != ry ==> class_size(final(self).reps(), final(self).reps()[x as int])
                    == class_size(reps, rx) + class_size(reps, ry)
            }),
    {
        let ghost reps0 = self.reps@;
        let ghost depth0 = self.depth@;
        let ghost n = self.ps@.len();
        let mut a = self.find(x);
        let mut b = self.find(y);
        if a == b {
            return;
        }
        if self.ps[a] < self.ps[b] {
            let t = a;
            a = b;
            b = t;
        }
        // `a` is the root of the larger set, `b` joins it
        proof {
            lemma_merged_sizes(reps0, b, a);
            lemma_class_size_bound(reps0, a);
            lemma_class_size_bound(merged(reps0, b, a), a);
        }
        let sa = self.ps[a];
        let sb = self.ps[b];
        let n_exec = self.ps.len();
        assert(sa + sb <= n_exec);
        self.ps.set(a, sa + sb);
        self.ps.set(b, a);
        self.is_root.set(b, false);
        let ghost new_reps = merged(reps0, b, a);
        let ghost new_depth = Seq::new(
            n,
            |i: int| if reps0[i] == b { depth0[i] + 1 } else { depth0[i] },
        );
        self.reps = Ghost(new_reps);
        self.depth = Ghost(new_depth);
        assert(new_reps[x as int] == a);
        proof {
            assert forall|z: int| 0 <= z < n && #[trigger] self.is_root@[z] implies self.ps@[z]
                == class_size(new_reps, z as usize) by {
                if z != a {
                    lemma_merged_other(reps0, b, a, z as usize);
                }
            }
        }
    }
}

proof fn lemma_identity_class(n: int, x: int)
    requires
        0 <= x < n <= usize::MAX,
    ensures
        class_size(Seq::new(n as nat, |i: int| i as usize), x as usize) == 1,
    decreases n,
{
    let s = Seq::new(n as nat, |i: int| i as usize);
    let f = rooted_at(x as usize);
    let t = Seq::new((n - 1) as nat, |i: int| i as usize);
    assert(s =~= t.push((n - 1) as usize));
    t.lemma_filter_push((n - 1) as usize, f);
    if n - 1 == x {
        lemma_none_equal(t, x as usize);
    } else {
        lemma_identity_class(n - 1, x);
    }
}

proof fn lemma_none_equal(t: Seq<usize>, x: usize)
    requires
        forall|i: int| 0 <= i < t.len() ==> #[trigger] t[i] != x,
    ensures
        class_size(t, x) == 0,
    decreases t.len(),
{
    let f = rooted_at(x);
    if t.len() > 0 {
        lemma_none_equal(t.drop_last(), x);
        assert(t =~= t.drop_last().push(t.last()));
        t.drop_last().lemma_filter_push(t.last(), f);
    } else {
        t.lemma_filter_len(f);
    }
}

/// Joining the set of `small` to that of `big` adds its size to `big`'s.
proof fn lemma_merged_sizes(reps: Seq<usize>, small: usize, big: usize)
    requires
        small != big,
    ensures
        class_size(merged(reps, small, big), big) == class_size(reps, big) + class_size(
            reps,
            small,
        ),
        class_size(merged(reps, small, big), small) == 0,
    decreases reps.len(),
{
    let fb = rooted_at(big);
    let fs = rooted_at(small);
    if reps.len() == 0 {
        assert(merged(reps, small, big) =~= reps);
        reps.lemma_filter_len(fb);
        reps.lemma_filter_len(fs);
    } else {
        let t = reps.drop_last();
        let l = reps.last();
        let l2 = if l == small {
            big
        } else {
            l
        };
        lemma_merged_sizes(t, small, big);
        assert(reps =~= t.push(l));
        assert(merged(reps, small, big) =~= merged(t, small, big).push(l2));
        t.lemma_filter_push(l, fb);
        t.lemma_filter_push(l, fs);
        merged(t, small, big).lemma_filter_push(l2, fb);
        merged(t, small, big).lemma_filter_push(l2, fs);
    }
}

/// Joining two sets leaves the size of every other root.
proof fn lemma_merged_other(reps: Seq<usize>, small: usize, big: usize, z: usize)
    requires
        z != small,
        z != big,
    ensures
        class_size(merged(reps, small, big), z) == class_size(reps, z),
    decreases reps.len(),
{
    let fz = rooted_at(z);
    if reps.len() == 0 {
        assert(merged(reps, small, big) =~= reps);
    } else {
        let t = reps.drop_last();
        let l = reps.last();
        let l2 = if l == small {
            big
        } else {
            l
        };
        lemma_merged_other(t, small, big, z);
        assert(reps =~= t.push(l));
        assert(merged(reps, small, big) =~= merged(t, small, big).push(l2));
        t.lemma_filter_push(l, fz);
        merged(t, small, big).lemma_filter_push(l2, fz);
    }
}

/// A set has at most as many elements as there are.
proof fn lemma_class_size_bound(reps: Seq<usize>, r: usize)
    ensures
        class_size(reps, r) <= reps.len(),
{
    reps.lemma_filter_len(rooted_at(r));
}

/// After joining the sets of `x` and `y`, two elements are in the same set
/// exactly when they were, or one was with `x` and the other with `y`.
pub proof fn lemma_unite_joins(reps: Seq<usize>, small: usize, big: usize, a: int, b: int)
    requires
        0 <= a < reps.len(),
        0 <= b < reps.len(),
        small != big,
    ensures
        (merged(reps, small, big)[a] == merged(reps, small, big)[b]) <==> (reps[a] == reps[b]
            || (reps[a] == small && reps[b] == big) || (reps[a] == big && reps[b] == small)),
{
}

} // verus!
