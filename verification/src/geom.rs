use vstd::prelude::*;
use std::cmp::Ordering;

verus! {

/// A 2D vector or point: `P(x, y)`.
#[derive(Clone, Copy, Default, Debug, Hash, PartialEq, Eq, PartialOrd, Ord)]
pub struct P<T>(pub T, pub T);

/// A point with integer coordinates.
pub type Point = P<i64>;

/// `R(n, d)` stands for the fraction `n / d`.
#[derive(Clone, Copy, Debug)]
pub struct R<T>(pub T, pub T);

/// Largest absolute coordinate for which the line and polygon predicates are
/// computed without overflow: their intermediate values grow like the cube
/// of the coordinates.
pub const COORD_LIMIT: i64 = 524288;

/// Largest absolute coordinate for the squared-distance functions, whose
/// numerators grow like the fourth power of the coordinates.
pub const DIST_LIMIT: i64 = 16384;

// ---------------------------------------------------------------------------
// Mathematical model
// ---------------------------------------------------------------------------

/// The mathematical value of an integer point.
pub open spec fn v(p: Point) -> (int, int) {
    (p.0 as int, p.1 as int)
}

pub open spec fn fits(x: int) -> bool {
    i64::MIN <= x <= i64::MAX
}

pub open spec fn vsub(a: (int, int), b: (int, int)) -> (int, int) {
    (a.0 - b.0, a.1 - b.1)
}

pub open spec fn vdot(a: (int, int), b: (int, int)) -> int {
    a.0 * b.0 + a.1 * b.1
}

/// Cross product (determinant) of two vectors.
pub open spec fn vdet(a: (int, int), b: (int, int)) -> int {
    a.0 * b.1 - a.1 * b.0
}

/// Squared distance between two points.
pub open spec fn dist2(a: Point, b: Point) -> int {
    vdot(vsub(v(a), v(b)), vsub(v(a), v(b)))
}

pub open spec fn in_box(p: Point, m: int) -> bool {
    -m <= p.0 <= m && -m <= p.1 <= m
}

pub open spec fn in_range(p: Point) -> bool {
    in_box(p, COORD_LIMIT as int)
}

pub open spec fn all_in_range(ps: Seq<Point>) -> bool {
    forall|i: int| 0 <= i < ps.len() ==> #[trigger] in_range(ps[i])
}

/// Sign of an integer: 1, 0 or -1.
pub open spec fn sgn(x: int) -> int {
    if x > 0 {
        1
    } else if x < 0 {
        -1
    } else {
        0
    }
}

/// Rust's division of signed integers, which rounds toward zero.
pub open spec fn trunc_div(a: int, b: int) -> int {
    if a >= 0 {
        a / b
    } else {
        -((-a) / b)
    }
}

pub open spec fn int_order(x: int, y: int) -> Ordering {
    if x < y {
        Ordering::Less
    } else if x == y {
        Ordering::Equal
    } else {
        Ordering::Greater
    }
}

/// The comparison of two fractions: cross-multiplied, with the sides swapped
/// when the product of the denominators is negative.
pub open spec fn frac_order(a: R<i64>, b: R<i64>) -> Ordering {
    if a.1 * b.1 > 0 {
        int_order(a.0 * b.1, a.1 * b.0)
    } else {
        int_order(a.1 * b.0, a.0 * b.1)
    }
}

// ---------------------------------------------------------------------------
// Arithmetic lemmas
// ---------------------------------------------------------------------------

pub proof fn lemma_mul_abs_le(a: int, b: int, x: int, y: int)
    by (nonlinear_arith)
    requires
        -x <= a <= x,
        -y <= b <= y,
    ensures
        -(x * y) <= a * b <= x * y,
{
}

/// Products of coordinates of two vectors whose components are at most `m`
/// in absolute value are at most `m * m` in absolute value.
pub proof fn lemma_products_bounded(a: (int, int), b: (int, int), m: int)
    requires
        -m <= a.0 <= m,
        -m <= a.1 <= m,
        -m <= b.0 <= m,
        -m <= b.1 <= m,
    ensures
        -(m * m) <= a.0 * b.0 <= m * m,
        -(m * m) <= a.0 * b.1 <= m * m,
        -(m * m) <= a.1 * b.0 <= m * m,
        -(m * m) <= a.1 * b.1 <= m * m,
{
    lemma_mul_abs_le(a.0, b.0, m, m);
    lemma_mul_abs_le(a.0, b.1, m, m);
    lemma_mul_abs_le(a.1, b.0, m, m);
    lemma_mul_abs_le(a.1, b.1, m, m);
}

// ---------------------------------------------------------------------------
// Vector operations
// ---------------------------------------------------------------------------

impl std::ops::Add for P<i64> {
    type Output = P<i64>;

    fn add(self, a: P<i64>) -> (r: P<i64>) {
        P(self.0 + a.0, self.1 + a.1)
    }
}

impl vstd::std_specs::ops::AddSpecImpl for P<i64> {
    open spec fn obeys_add_spec() -> bool {
        true
    }

    open spec fn add_req(self, a: P<i64>) -> bool {
        fits(self.0 + a.0) && fits(self.1 + a.1)
    }

    open spec fn add_spec(self, a: P<i64>) -> P<i64> {
        P((self.0 + a.0) as i64, (self.1 + a.1) as i64)
    }
}

impl std::ops::Sub for P<i64> {
    type Output = P<i64>;

    fn sub(self, a: P<i64>) -> (r: P<i64>) {
        P(self.0 - a.0, self.1 - a.1)
    }
}

impl vstd::std_specs::ops::SubSpecImpl for P<i64> {
    open spec fn obeys_sub_spec() -> bool {
        true
    }

    open spec fn sub_req(self, a: P<i64>) -> bool {
        fits(self.0 - a.0) && fits(self.1 - a.1)
    }

    open spec fn sub_spec(self, a: P<i64>) -> P<i64> {
        P((self.0 - a.0) as i64, (self.1 - a.1) as i64)
    }
}

impl std::ops::Mul<i64> for P<i64> {
    type Output = P<i64>;

    fn mul(self, a: i64) -> (r: P<i64>) {
        P(self.0 * a, self.1 * a)
    }
}

impl vstd::std_specs::ops::MulSpecImpl<i64> for P<i64> {
    open spec fn obeys_mul_spec() -> bool {
        true
    }

    open spec fn mul_req(self, a: i64) -> bool {
        fits(self.0 * a) && fits(self.1 * a)
    }

    open spec fn mul_spec(self, a: i64) -> P<i64> {
        P((self.0 * a) as i64, (self.1 * a) as i64)
    }
}

impl P<i64> {
    /// Dot product.
    pub fn dot(self, a: P<i64>) -> (r: i64)
        requires
            fits(self.0 * a.0),
            fits(self.1 * a.1),
            fits(vdot(v(self), v(a))),
        ensures
            r == vdot(v(self), v(a)),
    {
        (self.0 * a.0) + (self.1 * a.1)
    }

    /// Cross product (determinant).
    pub fn det(self, a: P<i64>) -> (r: i64)
        requires
            fits(self.0 * a.1),
            fits(self.1 * a.0),
            fits(vdet(v(self), v(a))),
        ensures
            r == vdet(v(self), v(a)),
    {
        (self.0 * a.1) - (self.1 * a.0)
    }

    /// Squared length.
    pub fn abs2(self) -> (r: i64)
        requires
            fits(self.0 * self.0),
            fits(self.1 * self.1),
            fits(vdot(v(self), v(self))),
        ensures
            r == vdot(v(self), v(self)),
            r >= 0,
    {
        proof {
            lemma_square_nonneg(self.0 as int);
            lemma_square_nonneg(self.1 as int);
        }
        self.dot(self)
    }

    /// Rotation by 90 degrees counterclockwise: `P(-y, x)`.
    pub fn rot(self) -> (r: P<i64>)
        requires
            self.1 != i64::MIN,
        ensures
            r.0 == -self.1,
            r.1 == self.0,
    {
        P(-self.1, self.0)
    }
}

pub proof fn lemma_square_nonneg(a: int)
    by (nonlinear_arith)
    ensures
        a * a >= 0,
{
}

/// The products a vector operation forms on points of a box of half-width `m`
/// (whose differences are at most `2m`) fit, when `2 * (2m)^2` does.
pub proof fn lemma_diff_products_fit(a: (int, int), b: (int, int), m: int)
    requires
        0 <= m <= 1048576,
        -2 * m <= a.0 <= 2 * m,
        -2 * m <= a.1 <= 2 * m,
        -2 * m <= b.0 <= 2 * m,
        -2 * m <= b.1 <= 2 * m,
    ensures
        -(4 * (m * m)) <= a.0 * b.0 <= 4 * (m * m),
        -(4 * (m * m)) <= a.0 * b.1 <= 4 * (m * m),
        -(4 * (m * m)) <= a.1 * b.0 <= 4 * (m * m),
        -(4 * (m * m)) <= a.1 * b.1 <= 4 * (m * m),
        fits(a.0 * b.0),
        fits(a.0 * b.1),
        fits(a.1 * b.0),
        fits(a.1 * b.1),
        fits(vdot(a, b)),
        fits(vdet(a, b)),
        -(8 * (m * m)) <= vdot(a, b) <= 8 * (m * m),
        -(8 * (m * m)) <= vdet(a, b) <= 8 * (m * m),
{
    lemma_products_bounded(a, b, 2 * m);
    assert((2 * m) * (2 * m) == 4 * (m * m)) by (nonlinear_arith);
    lemma_mul_abs_le(m, m, 1048576, 1048576);
}

// ---------------------------------------------------------------------------
// Fractions
// ---------------------------------------------------------------------------

impl R<i64> {
    /// The value of the fraction, rounded toward zero.
    pub fn val(self) -> (r: i64)
        requires
            self.1 != 0,
            !(self.0 == i64::MIN && self.1 == -1),
        ensures
            r == trunc_div(self.0 as int, self.1 as int),
    {
        proof {
            lemma_trunc_div_bounds(self.0 as int, self.1 as int);
        }
        std::ops::Div::div(self.0, self.1)
    }

    /// Compares two fractions. The result is the order of the rational
    /// numbers `self.0 / self.1` and `a.0 / a.1`.
    pub fn cmp(&self, a: &R<i64>) -> (o: Ordering)
        requires
            self.1 != 0,
            a.1 != 0,
            fits(self.1 * a.1),
            fits(self.0 * a.1),
            fits(self.1 * a.0),
        ensures
            o == frac_order(*self, *a),
            o == int_order((self.0 * a.1 - self.1 * a.0) * (self.1 * a.1), 0),
    {
        proof {
            lemma_frac_order_sign(*self, *a);
        }
        let d = self.1 * a.1;
        if d > 0 {
            let x = self.0 * a.1;
            let y = self.1 * a.0;
            if x < y {
                Ordering::Less
            } else if x == y {
                Ordering::Equal
            } else {
                Ordering::Greater
            }
        } else {
            let x = self.1 * a.0;
            let y = self.0 * a.1;
            if x < y {
                Ordering::Less
            } else if x == y {
                Ordering::Equal
            } else {
                Ordering::Greater
            }
        }
    }

    /// Whether two fractions stand for the same rational number.
    pub fn same_value(&self, a: &R<i64>) -> (b: bool)
        requires
            self.1 != 0,
            a.1 != 0,
            fits(self.1 * a.1),
            fits(self.0 * a.1),
            fits(self.1 * a.0),
        ensures
            b == (self.0 * a.1 == self.1 * a.0),
    {
        match self.cmp(a) {
            Ordering::Equal => true,
            _ => false,
        }
    }
}

/// A quotient rounded toward zero lies between the dividend and its negation,
/// and is `-a` only when the divisor is -1.
pub proof fn lemma_trunc_div_bounds(a: int, b: int)
    requires
        b != 0,
    ensures
        a >= 0 ==> -a <= a / b <= a,
        a < 0 ==> a <= -((-a) / b) <= -a,
        a < 0 && b != -1 ==> -((-a) / b) < -a,
{
    if a >= 0 {
        assert(-a <= a / b <= a) by (nonlinear_arith)
            requires
                a >= 0,
                b != 0,
        ;
    } else {
        let c = -a;
        assert(-c <= c / b <= c) by (nonlinear_arith)
            requires
                c > 0,
                b != 0,
        ;
        if b != -1 {
            assert(c / b > -c) by (nonlinear_arith)
                requires
                    c > 0,
                    b != 0,
                    b != -1,
            ;
        }
    }
}

/// The order of two fractions with non-zero denominators is the sign of the
/// difference of the rational numbers they stand for.
pub proof fn lemma_frac_order_sign(a: R<i64>, b: R<i64>)
    requires
        a.1 != 0,
        b.1 != 0,
    ensures
        frac_order(a, b) == int_order((a.0 * b.1 - a.1 * b.0) * (a.1 * b.1), 0),
{
    let x = a.0 * b.1 - a.1 * b.0;
    let d = a.1 * b.1;
    assert(d != 0) by (nonlinear_arith)
        requires
            a.1 != 0,
            b.1 != 0,
            d == a.1 * b.1,
    ;
    assert(x * d > 0 <==> (x > 0 && d > 0) || (x < 0 && d < 0)) by (nonlinear_arith)
        requires
            d != 0,
    ;
    assert(x * d == 0 <==> x == 0) by (nonlinear_arith)
        requires
            d != 0,
    ;
}

impl From<i64> for R<i64> {
    fn from(x: i64) -> (r: R<i64>) {
        R(x, 1)
    }
}

impl vstd::std_specs::convert::FromSpecImpl<i64> for R<i64> {
    open spec fn obeys_from_spec() -> bool {
        true
    }

    open spec fn from_spec(x: i64) -> R<i64> {
        R(x, 1)
    }
}

impl From<P<i64>> for P<R<i64>> {
    fn from(p: P<i64>) -> (r: P<R<i64>>) {
        P(R(p.0, 1), R(p.1, 1))
    }
}

impl vstd::std_specs::convert::FromSpecImpl<P<i64>> for P<R<i64>> {
    open spec fn obeys_from_spec() -> bool {
        true
    }

    open spec fn from_spec(p: P<i64>) -> P<R<i64>> {
        P(R(p.0, 1), R(p.1, 1))
    }
}

/// Sign of a value: 1, 0 or -1.
pub fn sig(x: i64) -> (r: i32)
    ensures
        r == sgn(x as int),
{
    if x > 0 {
        1
    } else if x < 0 {
        -1
    } else {
        0
    }
}

} // verus!
