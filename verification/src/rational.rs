//! Exact rational numbers over unbounded integers.
//!
//! A [`Rational`] is a fraction `num / den` with `den > 0`, kept in lowest
//! terms (its type invariant). Its view is the integer pair `(num, den)`; two pairs stand for
//! the same rational when they are equivalent (`a.0 · b.1 = b.0 · a.1`).
use crate::arithmetic::{divides, lemma_gcd_divides, spec_gcd};
use crate::integer::{decimal_text, int_abs, int_decimal_text, Int};
use vstd::arithmetic::power::pow;
use vstd::prelude::*;

verus! {

/// `a` and `b` stand for the same rational.
pub open spec fn rat_eqv(a: (int, int), b: (int, int)) -> bool {
    a.0 * b.1 == b.0 * a.1
}

/// `a + b`.
pub open spec fn rat_add(a: (int, int), b: (int, int)) -> (int, int) {
    (a.0 * b.1 + b.0 * a.1, a.1 * b.1)
}

/// `a − b`.
pub open spec fn rat_sub(a: (int, int), b: (int, int)) -> (int, int) {
    (a.0 * b.1 - b.0 * a.1, a.1 * b.1)
}

/// `a · b`.
pub open spec fn rat_mul(a: (int, int), b: (int, int)) -> (int, int) {
    (a.0 * b.0, a.1 * b.1)
}

/// `a / b` for `b ≠ 0`, with a positive denominator when `a`'s is.
pub open spec fn rat_div(a: (int, int), b: (int, int)) -> (int, int) {
    if b.0 > 0 {
        (a.0 * b.1, a.1 * b.0)
    } else {
        (-(a.0 * b.1), -(a.1 * b.0))
    }
}

/// `|a|`.
pub open spec fn rat_abs(a: (int, int)) -> (int, int) {
    (int_abs(a.0) as int, a.1)
}

/// `aᵉ`.
pub open spec fn rat_pow(a: (int, int), e: nat) -> (int, int) {
    (pow(a.0, e), pow(a.1, e))
}

/// `a < b`, for positive denominators.
pub open spec fn rat_lt(a: (int, int), b: (int, int)) -> bool {
    a.0 * b.1 < b.0 * a.1
}

/// The integer `v` as a pair.
pub open spec fn rat_int(v: int) -> (int, int) {
    (v, 1)
}

/// Equivalence is symmetric.
pub proof fn lemma_eqv_symmetric(a: (int, int), b: (int, int))
    requires
        rat_eqv(a, b),
    ensures
        rat_eqv(b, a),
{
}

/// Equivalence is transitive across a nonzero middle denominator.
pub proof fn lemma_eqv_transitive(a: (int, int), b: (int, int), c: (int, int))
    requires
        rat_eqv(a, b),
        rat_eqv(b, c),
        b.1 != 0,
    ensures
        rat_eqv(a, c),
{
    assert((a.0 * c.1) * b.1 == (c.0 * a.1) * b.1) by (nonlinear_arith)
        requires
            a.0 * b.1 == b.0 * a.1,
            b.0 * c.1 == c.0 * b.1,
    ;
    assert(a.0 * c.1 == c.0 * a.1) by (nonlinear_arith)
        requires
            (a.0 * c.1) * b.1 == (c.0 * a.1) * b.1,
            b.1 != 0,
    ;
}

/// The two cross terms of a sum or difference, rescaled to a common
/// denominator, agree across equivalent operands.
proof fn lemma_cross_terms(a: (int, int), a2: (int, int), b: (int, int), b2: (int, int))
    requires
        rat_eqv(a, a2),
        rat_eqv(b, b2),
    ensures
        (a.0 * b.1) * (a2.1 * b2.1) == (a2.0 * b2.1) * (a.1 * b.1),
        (b.0 * a.1) * (a2.1 * b2.1) == (b2.0 * a2.1) * (a.1 * b.1),
        (a.0 * b.1 + b.0 * a.1) * (a2.1 * b2.1) == (a2.0 * b2.1 + b2.0 * a2.1) * (a.1 * b.1),
        (a.0 * b.1 - b.0 * a.1) * (a2.1 * b2.1) == (a2.0 * b2.1 - b2.0 * a2.1) * (a.1 * b.1),
{
    let x = a.0 * a2.1;
    let y = b.0 * b2.1;
    assert((a.0 * b.1) * (a2.1 * b2.1) == x * (b.1 * b2.1)) by (nonlinear_arith)
        requires
            x == a.0 * a2.1,
    ;
    assert((a2.0 * b2.1) * (a.1 * b.1) == (a2.0 * a.1) * (b.1 * b2.1)) by (nonlinear_arith);
    assert((b.0 * a.1) * (a2.1 * b2.1) == y * (a.1 * a2.1)) by (nonlinear_arith)
        requires
            y == b.0 * b2.1,
    ;
    assert((b2.0 * a2.1) * (a.1 * b.1) == (b2.0 * b.1) * (a.1 * a2.1)) by (nonlinear_arith);
    let p = a.0 * b.1;
    let q = b.0 * a.1;
    let k = a2.1 * b2.1;
    assert((p + q) * k == p * k + q * k && (p - q) * k == p * k - q * k) by (nonlinear_arith);
    let p2 = a2.0 * b2.1;
    let q2 = b2.0 * a2.1;
    let k2 = a.1 * b.1;
    assert((p2 + q2) * k2 == p2 * k2 + q2 * k2 && (p2 - q2) * k2 == p2 * k2 - q2 * k2)
        by (nonlinear_arith);
}

/// Addition respects equivalence.
pub proof fn lemma_add_congruent(a: (int, int), a2: (int, int), b: (int, int), b2: (int, int))
    requires
        rat_eqv(a, a2),
        rat_eqv(b, b2),
    ensures
        rat_eqv(rat_add(a, b), rat_add(a2, b2)),
{
    lemma_cross_terms(a, a2, b, b2);
}

/// Subtraction respects equivalence.
pub proof fn lemma_sub_congruent(a: (int, int), a2: (int, int), b: (int, int), b2: (int, int))
    requires
        rat_eqv(a, a2),
        rat_eqv(b, b2),
    ensures
        rat_eqv(rat_sub(a, b), rat_sub(a2, b2)),
{
    lemma_cross_terms(a, a2, b, b2);
}

/// Multiplication respects equivalence.
pub proof fn lemma_mul_congruent(a: (int, int), a2: (int, int), b: (int, int), b2: (int, int))
    requires
        rat_eqv(a, a2),
        rat_eqv(b, b2),
    ensures
        rat_eqv(rat_mul(a, b), rat_mul(a2, b2)),
{
    lemma_four_product_swap(a.0, b.0, a2.1, b2.1);
    lemma_four_product_swap(a2.0, b2.0, a.1, b.1);
    assert((a.0 * a2.1) * (b.0 * b2.1) == (a2.0 * a.1) * (b2.0 * b.1));
}

/// `(p · q) · (r · s) = (p · r) · (q · s)`.
proof fn lemma_four_product_swap(p: int, q: int, r: int, s: int)
    ensures
        (p * q) * (r * s) == (p * r) * (q * s),
{
    assert((p * q) * (r * s) == (p * r) * (q * s)) by (nonlinear_arith);
}

/// Division respects equivalence.
pub proof fn lemma_div_congruent(a: (int, int), a2: (int, int), b: (int, int), b2: (int, int))
    requires
        rat_eqv(a, a2),
        rat_eqv(b, b2),
    ensures
        rat_eqv(rat_div(a, b), rat_div(a2, b2)),
{
    let p = a.0 * b.1;
    let q = a.1 * b.0;
    let p2 = a2.0 * b2.1;
    let q2 = a2.1 * b2.0;
    assert(p * q2 == p2 * q) by (nonlinear_arith)
        requires
            a.0 * a2.1 == a2.0 * a.1,
            b.0 * b2.1 == b2.0 * b.1,
            p == a.0 * b.1,
            q == a.1 * b.0,
            p2 == a2.0 * b2.1,
            q2 == a2.1 * b2.0,
    ;
    assert((-p) * q2 == p2 * (-q) && p * (-q2) == (-p2) * q && (-p) * (-q2) == (-p2) * (-q))
        by (nonlinear_arith)
        requires
            p * q2 == p2 * q,
    ;
}

/// The order respects equivalence (positive denominators).
pub proof fn lemma_lt_congruent(a: (int, int), a2: (int, int), b: (int, int), b2: (int, int))
    requires
        rat_eqv(a, a2),
        rat_eqv(b, b2),
        a.1 > 0,
        a2.1 > 0,
        b.1 > 0,
        b2.1 > 0,
    ensures
        rat_lt(a, b) == rat_lt(a2, b2),
{
    let l = a.0 * b.1;
    let r = b.0 * a.1;
    let l2 = a2.0 * b2.1;
    let r2 = b2.0 * a2.1;
    let k = a2.1 * b2.1;
    let k2 = a.1 * b.1;
    assert(l * k == l2 * k2) by (nonlinear_arith)
        requires
            a.0 * a2.1 == a2.0 * a.1,
            l == a.0 * b.1,
            l2 == a2.0 * b2.1,
            k == a2.1 * b2.1,
            k2 == a.1 * b.1,
    ;
    assert(r * k == r2 * k2) by (nonlinear_arith)
        requires
            b.0 * b2.1 == b2.0 * b.1,
            r == b.0 * a.1,
            r2 == b2.0 * a2.1,
            k == a2.1 * b2.1,
            k2 == a.1 * b.1,
    ;
    assert(k > 0 && k2 > 0) by (nonlinear_arith)
        requires
            k == a2.1 * b2.1,
            k2 == a.1 * b.1,
            a.1 > 0,
            a2.1 > 0,
            b.1 > 0,
            b2.1 > 0,
    ;
    assert((l < r) == (l2 < r2)) by (nonlinear_arith)
        requires
            l * k == l2 * k2,
            r * k == r2 * k2,
            k > 0,
            k2 > 0,
    ;
}

/// Absolute value respects equivalence (positive denominators).
pub proof fn lemma_abs_congruent(a: (int, int), a2: (int, int))
    requires
        rat_eqv(a, a2),
        a.1 > 0,
        a2.1 > 0,
    ensures
        rat_eqv(rat_abs(a), rat_abs(a2)),
{
    if a.0 < 0 && a2.0 >= 0 {
        assert(a.0 * a2.1 < 0 && a2.0 * a.1 >= 0) by (nonlinear_arith)
            requires
                a.0 < 0,
                a2.0 >= 0,
                a.1 > 0,
                a2.1 > 0,
        ;
    } else if a.0 >= 0 && a2.0 < 0 {
        assert(a.0 * a2.1 >= 0 && a2.0 * a.1 < 0) by (nonlinear_arith)
            requires
                a2.0 < 0,
                a.0 >= 0,
                a.1 > 0,
                a2.1 > 0,
        ;
    } else if a.0 < 0 {
        assert((-a.0) * a2.1 == (-a2.0) * a.1) by (nonlinear_arith)
            requires
                a.0 * a2.1 == a2.0 * a.1,
        ;
    }
}

/// Sums, differences and products of pairs with positive denominators
/// have positive denominators; so does a quotient by a nonzero pair.
pub proof fn lemma_ops_keep_positive_denominator(a: (int, int), b: (int, int))
    requires
        a.1 > 0,
        b.1 > 0,
    ensures
        rat_add(a, b).1 > 0,
        rat_sub(a, b).1 > 0,
        rat_mul(a, b).1 > 0,
        b.0 != 0 ==> rat_div(a, b).1 > 0,
{
    assert(a.1 * b.1 > 0) by (nonlinear_arith)
        requires
            a.1 > 0,
            b.1 > 0,
    ;
    if b.0 > 0 {
        assert(a.1 * b.0 > 0) by (nonlinear_arith)
            requires
                a.1 > 0,
                b.0 > 0,
        ;
    } else if b.0 < 0 {
        assert(a.1 * b.0 < 0) by (nonlinear_arith)
            requires
                a.1 > 0,
                b.0 < 0,
        ;
    }
}

/// An exact rational number `num / den`, `den > 0`, in lowest terms.
#[derive(Debug, PartialEq, Eq)]
pub struct Rational {
    num: Int,
    den: Int,
}

impl View for Rational {
    type V = (int, int);

    closed spec fn view(&self) -> (int, int) {
        (self.num@, if self.den@ > 0 {
            self.den@
        } else {
            1
        })
    }
}

/// Every rational's view has a positive denominator.
pub proof fn lemma_den_positive(r: Rational)
    ensures
        r@.1 > 0,
{
}

impl Clone for Rational {
    /// A copy of the same value; see [`Rational::duplicate`].
    fn clone(&self) -> (r: Self)
        ensures
            r@ == self@,
            in_lowest_terms(r@),
    {
        self.duplicate()
    }
}

/// The text `"num/den"` of a pair, both sides in decimal.
pub open spec fn rational_text(p: (int, int)) -> Seq<char> {
    decimal_text(p.0) + seq!['/'] + decimal_text(p.1)
}

/// The pair is in lowest terms: `gcd(|num|, |den|) = 1`.
pub open spec fn in_lowest_terms(p: (int, int)) -> bool {
    spec_gcd(int_abs(p.0), int_abs(p.1)) == 1
}

/// `gcd(a, 1) = 1`.
proof fn lemma_gcd_one(a: nat)
    ensures
        spec_gcd(a, 1) == 1,
{
    assert(a % 1 == 0);
    reveal_with_fuel(spec_gcd, 2);
}

/// Dividing both parts of `(a, b)`, `b ≠ 0`, by their gcd `g` leaves a
/// pair in lowest terms.
proof fn lemma_reduced_coprime(a: int, b: int, g: int, a2: int, b2: int)
    requires
        g > 0,
        g == spec_gcd(int_abs(a), int_abs(b)),
        a == g * a2,
        b == g * b2,
        b2 != 0,
    ensures
        in_lowest_terms((a2, b2)),
{
    let x = int_abs(a2);
    let y = int_abs(b2);
    let d = spec_gcd(x, y);
    lemma_gcd_divides(x, y);
    let dg = d * g;
    assert(dg > 0) by (nonlinear_arith)
        requires
            dg == d * g,
            d > 0,
            g > 0,
    ;
    let ka = x as int / d as int;
    let kb = y as int / d as int;
    vstd::arithmetic::div_mod::lemma_fundamental_div_mod(x as int, d as int);
    vstd::arithmetic::div_mod::lemma_fundamental_div_mod(y as int, d as int);
    assert(int_abs(a) == dg * ka) by (nonlinear_arith)
        requires
            a == g * a2,
            g > 0,
            x == int_abs(a2),
            x == d * ka + 0,
            dg == d * g,
    ;
    assert(int_abs(b) == dg * kb) by (nonlinear_arith)
        requires
            b == g * b2,
            g > 0,
            y == int_abs(b2),
            y == d * kb + 0,
            dg == d * g,
    ;
    vstd::arithmetic::div_mod::lemma_mod_multiples_basic(ka, dg);
    vstd::arithmetic::div_mod::lemma_mod_multiples_basic(kb, dg);
    vstd::arithmetic::mul::lemma_mul_is_commutative(dg, ka);
    vstd::arithmetic::mul::lemma_mul_is_commutative(dg, kb);
    crate::arithmetic::lemma_gcd_greatest(int_abs(a), int_abs(b), dg);
    let q = g / dg;
    vstd::arithmetic::div_mod::lemma_fundamental_div_mod(g, dg);
    assert(d <= 1) by (nonlinear_arith)
        requires
            g == dg * q + 0,
            g > 0,
            dg == d * g,
            d > 0,
    ;
}

impl Rational {
    /// The denominator is positive and the fraction is in lowest terms.
    #[verifier::type_invariant]
    pub closed spec fn positive_denominator(self) -> bool {
        &&& self.den@ > 0
        &&& in_lowest_terms((self.num@, self.den@))
    }

    /// `num / den` divided by `gcd(num, den)`, with a positive denominator.
    fn normalize(num: Int, den: Int) -> (r: Rational)
        requires
            den@ != 0,
        ensures
            rat_eqv(r@, (num@, den@)),
            r@.1 > 0,
            in_lowest_terms(r@),
    {
        let g = num.gcd(&den);
        proof {
            lemma_gcd_divides(int_abs(num@), int_abs(den@));
            crate::arithmetic::lemma_gcd_zero(int_abs(num@), int_abs(den@));
            lemma_divides_signed(g@, num@);
            lemma_divides_signed(g@, den@);
        }
        let n2 = num.div_floor(&g);
        let d2 = den.div_floor(&g);
        proof {
            lemma_exact_quotient(num@, g@);
            lemma_exact_quotient(den@, g@);
            assert(n2@ * den@ == num@ * d2@) by (nonlinear_arith)
                requires
                    num@ == g@ * n2@,
                    den@ == g@ * d2@,
            ;
            assert(d2@ != 0);
            lemma_reduced_coprime(num@, den@, g@, n2@, d2@);
        }
        let zero = Int::from_i64(0);
        if d2.lt(&zero) {
            let n3 = zero.sub(&n2);
            let d3 = zero.sub(&d2);
            proof {
                assert(n3@ * den@ == num@ * d3@) by (nonlinear_arith)
                    requires
                        n2@ * den@ == num@ * d2@,
                        n3@ == 0 - n2@,
                        d3@ == 0 - d2@,
                ;
            }
            let r = Rational { num: n3, den: d3 };
            proof {
                use_type_invariant(&r);
            }
            r
        } else {
            let r = Rational { num: n2, den: d2 };
            proof {
                use_type_invariant(&r);
            }
            r
        }
    }

    /// `0`.
    pub fn zero() -> (r: Rational)
        ensures
            r@ == rat_int(0),
            in_lowest_terms(r@),
    {
        let num = Int::from_i64(0);
        proof {
            lemma_gcd_one(int_abs(num@));
        }
        Rational { num, den: Int::from_i64(1) }
    }

    /// `1`.
    pub fn one() -> (r: Rational)
        ensures
            r@ == rat_int(1),
            in_lowest_terms(r@),
    {
        let num = Int::from_i64(1);
        proof {
            lemma_gcd_one(int_abs(num@));
        }
        Rational { num, den: Int::from_i64(1) }
    }

    /// The integer `v`.
    pub fn from_int(v: i64) -> (r: Rational)
        ensures
            r@ == rat_int(v as int),
            in_lowest_terms(r@),
    {
        let num = Int::from_i64(v);
        proof {
            lemma_gcd_one(int_abs(num@));
        }
        Rational { num, den: Int::from_i64(1) }
    }

    /// The integer `v`.
    pub fn from_integer(v: Int) -> (r: Rational)
        ensures
            r@ == rat_int(v@),
            in_lowest_terms(r@),
    {
        proof {
            lemma_gcd_one(int_abs(v@));
        }
        Rational { num: v, den: Int::from_i64(1) }
    }

    /// `n / d`; `None` when `d = 0`.
    pub fn new_i64(n: i64, d: i64) -> (r: Option<Rational>)
        ensures
            d == 0 ==> r is None,
            d != 0 ==> (r matches Some(q) && rat_eqv(q@, (n as int, d as int)) && q@.1 > 0
                && in_lowest_terms(q@)),
    {
        if d == 0 {
            return None;
        }
        Some(Rational::normalize(Int::from_i64(n), Int::from_i64(d)))
    }

    /// A copy with the same value.
    pub fn duplicate(&self) -> (r: Rational)
        ensures
            r@ == self@,
            in_lowest_terms(r@),
    {
        proof {
            use_type_invariant(self);
        }
        Rational { num: self.num.duplicate(), den: self.den.duplicate() }
    }

    /// The numerator.
    pub fn numer(&self) -> (r: &Int)
        ensures
            r@ == self@.0,
    {
        &self.num
    }

    /// The denominator.
    pub fn denom(&self) -> (r: &Int)
        ensures
            r@ == self@.1,
            r@ > 0,
    {
        proof {
            use_type_invariant(self);
        }
        &self.den
    }

    /// `self + other`.
    pub fn add(&self, other: &Rational) -> (r: Rational)
        ensures
            rat_eqv(r@, rat_add(self@, other@)),
            r@.1 > 0,
            in_lowest_terms(r@),
    {
        proof {
            use_type_invariant(self);
            use_type_invariant(other);
            lemma_ops_keep_positive_denominator(self@, other@);
        }
        let n = self.num.mul(&other.den).add(&other.num.mul(&self.den));
        let d = self.den.mul(&other.den);
        Rational::normalize(n, d)
    }

    /// `self − other`.
    pub fn sub(&self, other: &Rational) -> (r: Rational)
        ensures
            rat_eqv(r@, rat_sub(self@, other@)),
            r@.1 > 0,
            in_lowest_terms(r@),
    {
        proof {
            use_type_invariant(self);
            use_type_invariant(other);
            lemma_ops_keep_positive_denominator(self@, other@);
        }
        let n = self.num.mul(&other.den).sub(&other.num.mul(&self.den));
        let d = self.den.mul(&other.den);
        Rational::normalize(n, d)
    }

    /// `self · other`.
    pub fn mul(&self, other: &Rational) -> (r: Rational)
        ensures
            rat_eqv(r@, rat_mul(self@, other@)),
            r@.1 > 0,
            in_lowest_terms(r@),
    {
        proof {
            use_type_invariant(self);
            use_type_invariant(other);
            lemma_ops_keep_positive_denominator(self@, other@);
        }
        let n = self.num.mul(&other.num);
        let d = self.den.mul(&other.den);
        Rational::normalize(n, d)
    }

    /// `self / other`; `None` when `other = 0`.
    pub fn checked_div(&self, other: &Rational) -> (r: Option<Rational>)
        ensures
            other@.0 == 0 ==> r is None,
            other@.0 != 0 ==> (r matches Some(q) && rat_eqv(q@, rat_div(self@, other@)) && q@.1
                > 0 && in_lowest_terms(q@)),
    {
        proof {
            use_type_invariant(self);
            use_type_invariant(other);
            lemma_ops_keep_positive_denominator(self@, other@);
        }
        if other.num.signum() == 0 {
            return None;
        }
        let n = self.num.mul(&other.den);
        let d = self.den.mul(&other.num);
        proof {
            assert(rat_eqv((n@, d@), rat_div(self@, other@))) by {
                if other@.0 < 0 {
                    assert((n@ * -(d@)) == -(n@) * d@) by (nonlinear_arith);
                }
            }
            assert(d@ != 0) by (nonlinear_arith)
                requires
                    d@ == self@.1 * other@.0,
                    self@.1 > 0,
                    other@.0 != 0,
            ;
        }
        let q = Rational::normalize(n, d);
        proof {
            lemma_eqv_transitive(q@, (n@, d@), rat_div(self@, other@));
        }
        Some(q)
    }

    /// `|self|`.
    pub fn abs(&self) -> (r: Rational)
        ensures
            r@ == rat_abs(self@),
            in_lowest_terms(r@),
    {
        proof {
            use_type_invariant(self);
        }
        if self.num.signum() < 0 {
            let zero = Int::from_i64(0);
            Rational { num: zero.sub(&self.num), den: self.den.duplicate() }
        } else {
            self.duplicate()
        }
    }

    /// The sign of `self`: `−1`, `0` or `1`.
    pub fn signum(&self) -> (r: i8)
        ensures
            r == (if self@.0 < 0 {
                -1int
            } else if self@.0 == 0 {
                0int
            } else {
                1int
            }),
    {
        self.num.signum()
    }

    /// `self < other`.
    pub fn lt(&self, other: &Rational) -> (r: bool)
        ensures
            r == rat_lt(self@, other@),
    {
        proof {
            use_type_invariant(self);
            use_type_invariant(other);
        }
        let l = self.num.mul(&other.den);
        let rgt = other.num.mul(&self.den);
        l.lt(&rgt)
    }

    /// `selfᵉ`.
    pub fn pow_u32(&self, e: u32) -> (r: Rational)
        ensures
            rat_eqv(r@, rat_pow(self@, e as nat)),
            r@.1 > 0,
            in_lowest_terms(r@),
    {
        proof {
            use_type_invariant(self);
        }
        let mut acc = Rational::one();
        let mut i: u32 = 0;
        proof {
            vstd::arithmetic::power::lemma_pow0(self@.0);
            vstd::arithmetic::power::lemma_pow0(self@.1);
        }
        while i < e
            invariant
                i <= e,
                self@.1 > 0,
                rat_eqv(acc@, rat_pow(self@, i as nat)),
                acc@.1 > 0,
                in_lowest_terms(acc@),
                rat_pow(self@, i as nat).1 > 0,
            decreases e - i,
        {
            let next = acc.mul(self);
            proof {
                lemma_mul_congruent(acc@, rat_pow(self@, i as nat), self@, self@);
                vstd::arithmetic::power::lemma_pow1(self@.0);
                vstd::arithmetic::power::lemma_pow1(self@.1);
                vstd::arithmetic::power::lemma_pow_adds(self@.0, i as nat, 1);
                vstd::arithmetic::power::lemma_pow_adds(self@.1, i as nat, 1);
                lemma_ops_keep_positive_denominator(acc@, self@);
                lemma_ops_keep_positive_denominator(rat_pow(self@, i as nat), self@);
                lemma_eqv_transitive(next@, rat_mul(acc@, self@), rat_mul(rat_pow(self@, i as nat), self@));
            }
            acc = next;
            i = i + 1;
        }
        acc
    }

    /// The text `"num/den"`, both sides in decimal.
    pub fn to_string(&self) -> (r: String)
        ensures
            r@ == rational_text(self@),
    {
        proof {
            use_type_invariant(self);
            reveal_strlit("/");
        }
        let mut text = int_decimal_text(&self.num);
        text.append("/");
        let den = int_decimal_text(&self.den);
        text.append(den.as_str());
        text
    }
}

/// A divisor of `|x|` divides `x`.
proof fn lemma_divides_signed(g: int, x: int)
    requires
        g > 0,
        divides(g, int_abs(x) as int),
    ensures
        x % g == 0,
{
    if x < 0 {
        vstd::arithmetic::div_mod::lemma_fundamental_div_mod(-x, g);
        let q = (-x) / g;
        assert(x == (-q) * g) by (nonlinear_arith)
            requires
                -x == g * q + 0,
        ;
        vstd::arithmetic::div_mod::lemma_fundamental_div_mod_converse(x, g, -q, 0);
    }
}

/// An exact quotient: `x = g · (x / g)` when `g` divides `x`.
proof fn lemma_exact_quotient(x: int, g: int)
    requires
        g > 0,
        x % g == 0,
    ensures
        x == g * (x / g),
{
    vstd::arithmetic::div_mod::lemma_fundamental_div_mod(x, g);
}

} // verus!
