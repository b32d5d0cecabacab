//! How the Cauchy property passes through sums, differences and scalings:
//! past the modulus at tolerance `eps`, any two terms lie within `eps`
//! of each other whenever the parts have that property at the tolerances
//! the modulus asks of them.
use crate::cauchy::{half, Cauchy};
use crate::integer::int_abs;
use crate::rational::{
    lemma_den_positive, rat_div, rat_mul, Rational, lemma_abs_congruent, lemma_lt_congruent, lemma_ops_keep_positive_denominator, rat_abs, rat_add,
    rat_eqv, rat_lt, rat_sub,
};
use vstd::arithmetic::mul::{
    lemma_mul_is_associative, lemma_mul_is_commutative, lemma_mul_is_distributive_add_other_way,
    lemma_mul_is_distributive_sub_other_way,
};
use vstd::prelude::*;

verus! {

/// `a ≤ b`, for positive denominators.
pub open spec fn rat_le(a: (int, int), b: (int, int)) -> bool {
    a.0 * b.1 <= b.0 * a.1
}

/// `|p − q|`.
pub open spec fn rat_dist(p: (int, int), q: (int, int)) -> (int, int) {
    rat_abs(rat_sub(p, q))
}

/// Past the modulus at `eps`, any two terms of `c` lie within `eps`.
pub open spec fn cauchy_at(c: Cauchy, eps: (int, int)) -> bool {
    forall|m: nat, k: nat|
        #![trigger c.spec_nth(m), c.spec_nth(k)]
        m >= c.spec_modulus(eps) && k >= c.spec_modulus(eps) ==> rat_lt(
            rat_dist(c.spec_nth(m), c.spec_nth(k)),
            eps,
        )
}

/// `(p · q) · (r · s) = (p · r) · (q · s)`.
pub proof fn lemma_swap4(p: int, q: int, r: int, s: int)
    ensures
        (p * q) * (r * s) == (p * r) * (q * s),
{
    lemma_mul_is_associative(p, q, r * s);
    lemma_mul_is_associative(q, r, s);
    lemma_mul_is_commutative(q, r);
    lemma_mul_is_associative(r, q, s);
    lemma_mul_is_associative(p, r, q * s);
}

/// `a ≤ b < c` gives `a < c`.
pub proof fn lemma_le_lt_trans(a: (int, int), b: (int, int), c: (int, int))
    requires
        a.1 > 0,
        b.1 > 0,
        c.1 > 0,
        rat_le(a, b),
        rat_lt(b, c),
    ensures
        rat_lt(a, c),
{
    assert(a.0 * b.1 * c.1 <= b.0 * a.1 * c.1) by (nonlinear_arith)
        requires
            a.0 * b.1 <= b.0 * a.1,
            c.1 > 0,
    ;
    assert(b.0 * c.1 * a.1 < c.0 * b.1 * a.1) by (nonlinear_arith)
        requires
            b.0 * c.1 < c.0 * b.1,
            a.1 > 0,
    ;
    lemma_mul_is_associative(a.0, b.1, c.1);
    lemma_mul_is_commutative(b.1, c.1);
    lemma_mul_is_associative(a.0, c.1, b.1);
    lemma_mul_is_associative(b.0, a.1, c.1);
    lemma_mul_is_commutative(a.1, c.1);
    lemma_mul_is_associative(b.0, c.1, a.1);
    lemma_mul_is_associative(c.0, b.1, a.1);
    lemma_mul_is_commutative(b.1, a.1);
    lemma_mul_is_associative(c.0, a.1, b.1);
    assert((a.0 * c.1) * b.1 < (c.0 * a.1) * b.1);
    assert(a.0 * c.1 < c.0 * a.1) by (nonlinear_arith)
        requires
            (a.0 * c.1) * b.1 < (c.0 * a.1) * b.1,
            b.1 > 0,
    ;
}

/// `a ≤ b` and `c < d` give `a + c < b + d`.
pub proof fn lemma_add_le_lt(a: (int, int), b: (int, int), c: (int, int), d: (int, int))
    requires
        a.1 > 0,
        b.1 > 0,
        c.1 > 0,
        d.1 > 0,
        rat_le(a, b),
        rat_lt(c, d),
    ensures
        rat_lt(rat_add(a, c), rat_add(b, d)),
{
    let kk = c.1 * d.1;
    let ll = a.1 * b.1;
    assert(kk > 0) by (nonlinear_arith)
        requires
            kk == c.1 * d.1,
            c.1 > 0,
            d.1 > 0,
    ;
    assert(ll > 0) by (nonlinear_arith)
        requires
            ll == a.1 * b.1,
            a.1 > 0,
            b.1 > 0,
    ;
    // (a.0·c.1 + c.0·a.1)·(b.1·d.1) = (a.0·b.1)·kk + (c.0·d.1)·ll
    lemma_mul_is_distributive_add_other_way(b.1 * d.1, a.0 * c.1, c.0 * a.1);
    lemma_swap4(a.0, c.1, b.1, d.1);
    lemma_mul_is_commutative(b.1, d.1);
    lemma_swap4(c.0, a.1, d.1, b.1);
    assert((a.0 * c.1 + c.0 * a.1) * (b.1 * d.1) == (a.0 * b.1) * kk + (c.0 * d.1) * ll);
    // (b.0·d.1 + d.0·b.1)·(a.1·c.1) = (b.0·a.1)·kk + (d.0·c.1)·ll
    lemma_mul_is_distributive_add_other_way(a.1 * c.1, b.0 * d.1, d.0 * b.1);
    lemma_swap4(b.0, d.1, a.1, c.1);
    lemma_mul_is_commutative(d.1, c.1);
    lemma_mul_is_commutative(a.1, c.1);
    lemma_swap4(d.0, b.1, c.1, a.1);
    lemma_mul_is_commutative(b.1, a.1);
    assert((b.0 * d.1 + d.0 * b.1) * (a.1 * c.1) == (b.0 * a.1) * kk + (d.0 * c.1) * ll);
    assert((a.0 * b.1) * kk <= (b.0 * a.1) * kk) by (nonlinear_arith)
        requires
            a.0 * b.1 <= b.0 * a.1,
            kk > 0,
    ;
    assert((c.0 * d.1) * ll < (d.0 * c.1) * ll) by (nonlinear_arith)
        requires
            c.0 * d.1 < d.0 * c.1,
            ll > 0,
    ;
}

/// `|x| · k = |x · k|` for `k > 0`.
proof fn lemma_abs_scale(x: int, k: int)
    requires
        k > 0,
    ensures
        int_abs(x) * k == int_abs(x * k),
{
    if x >= 0 {
        assert(x * k >= 0) by (nonlinear_arith)
            requires
                x >= 0,
                k > 0,
        ;
    } else {
        assert(x * k < 0) by (nonlinear_arith)
            requires
                x < 0,
                k > 0,
        ;
        lemma_mul_is_distributive_sub_other_way(k, 0, x);
    }
}

/// `|u + v| ≤ |u| + |v|` and `|u − v| ≤ |u| + |v|`.
pub proof fn lemma_abs_triangle(u: (int, int), v: (int, int))
    requires
        u.1 > 0,
        v.1 > 0,
    ensures
        rat_le(rat_abs(rat_add(u, v)), rat_add(rat_abs(u), rat_abs(v))),
        rat_le(rat_abs(rat_sub(u, v)), rat_add(rat_abs(u), rat_abs(v))),
{
    let x = u.0 * v.1;
    let y = v.0 * u.1;
    let d = u.1 * v.1;
    assert(d > 0) by (nonlinear_arith)
        requires
            d == u.1 * v.1,
            u.1 > 0,
            v.1 > 0,
    ;
    lemma_abs_scale(u.0, v.1);
    lemma_abs_scale(v.0, u.1);
    let s = int_abs(x) + int_abs(y);
    assert(int_abs(x + y) <= s);
    assert(int_abs(x - y) <= s);
    assert(int_abs(x + y) * d <= s * d) by (nonlinear_arith)
        requires
            int_abs(x + y) <= s,
            d > 0,
    ;
    assert(int_abs(x - y) * d <= s * d) by (nonlinear_arith)
        requires
            int_abs(x - y) <= s,
            d > 0,
    ;
}

/// `(p₁ + q₁) − (p₂ + q₂) ≡ (p₁ − p₂) + (q₁ − q₂)`, and likewise with
/// differences in place of the sums.
pub proof fn lemma_regroup(p1: (int, int), q1: (int, int), p2: (int, int), q2: (int, int))
    ensures
        rat_eqv(
            rat_sub(rat_add(p1, q1), rat_add(p2, q2)),
            rat_add(rat_sub(p1, p2), rat_sub(q1, q2)),
        ),
        rat_eqv(
            rat_sub(rat_sub(p1, q1), rat_sub(p2, q2)),
            rat_sub(rat_sub(p1, p2), rat_sub(q1, q2)),
        ),
{
    let (a, b) = p1;
    let (c, d) = q1;
    let (e, f) = p2;
    let (g, h) = q2;
    lemma_swap4(a, d, f, h);
    lemma_mul_is_commutative(f, h);
    lemma_swap4(c, b, h, f);
    lemma_swap4(e, h, b, d);
    lemma_mul_is_commutative(h, d);
    lemma_swap4(g, f, d, b);
    lemma_mul_is_commutative(b, d);
    lemma_mul_is_commutative(f, b);
    lemma_swap4(b, d, f, h);
    lemma_mul_is_distributive_add_other_way(f * h, a * d, c * b);
    lemma_mul_is_distributive_add_other_way(b * d, e * h, g * f);
    lemma_mul_is_distributive_sub_other_way(d * h, a * f, e * b);
    lemma_mul_is_distributive_sub_other_way(b * f, c * h, g * d);
    lemma_mul_is_distributive_sub_other_way(f * h, a * d, c * b);
    lemma_mul_is_distributive_sub_other_way(b * d, e * h, g * f);
    let l1 = rat_sub(rat_add(p1, q1), rat_add(p2, q2));
    let r1 = rat_add(rat_sub(p1, p2), rat_sub(q1, q2));
    assert(l1.0 == r1.0 && l1.1 == r1.1);
    let l2 = rat_sub(rat_sub(p1, q1), rat_sub(p2, q2));
    let r2 = rat_sub(rat_sub(p1, p2), rat_sub(q1, q2));
    assert(l2.0 == r2.0 && l2.1 == r2.1);
}

/// Two halves make the whole.
pub proof fn lemma_halves(e: (int, int))
    requires
        e.1 > 0,
    ensures
        half(e).1 > 0,
        rat_eqv(rat_add(half(e), half(e)), e),
{
    let h = half(e);
    assert(h == (e.0 * 1, e.1 * 2));
    assert((e.0 * (e.1 * 2) + e.0 * (e.1 * 2)) * e.1 == e.0 * ((e.1 * 2) * (e.1 * 2)))
        by (nonlinear_arith);
}

/// `|a| ≤ |a|` and `a < b ⇒ a ≤ b`.
proof fn lemma_lt_le(a: (int, int), b: (int, int))
    requires
        rat_lt(a, b),
    ensures
        rat_le(a, b),
{
}

/// The distance of `p₁ ± q₁` from `p₂ ± q₂` is below `eps` when the two
/// parts' distances are below `eps / 2`.
proof fn lemma_combine(
    p1: (int, int),
    q1: (int, int),
    p2: (int, int),
    q2: (int, int),
    eps: (int, int),
    plus: bool,
)
    requires
        p1.1 > 0,
        q1.1 > 0,
        p2.1 > 0,
        q2.1 > 0,
        eps.1 > 0,
        rat_lt(rat_dist(p1, p2), half(eps)),
        rat_lt(rat_dist(q1, q2), half(eps)),
    ensures
        plus ==> rat_lt(rat_dist(rat_add(p1, q1), rat_add(p2, q2)), eps),
        !plus ==> rat_lt(rat_dist(rat_sub(p1, q1), rat_sub(p2, q2)), eps),
{
    let h = half(eps);
    lemma_halves(eps);
    let dp = rat_sub(p1, p2);
    let dq = rat_sub(q1, q2);
    lemma_ops_keep_positive_denominator(p1, p2);
    lemma_ops_keep_positive_denominator(q1, q2);
    lemma_ops_keep_positive_denominator(p1, q1);
    lemma_ops_keep_positive_denominator(p2, q2);
    lemma_ops_keep_positive_denominator(dp, dq);
    lemma_ops_keep_positive_denominator(rat_abs(dp), rat_abs(dq));
    lemma_ops_keep_positive_denominator(h, h);
    lemma_regroup(p1, q1, p2, q2);
    lemma_abs_triangle(dp, dq);
    lemma_lt_le(rat_abs(dp), h);
    lemma_add_le_lt(rat_abs(dp), h, rat_abs(dq), h);
    let x = rat_add(rat_abs(dp), rat_abs(dq));
    if plus {
        let whole = rat_sub(rat_add(p1, q1), rat_add(p2, q2));
        let parts = rat_add(dp, dq);
        lemma_ops_keep_positive_denominator(rat_add(p1, q1), rat_add(p2, q2));
        lemma_le_lt_trans(rat_abs(parts), x, rat_add(h, h));
        lemma_abs_congruent(whole, parts);
        lemma_le_lt_trans(rat_abs(whole), rat_abs(parts), rat_add(h, h));
        lemma_lt_congruent(rat_abs(whole), rat_abs(whole), rat_add(h, h), eps);
    } else {
        let whole = rat_sub(rat_sub(p1, q1), rat_sub(p2, q2));
        let parts = rat_sub(dp, dq);
        lemma_ops_keep_positive_denominator(rat_sub(p1, q1), rat_sub(p2, q2));
        lemma_le_lt_trans(rat_abs(parts), x, rat_add(h, h));
        lemma_abs_congruent(whole, parts);
        lemma_le_lt_trans(rat_abs(whole), rat_abs(parts), rat_add(h, h));
        lemma_lt_congruent(rat_abs(whole), rat_abs(whole), rat_add(h, h), eps);
    }
}

/// A termwise sum is Cauchy at `eps` past its modulus when both parts are
/// Cauchy at `eps / 2`.
pub proof fn lemma_sum_cauchy(a: Cauchy, b: Cauchy, eps: (int, int))
    requires
        eps.1 > 0,
        cauchy_at(a, half(eps)),
        cauchy_at(b, half(eps)),
    ensures
        cauchy_at(Cauchy::Sum(Box::new(a), Box::new(b)), eps),
{
    let c = Cauchy::Sum(Box::new(a), Box::new(b));
    assert forall|m: nat, k: nat|
        #![trigger c.spec_nth(m), c.spec_nth(k)]
        m >= c.spec_modulus(eps) && k >= c.spec_modulus(eps) implies rat_lt(
        rat_dist(c.spec_nth(m), c.spec_nth(k)),
        eps,
    ) by {
        a.lemma_nth_positive(m);
        a.lemma_nth_positive(k);
        b.lemma_nth_positive(m);
        b.lemma_nth_positive(k);
        assert(rat_lt(rat_dist(a.spec_nth(m), a.spec_nth(k)), half(eps)));
        assert(rat_lt(rat_dist(b.spec_nth(m), b.spec_nth(k)), half(eps)));
        lemma_combine(a.spec_nth(m), b.spec_nth(m), a.spec_nth(k), b.spec_nth(k), eps, true);
    }
}

/// A termwise difference is Cauchy at `eps` past its modulus when both
/// parts are Cauchy at `eps / 2`.
pub proof fn lemma_difference_cauchy(a: Cauchy, b: Cauchy, eps: (int, int))
    requires
        eps.1 > 0,
        cauchy_at(a, half(eps)),
        cauchy_at(b, half(eps)),
    ensures
        cauchy_at(Cauchy::Difference(Box::new(a), Box::new(b)), eps),
{
    let c = Cauchy::Difference(Box::new(a), Box::new(b));
    assert forall|m: nat, k: nat|
        #![trigger c.spec_nth(m), c.spec_nth(k)]
        m >= c.spec_modulus(eps) && k >= c.spec_modulus(eps) implies rat_lt(
        rat_dist(c.spec_nth(m), c.spec_nth(k)),
        eps,
    ) by {
        a.lemma_nth_positive(m);
        a.lemma_nth_positive(k);
        b.lemma_nth_positive(m);
        b.lemma_nth_positive(k);
        assert(rat_lt(rat_dist(a.spec_nth(m), a.spec_nth(k)), half(eps)));
        assert(rat_lt(rat_dist(b.spec_nth(m), b.spec_nth(k)), half(eps)));
        lemma_combine(a.spec_nth(m), b.spec_nth(m), a.spec_nth(k), b.spec_nth(k), eps, false);
    }
}

/// `(p·s) − (q·s) ≡ (p − q)·s`.
pub proof fn lemma_scale_diff(p: (int, int), q: (int, int), s: (int, int))
    ensures
        rat_eqv(rat_sub(rat_mul(p, s), rat_mul(q, s)), rat_mul(rat_sub(p, q), s)),
{
    let w = rat_sub(rat_mul(p, s), rat_mul(q, s));
    let v = rat_mul(rat_sub(p, q), s);
    lemma_swap4(p.0, s.0, q.1, s.1);
    lemma_swap4(q.0, s.0, p.1, s.1);
    lemma_swap4(p.1, s.1, q.1, s.1);
    lemma_mul_is_distributive_sub_other_way(s.0 * s.1, p.0 * q.1, q.0 * p.1);
    lemma_mul_is_commutative(s.0, s.1);
    assert(w.0 == (p.0 * q.1 - q.0 * p.1) * (s.1 * s.0));
    lemma_mul_is_associative(p.0 * q.1 - q.0 * p.1, s.1, s.0);
    lemma_mul_is_commutative(p.0 * q.1 - q.0 * p.1, s.1);
    lemma_mul_is_associative(s.1, p.0 * q.1 - q.0 * p.1, s.0);
    assert(w.0 == s.1 * v.0);
    lemma_mul_is_commutative(p.1, s.1);
    lemma_mul_is_associative(p.1 * q.1, s.1, s.1);
    lemma_mul_is_commutative(p.1 * q.1, s.1);
    lemma_mul_is_associative(s.1, p.1 * q.1, s.1);
    assert(w.1 == s.1 * v.1);
    lemma_mul_is_associative(s.1, v.0, v.1);
    lemma_mul_is_commutative(v.0, s.1);
    lemma_mul_is_associative(v.0, s.1, v.1);
}

/// A scaled sequence is Cauchy at `eps` past its modulus when its scalar
/// is zero, or when the inner sequence is Cauchy at `eps / |s|`.
pub proof fn lemma_scaled_cauchy(inner: Cauchy, s: Rational, eps: (int, int))
    requires
        eps.0 > 0,
        eps.1 > 0,
        s@.0 == 0 || cauchy_at(inner, rat_div(eps, rat_abs(s@))),
    ensures
        cauchy_at(Cauchy::Scaled(Box::new(inner), s), eps),
{
    let c = Cauchy::Scaled(Box::new(inner), s);
    let sv = s@;
    lemma_den_positive(s);
    assert forall|m: nat, k: nat|
        #![trigger c.spec_nth(m), c.spec_nth(k)]
        m >= c.spec_modulus(eps) && k >= c.spec_modulus(eps) implies rat_lt(
        rat_dist(c.spec_nth(m), c.spec_nth(k)),
        eps,
    ) by {
        let am = inner.spec_nth(m);
        let ak = inner.spec_nth(k);
        inner.lemma_nth_positive(m);
        inner.lemma_nth_positive(k);
        let d = rat_sub(am, ak);
        let whole = rat_sub(rat_mul(am, sv), rat_mul(ak, sv));
        lemma_ops_keep_positive_denominator(am, ak);
        lemma_ops_keep_positive_denominator(am, sv);
        lemma_ops_keep_positive_denominator(ak, sv);
        lemma_ops_keep_positive_denominator(rat_mul(am, sv), rat_mul(ak, sv));
        lemma_ops_keep_positive_denominator(d, sv);
        if sv.0 == 0 {
            assert(am.0 * sv.0 == 0 && ak.0 * sv.0 == 0) by (nonlinear_arith)
                requires
                    sv.0 == 0,
            ;
            assert(0 * (ak.1 * sv.1) == 0 && 0 * (am.1 * sv.1) == 0) by (nonlinear_arith);
            assert(whole.0 == 0);
            assert(0 < eps.0 * whole.1) by (nonlinear_arith)
                requires
                    eps.0 > 0,
                    whole.1 > 0,
            ;
            assert(int_abs(whole.0) == 0);
            assert((int_abs(whole.0) as int) * eps.1 == 0) by (nonlinear_arith)
                requires
                    int_abs(whole.0) == 0,
            ;
            assert(rat_lt(rat_abs(whole), eps));
            assert(c.spec_nth(m) == rat_mul(am, sv));
            assert(rat_dist(c.spec_nth(m), c.spec_nth(k)) == rat_abs(whole));
        } else {
            let e2 = rat_div(eps, rat_abs(sv));
            let sa = rat_abs(sv);
            assert(sa.0 > 0);
            assert(e2 == (eps.0 * sv.1, eps.1 * sa.0));
            assert(e2.1 > 0) by (nonlinear_arith)
                requires
                    e2.1 == eps.1 * sa.0,
                    eps.1 > 0,
                    sa.0 > 0,
            ;
            assert(rat_lt(rat_dist(am, ak), e2));
            let ad = rat_abs(d);
            // |d|·|s| < e2·|s|
            let kk = sa.0 * sv.1;
            assert(kk > 0) by (nonlinear_arith)
                requires
                    kk == sa.0 * sv.1,
                    sa.0 > 0,
                    sv.1 > 0,
            ;
            assert(ad.0 * e2.1 * kk < e2.0 * ad.1 * kk) by (nonlinear_arith)
                requires
                    ad.0 * e2.1 < e2.0 * ad.1,
                    kk > 0,
            ;
            lemma_swap4(ad.0, e2.1, sa.0, sv.1);
            lemma_swap4(e2.0, ad.1, sa.0, sv.1);
            lemma_mul_is_associative(ad.0, e2.1, kk);
            lemma_mul_is_associative(e2.0, ad.1, kk);
            let lhs = rat_mul(ad, sa);
            let rhs = rat_mul(e2, sa);
            assert(rat_lt(lhs, rhs));
            // |d·s| = |d|·|s|
            lemma_abs_scale_signed(d.0, sv.0);
            assert(rat_abs(rat_mul(d, sv)) == lhs);
            // e2·|s| ≡ eps
            lemma_reorder4(eps.0, sv.1, sa.0, eps.1);
            assert(rhs == ((eps.0 * sv.1) * sa.0, (eps.1 * sa.0) * sv.1));
            assert(rat_eqv(rhs, eps));
            lemma_ops_keep_positive_denominator(ad, sa);
            lemma_ops_keep_positive_denominator(e2, sa);
            lemma_lt_congruent(lhs, lhs, rhs, eps);
            lemma_scale_diff(am, ak, sv);
            lemma_abs_congruent(whole, rat_mul(d, sv));
            lemma_eqv_le(rat_abs(whole), lhs);
            lemma_le_lt_trans(rat_abs(whole), lhs, eps);
            assert(rat_lt(rat_abs(whole), eps));
            assert(rat_dist(c.spec_nth(m), c.spec_nth(k)) == rat_abs(whole));
        }
    }
}

/// `((a·b)·c)·d = a·((d·c)·b)`.
proof fn lemma_reorder4(a: int, b: int, c: int, d: int)
    ensures
        ((a * b) * c) * d == a * ((d * c) * b),
{
    lemma_mul_is_associative(a * b, c, d);
    lemma_mul_is_associative(a, b, c * d);
    lemma_mul_is_commutative(b, c * d);
    lemma_mul_is_commutative(c, d);
}

/// `|x · y| = |x| · |y|`.
pub proof fn lemma_abs_scale_signed(x: int, y: int)
    ensures
        int_abs(x * y) == int_abs(x) * int_abs(y),
{
    if x >= 0 && y >= 0 {
        assert(x * y >= 0) by (nonlinear_arith)
            requires
                x >= 0,
                y >= 0,
        ;
    } else if x >= 0 {
        assert(x * y <= 0) by (nonlinear_arith)
            requires
                x >= 0,
                y < 0,
        ;
        assert(x * (-y) == -(x * y)) by (nonlinear_arith);
    } else if y >= 0 {
        assert(x * y <= 0) by (nonlinear_arith)
            requires
                x < 0,
                y >= 0,
        ;
        assert((-x) * y == -(x * y)) by (nonlinear_arith);
    } else {
        assert(x * y > 0) by (nonlinear_arith)
            requires
                x < 0,
                y < 0,
        ;
        assert((-x) * (-y) == x * y) by (nonlinear_arith);
    }
}

/// Equivalent pairs are `≤` each other.
pub proof fn lemma_eqv_le(a: (int, int), b: (int, int))
    requires
        rat_eqv(a, b),
    ensures
        rat_le(a, b),
        rat_le(b, a),
{
}

} // verus!
