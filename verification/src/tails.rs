//! The tail bounds behind the moduli: past the modulus of `2 · atanh(t)`
//! or of `exp(x)` at tolerance `eps`, any two partial sums lie within
//! `eps` of each other, and so, through sums, differences and scalings,
//! for every sequence where `modulus_proved` holds.
use crate::cauchy::{half, Cauchy};
use crate::convergence::{
    cauchy_at, lemma_difference_cauchy, lemma_scaled_cauchy, lemma_sum_cauchy, lemma_eqv_le, lemma_scale_diff, lemma_swap4, rat_dist, rat_le};
use crate::elementary::{
    exp_bound, exp_modulus_from, exp_partial, exp_tail_term, exp_term,
    lemma_exp_bound_positive, lemma_exp_positive_denominators, sat_u32, spec_ceil,
    spec_ceil_u64, spec_exp_modulus, atanh_bound, atanh_doubled, atanh_modulus_from, atanh_part, atanh_power, atanh_sum,
    atanh_tail_power, lemma_atanh_bound_positive, lemma_atanh_positive_denominators,
    one_minus_square, sat_i64, spec_atanh_modulus, MODULUS_HARD_CAP,
};
use crate::integer::int_abs;
use crate::potential::{
    budget_step, lemma_budget_cauchy, lemma_le_trans, well_formed_budget,
};
use crate::rational::{
    lemma_abs_congruent, lemma_add_congruent, lemma_den_positive, lemma_eqv_transitive,
    lemma_mul_congruent, lemma_ops_keep_positive_denominator, rat_abs, rat_add, rat_div, rat_eqv,
    rat_int, rat_lt, rat_mul, rat_pow, rat_sub, Rational,
};
use vstd::arithmetic::mul::{
    lemma_mul_is_associative, lemma_mul_is_commutative, lemma_mul_is_distributive_add_other_way,
};
use vstd::arithmetic::power::pow;
use vstd::prelude::*;

verus! {

/// `(s + p) − s ≡ p`.
pub proof fn lemma_add_sub_cancel(s: (int, int), p: (int, int))
    ensures
        rat_eqv(rat_sub(rat_add(s, p), s), p),
{
    let x = rat_sub(rat_add(s, p), s);
    lemma_mul_is_distributive_add_other_way(s.1, s.0 * p.1, p.0 * s.1);
    lemma_mul_is_associative(s.0, p.1, s.1);
    lemma_mul_is_commutative(p.1, s.1);
    lemma_mul_is_associative(s.0, s.1, p.1);
    assert(x.0 == (p.0 * s.1) * s.1);
    lemma_mul_is_associative(p.0, s.1, s.1);
    lemma_mul_is_associative(s.1, p.1, s.1);
    lemma_mul_is_commutative(s.1 * p.1, s.1);
    lemma_mul_is_associative(s.1, s.1, p.1);
    // x.0 · p.1 = p.0 · (s.1·s.1) · p.1 = p.0 · x.1
    lemma_mul_is_associative(p.0, s.1 * s.1, p.1);
    assert(x.1 == (s.1 * s.1) * p.1);
}

/// The magnitude of the term `t^{2n+3}` is the tail power `|t|^{2n+3}`.
pub proof fn lemma_abs_power(t: (int, int), n: nat)
    requires
        t.1 > 0,
    ensures
        rat_abs(atanh_power(t, n + 1)) == atanh_tail_power(t, n),
    decreases n,
{
    let a0 = int_abs(t.0);
    crate::convergence::lemma_abs_scale_signed(t.0, t.0);
    assert(int_abs(t.0 * t.0) == a0 * a0);
    if n == 0 {
        let p = atanh_power(t, 1);
        assert(atanh_power(t, 0) == t);
        assert(p == rat_mul(t, rat_mul(t, t)));
        crate::convergence::lemma_abs_scale_signed(t.0, t.0 * t.0);
        reveal_with_fuel(vstd::arithmetic::power::pow, 4);
        assert(atanh_tail_power(t, 0) == rat_pow(rat_abs(t), 3));
        assert(vstd::arithmetic::power::pow(a0 as int, 3) == a0 * (a0 * (a0 * 1)));
        assert(vstd::arithmetic::power::pow(t.1, 3) == t.1 * (t.1 * (t.1 * 1)));
    } else {
        let m = (n - 1) as nat;
        lemma_abs_power(t, m);
        let p = atanh_power(t, n);
        crate::convergence::lemma_abs_scale_signed(p.0, t.0 * t.0);
        assert(atanh_power(t, n + 1) == rat_mul(p, rat_mul(t, t)));
    }
}

/// The atanh bound is non-negative with a positive denominator.
proof fn lemma_atanh_bound_nonneg(t: (int, int), n: nat)
    requires
        t.1 > 0,
        one_minus_square(t).0 > 0,
    ensures
        atanh_bound(t, n).1 > 0,
        atanh_bound(t, n).0 >= 0,
{
    lemma_atanh_bound_positive(t, n);
    lemma_abs_power(t, n);
    let tp = atanh_tail_power(t, n);
    assert(tp.0 >= 0);
    let num = rat_mul(rat_int(2), tp);
    let den = rat_mul(rat_int(sat_i64(2 * n + 3)), one_minus_square(t));
    assert(den.0 > 0 && den.1 > 0);
    assert(num.0 * den.1 >= 0) by (nonlinear_arith)
        requires
            num.0 == 2 * tp.0,
            tp.0 >= 0,
            den.1 > 0,
    ;
}

/// One step of the atanh budget: the step from `D(n)` to `D(n + 1)` plus
/// the bound at `n + 1` is within the bound at `n`.
pub proof fn lemma_atanh_step(t: (int, int), n: nat)
    requires
        t.1 > 0,
        one_minus_square(t).0 > 0,
    ensures
        rat_le(
            rat_add(
                rat_dist(atanh_doubled(t, n + 1), atanh_doubled(t, n)),
                atanh_bound(t, n + 1),
            ),
            atanh_bound(t, n),
        ),
{
    let two = rat_int(2);
    let sn = atanh_sum(t, n);
    let part = atanh_part(t, n + 1);
    let sn1 = atanh_sum(t, n + 1);
    lemma_atanh_positive_denominators(t, n);
    lemma_atanh_positive_denominators(t, n + 1);
    lemma_atanh_bound_nonneg(t, n);
    lemma_atanh_bound_nonneg(t, n + 1);
    assert(sn1 == rat_add(sn, part));
    // D(n+1) − D(n) ≡ part · 2
    let d1 = atanh_doubled(t, n + 1);
    let d0 = atanh_doubled(t, n);
    let x = rat_mul(part, two);
    lemma_scale_diff(sn1, sn, two);
    lemma_add_sub_cancel(sn, part);
    lemma_mul_congruent(rat_sub(sn1, sn), part, two, two);
    lemma_ops_keep_positive_denominator(sn1, sn);
    lemma_ops_keep_positive_denominator(rat_sub(sn1, sn), two);
    lemma_ops_keep_positive_denominator(d1, d0);
    lemma_ops_keep_positive_denominator(part, two);
    lemma_eqv_transitive(rat_sub(d1, d0), rat_mul(rat_sub(sn1, sn), two), x);
    lemma_abs_congruent(rat_sub(d1, d0), x);
    // |x| = (2u, v·σ) with (u, v) the tail power at n
    let tp = atanh_tail_power(t, n);
    let u: int = tp.0;
    let v: int = tp.1;
    let sg = sat_i64(2 * n + 3);
    assert(sat_i64(2 * (n + 1) + 1) == sg);
    lemma_abs_power(t, n);
    let pw = atanh_power(t, n + 1);
    assert(int_abs(pw.0) == u && pw.1 == v);
    assert(part == (pw.0 * 1, pw.1 * sg));
    crate::convergence::lemma_abs_scale_signed(pw.0, 2);
    let ax = (2 * u, v * sg);
    assert(rat_abs(x) == ax);
    // the bounds in closed form
    let a0: int = (int_abs(t.0) * int_abs(t.0)) as int;
    let a1: int = t.1 * t.1;
    let q = a1 - a0;
    let om = one_minus_square(t);
    assert(om == (1 * a1 - a0 * 1, 1 * a1));
    assert(q > 0);
    let sg2 = sat_i64(2 * (n + 1) + 3);
    assert(sg2 >= sg && sg >= 3);
    let b0 = atanh_bound(t, n);
    let b1 = atanh_bound(t, n + 1);
    assert(b0 == (2 * u * a1, v * (sg * q))) by {
        assert(rat_mul(rat_int(sg), om) == (sg * q, a1));
        assert(sg * q > 0) by (nonlinear_arith)
            requires
                sg >= 3,
                q > 0,
        ;
    }
    let tp1 = atanh_tail_power(t, n + 1);
    assert(tp1 == (u * a0, v * a1));
    assert(b1 == (2 * (u * a0) * a1, (v * a1) * (sg2 * q))) by {
        assert(rat_mul(rat_int(sg2), om) == (sg2 * q, a1));
        assert(sg2 * q > 0) by (nonlinear_arith)
            requires
                sg2 >= 3,
                q > 0,
        ;
    }
    // the inequality on integers
    assert(v > 0 && a1 > 0);
    assert(u >= 0 && a0 >= 0);
    lemma_atanh_closed_form(u, v, a0, a1, q, sg, sg2);
    // transport along the equivalences
    let dist = rat_dist(d1, d0);
    lemma_add_congruent(dist, ax, b1, b1);
    lemma_eqv_le(rat_add(dist, b1), rat_add(ax, b1));
    assert(dist.1 > 0);
    lemma_ops_keep_positive_denominator(dist, b1);
    assert(ax.1 > 0) by (nonlinear_arith)
        requires
            ax.1 == v * sg,
            v > 0,
            sg >= 3,
    ;
    lemma_ops_keep_positive_denominator(ax, b1);
    lemma_le_trans(rat_add(dist, b1), rat_add(ax, b1), b0);
}

/// `2u/(v·σ) + 2u·a₀·a₁/(v·a₁·σ'·q) ≤ 2u·a₁/(v·σ·q)` for `q = a₁ − a₀ > 0`,
/// `σ ≤ σ'`, `u, a₀ ≥ 0`, `v > 0`.
#[verifier::rlimit(40)]
proof fn lemma_atanh_closed_form(u: int, v: int, a0: int, a1: int, q: int, sg: int, sg2: int)
    requires
        u >= 0,
        v > 0,
        a0 >= 0,
        a1 > 0,
        q == a1 - a0,
        q > 0,
        3 <= sg <= sg2,
    ensures
        rat_le(
            rat_add((2 * u, v * sg), (2 * (u * a0) * a1, (v * a1) * (sg2 * q))),
            (2 * u * a1, v * (sg * q)),
        ),
{
    let c = 2 * u * v * a1;
    let l0 = (2 * u) * ((v * a1) * (sg2 * q)) + (2 * (u * a0) * a1) * (v * sg);
    let l1 = (v * sg) * ((v * a1) * (sg2 * q));
    let r0 = 2 * u * a1;
    let r1 = v * (sg * q);
    assert((2 * u) * ((v * a1) * (sg2 * q)) == c * (sg2 * q)) by (nonlinear_arith)
        requires
            c == 2 * u * v * a1,
    ;
    assert((2 * (u * a0) * a1) * (v * sg) == c * (a0 * sg)) by (nonlinear_arith)
        requires
            c == 2 * u * v * a1,
    ;
    vstd::arithmetic::mul::lemma_mul_is_distributive_add(c, sg2 * q, a0 * sg);
    assert(l0 == c * (sg2 * q + a0 * sg));
    let vsq = v * sg * q;
    lemma_seven_factors(2 * u, a1, v, sg, sg2, q);
    assert(c == ((2 * u) * v) * a1);
    assert(vsq == (v * sg) * q);
    assert(r0 * l1 == (c * (v * sg * q)) * (sg2 * a1));
    assert(l0 * r1 == (c * (v * sg * q)) * (sg2 * q + a0 * sg)) by (nonlinear_arith)
        requires
            l0 == c * (sg2 * q + a0 * sg),
            r1 == v * (sg * q),
    ;
    assert(sg2 * q + a0 * sg <= sg2 * a1) by (nonlinear_arith)
        requires
            q == a1 - a0,
            a0 >= 0,
            sg <= sg2,
    ;
    assert(c * (v * sg * q) >= 0) by (nonlinear_arith)
        requires
            c == 2 * u * v * a1,
            u >= 0,
            v > 0,
            a1 > 0,
            sg >= 3,
            q > 0,
    ;
    assert((c * (v * sg * q)) * (sg2 * q + a0 * sg) <= (c * (v * sg * q)) * (sg2 * a1))
        by (nonlinear_arith)
        requires
            sg2 * q + a0 * sg <= sg2 * a1,
            c * (v * sg * q) >= 0,
    ;
}

/// Below the cap, the modulus search stops at a bound below `eps`.
proof fn lemma_atanh_modulus_bound(t: (int, int), eps: (int, int), n: nat)
    requires
        atanh_modulus_from(t, eps, n) < MODULUS_HARD_CAP,
    ensures
        rat_lt(atanh_bound(t, atanh_modulus_from(t, eps, n)), eps),
    decreases MODULUS_HARD_CAP - n,
{
    if n < MODULUS_HARD_CAP && !rat_lt(atanh_bound(t, n), eps) {
        lemma_atanh_modulus_bound(t, eps, n + 1);
    }
}

/// Past the modulus of `2 · atanh(t)` at `eps` (when the search found one
/// below the cap), any two partial sums lie within `eps` of each other.
pub proof fn lemma_atanh_cauchy(t: Rational, eps: (int, int))
    requires
        eps.1 > 0,
        Cauchy::AtanhDoubled(t).spec_modulus(eps) < MODULUS_HARD_CAP,
    ensures
        cauchy_at(Cauchy::AtanhDoubled(t), eps),
{
    let c = Cauchy::AtanhDoubled(t);
    let tv = t@;
    lemma_den_positive(t);
    assert(eps.0 > 0 && one_minus_square(tv).0 > 0);
    let big_m = atanh_modulus_from(tv, eps, 0);
    assert(c.spec_modulus(eps) == big_m);
    lemma_atanh_modulus_bound(tv, eps, 0);
    let s = |n: nat| atanh_doubled(tv, n);
    let r = |n: nat| atanh_bound(tv, n);
    assert forall|n: nat| #![trigger s(n)] s(n).1 > 0 by {
        lemma_atanh_positive_denominators(tv, n);
    }
    assert forall|n: nat| #![trigger r(n)] r(n).1 > 0 && r(n).0 >= 0 by {
        lemma_atanh_bound_nonneg(tv, n);
    }
    assert(well_formed_budget(s, r));
    assert forall|n: nat| big_m <= n implies #[trigger] budget_step(s, r, n) by {
        lemma_atanh_step(tv, n);
    }
    assert forall|m: nat, k: nat|
        #![trigger c.spec_nth(m), c.spec_nth(k)]
        m >= c.spec_modulus(eps) && k >= c.spec_modulus(eps) implies rat_lt(
        rat_dist(c.spec_nth(m), c.spec_nth(k)),
        eps,
    ) by {
        lemma_budget_cauchy(s, r, big_m, eps, m, k);
    }
}

/// The magnitude of the Taylor term `x^{n+1} / (n+1)!` is the tail term
/// `|x|^{n+1} / (n+1)!`.
pub proof fn lemma_abs_exp_term(x: (int, int), n: nat)
    requires
        x.1 > 0,
    ensures
        rat_abs(exp_term(x, n + 1)) == exp_tail_term(rat_abs(x), n),
    decreases n,
{
    let a = rat_abs(x);
    assert(sat_i64(n + 1) >= 1);
    if n == 0 {
        assert(exp_term(x, 0) == rat_int(1));
        assert(exp_term(x, 1) == rat_div(rat_mul(rat_int(1), x), rat_int(sat_i64(1))));
        assert(sat_i64(1) == 1);
        assert(exp_term(x, 1) == (1 * x.0 * 1, 1 * x.1 * 1));
    } else {
        let m = (n - 1) as nat;
        lemma_abs_exp_term(x, m);
        let e = exp_term(x, n);
        let sg = sat_i64(n + 1);
        assert(exp_term(x, n + 1) == (e.0 * x.0 * 1, e.1 * x.1 * sg));
        crate::convergence::lemma_abs_scale_signed(e.0, x.0);
        crate::convergence::lemma_abs_scale_signed(e.0 * x.0, 1);
        assert(exp_tail_term(a, n) == rat_div(rat_mul(exp_tail_term(a, m), a), rat_int(sg)));
    }
}

/// The exp budget `2 · |x|^{n+1} / (n+1)!`.
pub open spec fn exp_budget(x: (int, int), n: nat) -> (int, int) {
    rat_mul(rat_int(2), exp_tail_term(rat_abs(x), n))
}

/// The terms at least halve from index `n + 1` on: `2|x| ≤ sat(n + 2)`.
pub open spec fn exp_terms_halve(x: (int, int), n: nat) -> bool {
    2 * int_abs(x.0) <= x.1 * sat_i64(n + 2)
}

/// The exp budget is non-negative with a positive denominator.
proof fn lemma_exp_budget_nonneg(x: (int, int), n: nat)
    requires
        x.1 > 0,
    ensures
        exp_budget(x, n).1 > 0,
        exp_budget(x, n).0 >= 0,
        exp_tail_term(rat_abs(x), n).0 >= 0,
{
    lemma_exp_bound_positive(x, n);
    lemma_abs_exp_term(x, n);
}

/// One step of the exp budget where the terms halve.
pub proof fn lemma_exp_step(x: (int, int), n: nat)
    requires
        x.1 > 0,
        exp_terms_halve(x, n),
    ensures
        rat_le(
            rat_add(rat_dist(exp_partial(x, n + 1), exp_partial(x, n)), exp_budget(x, n + 1)),
            exp_budget(x, n),
        ),
{
    let a = rat_abs(x);
    let s0 = exp_partial(x, n);
    let t1 = exp_term(x, n + 1);
    lemma_exp_positive_denominators(x, n);
    lemma_exp_positive_denominators(x, n + 1);
    lemma_exp_budget_nonneg(x, n);
    lemma_exp_budget_nonneg(x, n + 1);
    assert(exp_partial(x, n + 1) == rat_add(s0, t1));
    lemma_add_sub_cancel(s0, t1);
    lemma_ops_keep_positive_denominator(exp_partial(x, n + 1), s0);
    lemma_abs_congruent(rat_sub(exp_partial(x, n + 1), s0), t1);
    lemma_abs_exp_term(x, n);
    let tt = exp_tail_term(a, n);
    let u: int = tt.0;
    let v: int = tt.1;
    assert(rat_abs(t1) == tt);
    let sg = sat_i64(n + 2);
    let ax: int = int_abs(x.0) as int;
    assert(exp_tail_term(a, n + 1) == (u * ax * 1, v * x.1 * sg));
    let b0 = exp_budget(x, n);
    let b1 = exp_budget(x, n + 1);
    assert(b0 == (2 * u, 1 * v));
    assert(b1 == (2 * (u * ax * 1), 1 * (v * x.1 * sg)));
    lemma_exp_closed_form(u, v, ax, x.1, sg);
    let dist = rat_dist(exp_partial(x, n + 1), s0);
    lemma_add_congruent(dist, tt, b1, b1);
    lemma_eqv_le(rat_add(dist, b1), rat_add(tt, b1));
    lemma_ops_keep_positive_denominator(exp_partial(x, n + 1), s0);
    lemma_ops_keep_positive_denominator(dist, b1);
    lemma_ops_keep_positive_denominator(tt, b1);
    lemma_le_trans(rat_add(dist, b1), rat_add(tt, b1), b0);
}

/// `u/v + 2u·a/(v·x₁·σ) ≤ 2u/v` when `2a ≤ x₁·σ`, `u ≥ 0`, `v > 0`.
proof fn lemma_exp_closed_form(u: int, v: int, ax: int, x1: int, sg: int)
    requires
        u >= 0,
        v > 0,
        ax >= 0,
        x1 > 0,
        sg >= 1,
        2 * ax <= x1 * sg,
    ensures
        rat_le(rat_add((u, v), (2 * (u * ax * 1), 1 * (v * x1 * sg))), (2 * u, 1 * v)),
{
    let w = v * x1 * sg;
    let l0 = u * w + (2 * (u * ax)) * v;
    let l1 = v * w;
    assert(l0 == (u * v) * (x1 * sg + 2 * ax)) by (nonlinear_arith)
        requires
            w == v * x1 * sg,
            l0 == u * w + (2 * (u * ax)) * v,
    ;
    assert(l0 * v == ((u * v) * v) * (x1 * sg + 2 * ax)) by (nonlinear_arith)
        requires
            l0 == (u * v) * (x1 * sg + 2 * ax),
    ;
    assert((2 * u) * l1 == ((u * v) * v) * (2 * (x1 * sg))) by (nonlinear_arith)
        requires
            l1 == v * w,
            w == v * x1 * sg,
    ;
    assert((u * v) * v >= 0) by (nonlinear_arith)
        requires
            u >= 0,
            v > 0,
    ;
    assert(((u * v) * v) * (x1 * sg + 2 * ax) <= ((u * v) * v) * (2 * (x1 * sg)))
        by (nonlinear_arith)
        requires
            (u * v) * v >= 0,
            2 * ax <= x1 * sg,
    ;
}

/// A rearrangement of the product `x·a·v·s·t·q·v·a`.
#[verifier::rlimit(100)]
proof fn lemma_seven_factors(x: int, a: int, v: int, s: int, t: int, q: int)
    ensures
        (x * a) * ((v * s) * ((v * a) * (t * q))) == (((x * v) * a) * ((v * s) * q)) * (t * a),
{
    let vs = v * s;
    let va = v * a;
    let tq = t * q;
    let xa = x * a;
    // left: xa · (vs · (va · tq)) = (xa · va) · (vs · tq)
    lemma_mul_is_associative(vs, va, tq);
    lemma_mul_is_commutative(vs, va);
    lemma_mul_is_associative(va, vs, tq);
    lemma_mul_is_associative(xa, va, vs * tq);
    // xa · va = (x · v) · (a · a)
    lemma_swap4(x, a, v, a);
    // vs · tq = (v · s · q) · t
    lemma_swap4(v, s, t, q);
    lemma_mul_is_commutative(s, q);
    // (v·t)·(s·q) = ((v·s)·q)·t
    lemma_mul_is_associative(v, s, q);
    lemma_swap4(v, t, s, q);
    lemma_swap4(v, s, t, q);
    // right: ((x·v)·a · vsq) · (t·a)
    let xv = x * v;
    let vsq = vs * q;
    lemma_swap4(xv * a, vsq, t, a);
    lemma_mul_is_associative(xv, a, a);
    lemma_swap4(xv, a * a, vsq, t);
    lemma_mul_is_associative(xv, a, a);
    lemma_swap4(x, v, a, a);
    lemma_mul_is_commutative(vsq, t);
    assert(vs * tq == (v * t) * (s * q));
    assert((v * t) * (s * q) == vsq * t) by {
        lemma_mul_is_associative(v, t, s * q);
        lemma_mul_is_commutative(t, s * q);
        lemma_mul_is_associative(v, s * q, t);
        lemma_mul_is_associative(v, s, q);
    }
    assert((xa * va) * (vs * tq) == (xv * (a * a)) * (vsq * t));
    lemma_swap4(xv * a, vsq, a, t);
    lemma_mul_is_commutative(t, a);
    assert(((xv * a) * vsq) * (t * a) == ((xv * a) * a) * (vsq * t));
    lemma_mul_is_associative(xv, a, a);
}

/// `1ᵉ = 1` and `3ᵉ ≥ 3` for `e ≥ 1`.
proof fn lemma_small_pows(e: nat)
    ensures
        vstd::arithmetic::power::pow(1, e) == 1,
        e >= 1 ==> vstd::arithmetic::power::pow(3, e) >= 3,
    decreases e,
{
    reveal(vstd::arithmetic::power::pow);
    if e > 0 {
        lemma_small_pows((e - 1) as nat);
        if e >= 2 {
            assert(vstd::arithmetic::power::pow(3, e) == 3 * vstd::arithmetic::power::pow(
                3,
                (e - 1) as nat,
            ));
        } else {
            reveal_with_fuel(vstd::arithmetic::power::pow, 2);
        }
    }
}

/// The budget at `n` is within the Lagrange bound at `n`.
proof fn lemma_exp_budget_below_bound(x: (int, int), n: nat)
    requires
        x.1 > 0,
    ensures
        rat_le(exp_budget(x, n), exp_bound(x, n)),
{
    let a = rat_abs(x);
    let tt = exp_tail_term(a, n);
    lemma_exp_budget_nonneg(x, n);
    let e = sat_u32(spec_ceil_u64(a));
    lemma_small_pows(e);
    let p = vstd::arithmetic::power::pow(3, e);
    assert(exp_bound(x, n) == (tt.0 * p, tt.1 * 1));
    if tt.0 > 0 {
        lemma_abs_exp_term(x, n);
        // a non-zero tail means x ≠ 0, so ⌈|x|⌉ ≥ 1 and 3^⌈|x|⌉ ≥ 3
        if x.0 == 0 {
            lemma_zero_tail(x, n);
        }
        assert(a.0 >= 1);
        assert((a.0 + a.1 - 1) / a.1 >= 1) by {
            vstd::arithmetic::div_mod::lemma_div_is_ordered(a.1, a.0 + a.1 - 1, a.1);
            vstd::arithmetic::div_mod::lemma_div_by_self(a.1);
        }
        assert(spec_ceil(a) >= 1);
        assert(e >= 1);
        assert((2 * tt.0) * (tt.1 * 1) <= (tt.0 * p) * tt.1) by (nonlinear_arith)
            requires
                tt.0 > 0,
                tt.1 > 0,
                p >= 3,
        ;
    } else {
        assert(tt.0 == 0);
        assert((2 * tt.0) * (tt.1 * 1) <= (tt.0 * p) * tt.1) by (nonlinear_arith)
            requires
                tt.0 == 0,
        ;
    }
}

/// The tail terms of `x = 0` are zero.
proof fn lemma_zero_tail(x: (int, int), n: nat)
    requires
        x.0 == 0,
    ensures
        exp_tail_term(rat_abs(x), n).0 == 0,
    decreases n,
{
    if n > 0 {
        lemma_zero_tail(x, (n - 1) as nat);
        let prev = exp_tail_term(rat_abs(x), (n - 1) as nat);
        assert(prev.0 * 0 == 0) by (nonlinear_arith);
    }
}

/// Below the cap, the modulus search stops at a bound below `eps`.
proof fn lemma_exp_modulus_bound(x: (int, int), eps: (int, int), n: nat)
    requires
        exp_modulus_from(x, eps, n) < MODULUS_HARD_CAP,
    ensures
        rat_lt(exp_bound(x, exp_modulus_from(x, eps, n)), eps),
    decreases MODULUS_HARD_CAP - n,
{
    if n < MODULUS_HARD_CAP && !rat_lt(exp_bound(x, n), eps) {
        lemma_exp_modulus_bound(x, eps, n + 1);
    }
}

/// Past the modulus of `exp(x)` at `eps` (when the search found one below
/// the cap, at a point where the Taylor terms at least halve, that is
/// `2|x| ≤ M + 2`), any two partial sums lie within `eps` of each other.
pub proof fn lemma_exp_cauchy(x: Rational, eps: (int, int))
    requires
        eps.1 > 0,
        Cauchy::Exp(x).spec_modulus(eps) < MODULUS_HARD_CAP,
        exp_terms_halve(x@, Cauchy::Exp(x).spec_modulus(eps)),
    ensures
        cauchy_at(Cauchy::Exp(x), eps),
{
    let c = Cauchy::Exp(x);
    let xv = x@;
    lemma_den_positive(x);
    assert(eps.0 > 0);
    let big_m = exp_modulus_from(xv, eps, 0);
    assert(c.spec_modulus(eps) == big_m);
    lemma_exp_modulus_bound(xv, eps, 0);
    lemma_exp_budget_below_bound(xv, big_m);
    lemma_exp_budget_nonneg(xv, big_m);
    lemma_exp_bound_positive(xv, big_m);
    crate::convergence::lemma_le_lt_trans(exp_budget(xv, big_m), exp_bound(xv, big_m), eps);
    let s = |n: nat| exp_partial(xv, n);
    let r = |n: nat| exp_budget(xv, n);
    assert forall|n: nat| #![trigger s(n)] s(n).1 > 0 by {
        lemma_exp_positive_denominators(xv, n);
    }
    assert forall|n: nat| #![trigger r(n)] r(n).1 > 0 && r(n).0 >= 0 by {
        lemma_exp_budget_nonneg(xv, n);
    }
    assert(well_formed_budget(s, r));
    assert forall|n: nat| big_m <= n implies #[trigger] budget_step(s, r, n) by {
        assert(sat_i64(n + 2) >= sat_i64(big_m + 2));
        assert(xv.1 * sat_i64(big_m + 2) <= xv.1 * sat_i64(n + 2)) by (nonlinear_arith)
            requires
                sat_i64(n + 2) >= sat_i64(big_m + 2),
                xv.1 > 0,
        ;
        lemma_exp_step(xv, n);
    }
    assert forall|m: nat, k: nat|
        #![trigger c.spec_nth(m), c.spec_nth(k)]
        m >= c.spec_modulus(eps) && k >= c.spec_modulus(eps) implies rat_lt(
        rat_dist(c.spec_nth(m), c.spec_nth(k)),
        eps,
    ) by {
        lemma_budget_cauchy(s, r, big_m, eps, m, k);
    }
}

/// `k!`.
pub open spec fn factorial(k: nat) -> nat
    decreases k,
{
    if k == 0 {
        1
    } else {
        k * factorial((k - 1) as nat)
    }
}

/// Bernoulli: `(m + 1)^j ≥ m^j + j·m^{j−1}` for `j ≥ 1`, `m ≥ 1`.
proof fn lemma_bernoulli(m: nat, j: nat)
    requires
        m >= 1,
        j >= 1,
    ensures
        pow((m + 1) as int, j) >= pow(m as int, j) + j * pow(m as int, (j - 1) as nat),
    decreases j,
{
    reveal(pow);
    if j == 1 {
        assert(pow(m as int, 0) == 1);
        assert(pow(m as int, 1) == m * pow(m as int, 0));
        assert(pow((m + 1) as int, 1) == (m + 1) * pow((m + 1) as int, 0));
    } else {
        let i = (j - 1) as nat;
        lemma_bernoulli(m, i);
        let p = pow(m as int, i);
        let pm = pow(m as int, (i - 1) as nat);
        let q = pow((m + 1) as int, i);
        assert(pow((m + 1) as int, j) == (m + 1) * q);
        assert(pow(m as int, j) == m * p);
        assert(p == m * pm);
        vstd::arithmetic::power::lemma_pow_positive(m as int, (i - 1) as nat);
        assert((m + 1) * q >= (m + 1) * (p + i * pm)) by (nonlinear_arith)
            requires
                q >= p + i * pm,
                m >= 1,
        ;
        assert((m + 1) * (p + i * pm) >= m * p + j * p) by (nonlinear_arith)
            requires
                p == m * pm,
                pm > 0,
                m >= 1,
                j == i + 1,
        ;
    }
}

/// `(k + 1)^k ≥ 2^k · k!` for `k ≥ 1`.
proof fn lemma_power_over_factorial(k: nat)
    requires
        k >= 1,
    ensures
        pow((k + 1) as int, k) >= pow(2, k) * factorial(k),
    decreases k,
{
    reveal(pow);
    if k == 1 {
        reveal_with_fuel(pow, 2);
        assert(factorial(1) == 1 * factorial(0));
    } else {
        let i = (k - 1) as nat;
        lemma_power_over_factorial(i);
        // (i + 2)^{i+1} ≥ 2·(i + 1)^{i+1} = 2·(i + 1)·(i + 1)^i ≥ 2^{i+1}·(i + 1)!
        lemma_bernoulli(i + 1, i + 1);
        let a = pow((i + 1) as int, i);
        assert(pow((i + 1) as int, i + 1) == (i + 1) * a);
        assert(pow(2, k) == 2 * pow(2, i));
        assert(factorial(k) == k * factorial(i));
        assert(pow((k + 1) as int, k) >= 2 * ((i + 1) * a));
        assert(a >= pow(2, i) * factorial(i));
        assert(2 * ((i + 1) * a) >= pow(2, k) * factorial(k)) by (nonlinear_arith)
            requires
                a >= pow(2, i) * factorial(i),
                pow(2, k) == 2 * pow(2, i),
                factorial(k) == k * factorial(i),
                k == i + 1,
        ;
    }
}

/// Bases in order give powers in order.
proof fn lemma_pow_base_le(b1: int, b2: int, e: nat)
    requires
        0 <= b1 <= b2,
    ensures
        0 <= pow(b1, e) <= pow(b2, e),
    decreases e,
{
    reveal(pow);
    if e > 0 {
        lemma_pow_base_le(b1, b2, (e - 1) as nat);
        let p1 = pow(b1, (e - 1) as nat);
        let p2 = pow(b2, (e - 1) as nat);
        assert(b1 * p1 <= b2 * p2 && 0 <= b1 * p1) by (nonlinear_arith)
            requires
                0 <= b1 <= b2,
                0 <= p1 <= p2,
        ;
    }
}

/// Below the cap, the tail term is `Xⁿ⁺¹ / (Yⁿ⁺¹ · (n+1)!)` for `x = ±X/Y`.
proof fn lemma_tail_closed(x: (int, int), n: nat)
    requires
        x.1 > 0,
        n < MODULUS_HARD_CAP,
    ensures
        exp_tail_term(rat_abs(x), n) == (
            pow(int_abs(x.0) as int, n + 1),
            pow(x.1, n + 1) * factorial(n + 1),
        ),
    decreases n,
{
    reveal(pow);
    let a = rat_abs(x);
    if n == 0 {
        reveal_with_fuel(pow, 2);
        assert(factorial(1) == 1 * factorial(0));
    } else {
        let m = (n - 1) as nat;
        lemma_tail_closed(x, m);
        assert(sat_i64(n + 1) == n + 1);
        let p0 = pow(int_abs(x.0) as int, n);
        let p1 = pow(x.1, n);
        assert(exp_tail_term(a, n) == ((p0 * int_abs(x.0)) * 1, (p1 * factorial(n)) * x.1 * (n + 1)));
        assert(pow(int_abs(x.0) as int, n + 1) == int_abs(x.0) * p0);
        assert(pow(x.1, n + 1) == x.1 * p1);
        assert(factorial(n + 1) == (n + 1) * factorial(n));
        assert((p1 * factorial(n)) * x.1 * (n + 1) == (x.1 * p1) * ((n + 1) * factorial(n)))
            by (nonlinear_arith);
        assert((p0 * int_abs(x.0)) * 1 == int_abs(x.0) * p0) by (nonlinear_arith);
    }
}

/// When the tolerance is at most 1, the exp modulus found below the cap
/// lies where the Taylor terms at least halve: before that point the
/// tail term is at least 1, so its bound is not below the tolerance.
pub proof fn lemma_exp_modulus_halves(x: (int, int), eps: (int, int))
    requires
        x.1 > 0,
        0 < eps.0 <= eps.1,
        spec_exp_modulus(x, eps) < MODULUS_HARD_CAP,
    ensures
        exp_terms_halve(x, spec_exp_modulus(x, eps)),
{
    let big_m = exp_modulus_from(x, eps, 0);
    lemma_exp_modulus_bound(x, eps, 0);
    assert(sat_i64(big_m + 2) == big_m + 2);
    if !exp_terms_halve(x, big_m) {
        let xx: int = int_abs(x.0) as int;
        let y = x.1;
        let k = big_m + 1;
        // 2X ≥ Y·(k+1), so (2X)^k ≥ (Y·(k+1))^k ≥ Y^k · 2^k · k!
        lemma_pow_base_le(y * (k + 1), 2 * xx, k);
        vstd::arithmetic::power::lemma_pow_distributes(y, (k + 1) as int, k);
        vstd::arithmetic::power::lemma_pow_distributes(2, xx, k);
        lemma_power_over_factorial(k);
        vstd::arithmetic::power::lemma_pow_positive(y, k);
        vstd::arithmetic::power::lemma_pow_positive(2, k);
        let py = pow(y, k);
        let p2 = pow(2, k);
        let px = pow(xx, k);
        let pk = pow((k + 1) as int, k);
        let f = factorial(k) as int;
        assert(p2 * px >= py * pk);
        assert(py * pk >= py * (p2 * f)) by (nonlinear_arith)
            requires
                pk >= p2 * f,
                py > 0,
        ;
        assert(px >= py * f) by (nonlinear_arith)
            requires
                p2 * px >= py * (p2 * f),
                p2 > 0,
        ;
        // the bound at M is then at least 1
        lemma_tail_closed(x, big_m);
        lemma_exp_budget_below_bound(x, big_m);
        lemma_exp_budget_nonneg(x, big_m);
        lemma_exp_bound_positive(x, big_m);
        let tt = exp_tail_term(rat_abs(x), big_m);
        assert(tt == (px, py * f));
        let b = exp_bound(x, big_m);
        let bud = exp_budget(x, big_m);
        assert(bud == (2 * px, 1 * (py * f)));
        assert(b.0 * bud.1 >= bud.0 * b.1);
        assert(b.0 >= b.1) by (nonlinear_arith)
            requires
                b.0 * bud.1 >= bud.0 * b.1,
                bud == (2 * px, 1 * (py * f)),
                px >= py * f,
                py * f > 0,
                b.1 > 0,
        ;
        assert(b.0 * eps.1 >= eps.0 * b.1) by (nonlinear_arith)
            requires
                b.0 >= b.1,
                b.1 > 0,
                0 < eps.0 <= eps.1,
        ;
    }
}

/// Where the convergence law is proved for `c` at tolerance `eps`: a base
/// sequence whose modulus search ended below the cap (for `exp(x)`, at a
/// point where its terms at least halve), and a composite whose parts are
/// so at the tolerances its modulus asks of them.
pub open spec fn modulus_proved(c: Cauchy, eps: (int, int)) -> bool
    decreases c,
{
    match c {
        Cauchy::Exp(x) => c.spec_modulus(eps) < MODULUS_HARD_CAP && (exp_terms_halve(
            x@,
            c.spec_modulus(eps),
        ) || eps.0 <= eps.1),
        Cauchy::AtanhDoubled(_) => c.spec_modulus(eps) < MODULUS_HARD_CAP,
        Cauchy::Scaled(inner, s) => s@.0 == 0 || modulus_proved(*inner, rat_div(eps, rat_abs(s@))),
        Cauchy::Sum(a, b) => modulus_proved(*a, half(eps)) && modulus_proved(*b, half(eps)),
        Cauchy::Difference(a, b) => modulus_proved(*a, half(eps)) && modulus_proved(*b, half(eps)),
    }
}

/// The convergence law: past the modulus at a positive tolerance `eps`,
/// any two terms of `c` lie within `eps` of each other.
pub proof fn lemma_cauchy_law(c: Cauchy, eps: (int, int))
    requires
        eps.0 > 0,
        eps.1 > 0,
        modulus_proved(c, eps),
    ensures
        cauchy_at(c, eps),
    decreases c,
{
    match c {
        Cauchy::Exp(x) => {
            lemma_den_positive(x);
            if !exp_terms_halve(x@, c.spec_modulus(eps)) {
                lemma_exp_modulus_halves(x@, eps);
            }
            lemma_exp_cauchy(x, eps);
        },
        Cauchy::AtanhDoubled(t) => {
            lemma_atanh_cauchy(t, eps);
        },
        Cauchy::Scaled(inner, s) => {
            lemma_den_positive(s);
            if s@.0 != 0 {
                let e2 = rat_div(eps, rat_abs(s@));
                assert(int_abs(s@.0) > 0);
                assert(e2.0 > 0 && e2.1 > 0) by (nonlinear_arith)
                    requires
                        e2 == (eps.0 * s@.1, eps.1 * int_abs(s@.0)),
                        eps.0 > 0,
                        eps.1 > 0,
                        s@.1 > 0,
                        int_abs(s@.0) > 0,
                ;
                lemma_cauchy_law(*inner, e2);
            }
            lemma_scaled_cauchy(*inner, s, eps);
        },
        Cauchy::Sum(a, b) => {
            lemma_cauchy_law(*a, half(eps));
            lemma_cauchy_law(*b, half(eps));
            lemma_sum_cauchy(*a, *b, eps);
        },
        Cauchy::Difference(a, b) => {
            lemma_cauchy_law(*a, half(eps));
            lemma_cauchy_law(*b, half(eps));
            lemma_difference_cauchy(*a, *b, eps);
        },
    }
}

} // verus!
