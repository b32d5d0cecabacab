//! The elementary functions `exp` and `ln` over the rationals, as Cauchy
//! sequences with explicit moduli of convergence, and the binary operator
//! `eml(x, y) = exp(x) − ln(y)`.
//!
//! `exp(x)` is the Taylor series `Σ_{k≥0} xᵏ / k!`, truncated where the
//! Lagrange bound `|x|^{N+1} / (N+1)! · 3^⌈|x|⌉` falls below the tolerance.
//! `ln(x)`, `x > 0`, reduces `x = 2ᵐ · y` with `y ∈ [1, 2)` and sums
//! `ln(y) = 2 · Σ_{k≥0} t^{2k+1} / (2k+1)` with `t = (y − 1)/(y + 1)`.

use crate::cauchy::Cauchy;
use crate::integer::Int;
use crate::rational::{
    lemma_div_congruent, lemma_eqv_transitive, lemma_mul_congruent, lemma_add_congruent,
    lemma_ops_keep_positive_denominator, rat_abs, rat_add, rat_div, rat_eqv, rat_int, rat_lt,
    rat_mul, rat_pow, rat_sub, rational_text, Rational,
};
use vstd::arithmetic::power::pow;
use vstd::prelude::*;

verus! {

/// The modulus search gives up at this many terms.
pub const MODULUS_HARD_CAP: u64 = 1_000_000;

/// Errors of the elementary functions.
#[derive(Clone, Debug, PartialEq, Eq)]
pub enum ElementaryError {
    /// `ln(x)` was asked for with `x ≤ 0`; the text is `x`.
    NonPositiveLog(String),
}

/// `n` clamped to `i64::MAX`.
pub open spec fn sat_i64(n: nat) -> int {
    if n <= i64::MAX {
        n as int
    } else {
        i64::MAX as int
    }
}

/// `n` clamped to `u32::MAX`.
pub open spec fn sat_u32(n: nat) -> nat {
    if n <= u32::MAX {
        n
    } else {
        u32::MAX as nat
    }
}

/// `n` as an `i64`, saturating at `i64::MAX`.
pub fn i64_from_u64_saturating(n: u64) -> (r: i64)
    ensures
        r == sat_i64(n as nat),
{
    if n <= i64::MAX as u64 {
        n as i64
    } else {
        i64::MAX
    }
}

/// `n` as a `u32`, saturating at `u32::MAX`.
pub fn u32_from_u64_saturating(n: u64) -> (r: u32)
    ensures
        r == sat_u32(n as nat),
{
    if n <= u32::MAX as u64 {
        n as u32
    } else {
        u32::MAX
    }
}

// ─── exp ─────────────────────────────────────────────────────────────

/// The Taylor term `xᵏ / k!`, by `t_k = t_{k−1} · x / k` (with `k`
/// clamped to `i64::MAX`).
pub open spec fn exp_term(x: (int, int), k: nat) -> (int, int)
    decreases k,
{
    if k == 0 {
        rat_int(1)
    } else {
        rat_div(rat_mul(exp_term(x, (k - 1) as nat), x), rat_int(sat_i64(k)))
    }
}

/// The partial sum `Σ_{k=0}^{n} xᵏ / k!`.
pub open spec fn exp_partial(x: (int, int), n: nat) -> (int, int)
    decreases n,
{
    if n == 0 {
        rat_int(1)
    } else {
        rat_add(exp_partial(x, (n - 1) as nat), exp_term(x, n))
    }
}

/// The Taylor terms and partial sums keep positive denominators.
pub proof fn lemma_exp_positive_denominators(x: (int, int), k: nat)
    requires
        x.1 > 0,
    ensures
        exp_term(x, k).1 > 0,
        exp_partial(x, k).1 > 0,
    decreases k,
{
    if k > 0 {
        lemma_exp_positive_denominators(x, (k - 1) as nat);
        lemma_ops_keep_positive_denominator(exp_term(x, (k - 1) as nat), x);
        lemma_ops_keep_positive_denominator(
            rat_mul(exp_term(x, (k - 1) as nat), x),
            rat_int(sat_i64(k)),
        );
        lemma_ops_keep_positive_denominator(exp_partial(x, (k - 1) as nat), exp_term(x, k));
    }
}

/// `Σ_{k=0}^{n} xᵏ / k!`.
pub fn exp_partial_sum(x: &Rational, n: u64) -> (r: Rational)
    ensures
        rat_eqv(r@, exp_partial(x@, n as nat)),
        r@.1 > 0,
{
    proof {
        crate::rational::lemma_den_positive(*x);
    }
    let mut acc = Rational::one();
    let mut term = Rational::one();
    let mut k: u64 = 0;
    while k < n
        invariant
            k <= n,
            x@.1 > 0,
            rat_eqv(acc@, exp_partial(x@, k as nat)),
            rat_eqv(term@, exp_term(x@, k as nat)),
            acc@.1 > 0,
            term@.1 > 0,
        decreases n - k,
    {
        k = k + 1;
        let prod = term.mul(x);
        let k_rat = Rational::from_int(i64_from_u64_saturating(k));
        let next = match prod.checked_div(&k_rat) {
            Some(q) => q,
            None => Rational::zero(),
        };
        proof {
            let kk = k as nat;
            lemma_exp_positive_denominators(x@, (kk - 1) as nat);
            lemma_exp_positive_denominators(x@, kk);
            let t0 = exp_term(x@, (kk - 1) as nat);
            lemma_mul_congruent(term@, t0, x@, x@);
            lemma_ops_keep_positive_denominator(term@, x@);
            lemma_ops_keep_positive_denominator(t0, x@);
            lemma_eqv_transitive(prod@, rat_mul(term@, x@), rat_mul(t0, x@));
            lemma_div_congruent(prod@, rat_mul(t0, x@), k_rat@, k_rat@);
            lemma_ops_keep_positive_denominator(prod@, k_rat@);
            lemma_eqv_transitive(next@, rat_div(prod@, k_rat@), exp_term(x@, kk));
        }
        let sum = acc.add(&next);
        proof {
            let kk = k as nat;
            let p0 = exp_partial(x@, (kk - 1) as nat);
            lemma_add_congruent(acc@, p0, next@, exp_term(x@, kk));
            lemma_ops_keep_positive_denominator(acc@, next@);
            lemma_eqv_transitive(sum@, rat_add(acc@, next@), exp_partial(x@, kk));
        }
        acc = sum;
        term = next;
    }
    acc
}


/// `⌈x⌉` for `x ≥ 0` (and `0` for `x ≤ 0`), from the pair `x`.
pub open spec fn spec_ceil(x: (int, int)) -> int {
    if x.0 <= 0 {
        0
    } else {
        (x.0 + x.1 - 1) / x.1
    }
}

/// `⌈|x|⌉` as a `u64`, saturating at `u64::MAX`.
pub open spec fn spec_ceil_u64(x: (int, int)) -> nat {
    if spec_ceil(x) <= u64::MAX {
        spec_ceil(x) as nat
    } else {
        u64::MAX as nat
    }
}

/// `⌈x⌉` of a non-negative rational as a `u64`, saturating.
pub fn ceil_to_u64(abs_x: &Rational) -> (r: u64)
    ensures
        r == spec_ceil_u64(abs_x@),
{
    proof {
        crate::rational::lemma_den_positive(*abs_x);
    }
    if abs_x.signum() == 0 {
        return 0;
    }
    let numer = abs_x.numer();
    let denom = abs_x.denom();
    if numer.signum() < 0 {
        return 0;
    }
    let one = Int::from_i64(1);
    let q = numer.add(denom).sub(&one).div_floor(denom);
    match q.to_u64() {
        Some(v) => v,
        None => u64::MAX,
    }
}

/// `|x|^{n+1} / (n+1)!`, by `t_n = t_{n−1} · |x| / (n+1)`.
pub open spec fn exp_tail_term(a: (int, int), n: nat) -> (int, int)
    decreases n,
{
    if n == 0 {
        a
    } else {
        rat_div(rat_mul(exp_tail_term(a, (n - 1) as nat), a), rat_int(sat_i64(n + 1)))
    }
}

/// The Lagrange bound after `n + 1` terms:
/// `|x|^{n+1} / (n+1)! · 3^⌈|x|⌉`.
pub open spec fn exp_bound(x: (int, int), n: nat) -> (int, int) {
    rat_mul(
        exp_tail_term(rat_abs(x), n),
        rat_pow(rat_int(3), sat_u32(spec_ceil_u64(rat_abs(x)))),
    )
}

/// The first `m ≥ n` below the cap whose bound is below `eps`; the cap
/// when there is none.
pub open spec fn exp_modulus_from(x: (int, int), eps: (int, int), n: nat) -> nat
    decreases MODULUS_HARD_CAP - n,
{
    if n >= MODULUS_HARD_CAP {
        MODULUS_HARD_CAP as nat
    } else if rat_lt(exp_bound(x, n), eps) {
        n
    } else {
        exp_modulus_from(x, eps, n + 1)
    }
}

/// The modulus of `exp(x)` at tolerance `eps`: `u64::MAX` for `eps ≤ 0`.
pub open spec fn spec_exp_modulus(x: (int, int), eps: (int, int)) -> nat {
    if eps.0 <= 0 {
        u64::MAX as nat
    } else {
        exp_modulus_from(x, eps, 0)
    }
}

/// The bound's terms keep positive denominators.
pub proof fn lemma_exp_bound_positive(x: (int, int), n: nat)
    requires
        x.1 > 0,
    ensures
        exp_tail_term(rat_abs(x), n).1 > 0,
        exp_bound(x, n).1 > 0,
    decreases n,
{
    let a = rat_abs(x);
    if n > 0 {
        lemma_exp_bound_positive(x, (n - 1) as nat);
        lemma_ops_keep_positive_denominator(exp_tail_term(a, (n - 1) as nat), a);
        lemma_ops_keep_positive_denominator(
            rat_mul(exp_tail_term(a, (n - 1) as nat), a),
            rat_int(sat_i64(n + 1)),
        );
    }
    let e = sat_u32(spec_ceil_u64(a));
    vstd::arithmetic::power::lemma_pow_positive(1, e);
    lemma_ops_keep_positive_denominator(exp_tail_term(a, n), rat_pow(rat_int(3), e));
}

/// Smallest `N` with `|x|^{N+1} / (N+1)! · 3^⌈|x|⌉ < eps`, searching up to
/// [`MODULUS_HARD_CAP`]; `u64::MAX` when `eps ≤ 0`.
pub fn find_exp_modulus(x: &Rational, eps: &Rational) -> (r: u64)
    ensures
        r == spec_exp_modulus(x@, eps@),
{
    proof {
        crate::rational::lemma_den_positive(*x);
    }
    proof {
        crate::rational::lemma_den_positive(*eps);
    }
    if eps.signum() <= 0 {
        return u64::MAX;
    }
    let abs_x = x.abs();
    let ceil_abs_x: u64 = ceil_to_u64(&abs_x);
    let bound_e = Rational::from_int(3).pow_u32(u32_from_u64_saturating(ceil_abs_x));
    let ghost e = sat_u32(spec_ceil_u64(rat_abs(x@)));
    let mut term = abs_x.duplicate();
    let mut n: u64 = 0;
    proof {
        vstd::arithmetic::power::lemma_pow_positive(1, e);
        vstd::arithmetic::power::lemma_pow1(1);
    }
    loop
        invariant
            n < MODULUS_HARD_CAP,
            x@.1 > 0,
            eps@.1 > 0,
            eps@.0 > 0,
            abs_x@ == rat_abs(x@),
            rat_eqv(bound_e@, rat_pow(rat_int(3), e)),
            bound_e@.1 > 0,
            rat_pow(rat_int(3), e).1 > 0,
            rat_eqv(term@, exp_tail_term(rat_abs(x@), n as nat)),
            term@.1 > 0,
            e == sat_u32(spec_ceil_u64(rat_abs(x@))),
            exp_modulus_from(x@, eps@, 0) == exp_modulus_from(x@, eps@, n as nat),
        decreases MODULUS_HARD_CAP - n,
    {
        let bound = term.mul(&bound_e);
        proof {
            lemma_exp_bound_positive(x@, n as nat);
            lemma_mul_congruent(
                term@,
                exp_tail_term(rat_abs(x@), n as nat),
                bound_e@,
                rat_pow(rat_int(3), e),
            );
            lemma_ops_keep_positive_denominator(term@, bound_e@);
            lemma_eqv_transitive(bound@, rat_mul(term@, bound_e@), exp_bound(x@, n as nat));
            crate::rational::lemma_lt_congruent(bound@, exp_bound(x@, n as nat), eps@, eps@);
        }
        if bound.lt(eps) {
            proof {
                assert(rat_lt(exp_bound(x@, n as nat), eps@));
                assert(exp_modulus_from(x@, eps@, n as nat) == n);
            }
            return n;
        }
        proof {
            assert(!rat_lt(exp_bound(x@, n as nat), eps@));
            assert(exp_modulus_from(x@, eps@, n as nat) == exp_modulus_from(
                x@,
                eps@,
                (n + 1) as nat,
            ));
        }
        n = n + 1;
        if n >= MODULUS_HARD_CAP {
            proof {
                assert(exp_modulus_from(x@, eps@, n as nat) == MODULUS_HARD_CAP);
            }
            return n;
        }
        let prod = term.mul(&abs_x);
        let k_plus_1 = Rational::from_int(i64_from_u64_saturating(n + 1));
        let next = match prod.checked_div(&k_plus_1) {
            Some(q) => q,
            None => Rational::zero(),
        };
        proof {
            let a = rat_abs(x@);
            let t0 = exp_tail_term(a, (n - 1) as nat);
            lemma_exp_bound_positive(x@, (n - 1) as nat);
            lemma_exp_bound_positive(x@, n as nat);
            lemma_mul_congruent(term@, t0, abs_x@, a);
            lemma_ops_keep_positive_denominator(term@, abs_x@);
            lemma_ops_keep_positive_denominator(t0, a);
            lemma_eqv_transitive(prod@, rat_mul(term@, abs_x@), rat_mul(t0, a));
            lemma_div_congruent(prod@, rat_mul(t0, a), k_plus_1@, k_plus_1@);
            lemma_ops_keep_positive_denominator(prod@, k_plus_1@);
            lemma_eqv_transitive(next@, rat_div(prod@, k_plus_1@), exp_tail_term(a, n as nat));
        }
        term = next;
    }
}

/// The modulus of `exp(x)` depends only on the value of the tolerance.
pub proof fn lemma_exp_modulus_eqv(x: (int, int), eps: (int, int), eps2: (int, int))
    requires
        x.1 > 0,
        eps.1 > 0,
        eps2.1 > 0,
        rat_eqv(eps, eps2),
    ensures
        spec_exp_modulus(x, eps) == spec_exp_modulus(x, eps2),
{
    if eps.0 > 0 && eps2.0 <= 0 {
        assert(eps.0 * eps2.1 > 0 && eps2.0 * eps.1 <= 0) by (nonlinear_arith)
            requires
                eps.0 > 0,
                eps2.0 <= 0,
                eps.1 > 0,
                eps2.1 > 0,
        ;
    }
    if eps.0 <= 0 && eps2.0 > 0 {
        assert(eps.0 * eps2.1 <= 0 && eps2.0 * eps.1 > 0) by (nonlinear_arith)
            requires
                eps.0 <= 0,
                eps2.0 > 0,
                eps.1 > 0,
                eps2.1 > 0,
        ;
    }
    lemma_exp_modulus_from_eqv(x, eps, eps2, 0);
}

/// The search from `n` on depends only on the value of the tolerance.
proof fn lemma_exp_modulus_from_eqv(x: (int, int), eps: (int, int), eps2: (int, int), n: nat)
    requires
        x.1 > 0,
        eps.1 > 0,
        eps2.1 > 0,
        rat_eqv(eps, eps2),
    ensures
        exp_modulus_from(x, eps, n) == exp_modulus_from(x, eps2, n),
    decreases MODULUS_HARD_CAP - n,
{
    if n < MODULUS_HARD_CAP {
        lemma_exp_bound_positive(x, n);
        crate::rational::lemma_lt_congruent(exp_bound(x, n), exp_bound(x, n), eps, eps2);
        lemma_exp_modulus_from_eqv(x, eps, eps2, n + 1);
    }
}


// ─── atanh series ────────────────────────────────────────────────────

/// `t^{2k+1}`, by `p_k = p_{k−1} · t²`.
pub open spec fn atanh_power(t: (int, int), k: nat) -> (int, int)
    decreases k,
{
    if k == 0 {
        t
    } else {
        rat_mul(atanh_power(t, (k - 1) as nat), rat_mul(t, t))
    }
}

/// `t^{2k+1} / (2k+1)`.
pub open spec fn atanh_part(t: (int, int), k: nat) -> (int, int) {
    rat_div(atanh_power(t, k), rat_int(sat_i64(2 * k + 1)))
}

/// `Σ_{k=0}^{n} t^{2k+1} / (2k+1)`.
pub open spec fn atanh_sum(t: (int, int), n: nat) -> (int, int)
    decreases n,
{
    if n == 0 {
        rat_add(rat_int(0), atanh_part(t, 0))
    } else {
        rat_add(atanh_sum(t, (n - 1) as nat), atanh_part(t, n))
    }
}

/// `2 · Σ_{k=0}^{n} t^{2k+1} / (2k+1)`.
pub open spec fn atanh_doubled(t: (int, int), n: nat) -> (int, int) {
    rat_mul(atanh_sum(t, n), rat_int(2))
}

/// The atanh terms and sums keep positive denominators.
pub proof fn lemma_atanh_positive_denominators(t: (int, int), k: nat)
    requires
        t.1 > 0,
    ensures
        atanh_power(t, k).1 > 0,
        atanh_part(t, k).1 > 0,
        atanh_sum(t, k).1 > 0,
        atanh_doubled(t, k).1 > 0,
    decreases k,
{
    lemma_ops_keep_positive_denominator(t, t);
    if k > 0 {
        lemma_atanh_positive_denominators(t, (k - 1) as nat);
        lemma_ops_keep_positive_denominator(atanh_power(t, (k - 1) as nat), rat_mul(t, t));
    }
    lemma_ops_keep_positive_denominator(atanh_power(t, k), rat_int(sat_i64(2 * k + 1)));
    if k > 0 {
        lemma_ops_keep_positive_denominator(atanh_sum(t, (k - 1) as nat), atanh_part(t, k));
    } else {
        lemma_ops_keep_positive_denominator(rat_int(0), atanh_part(t, 0));
    }
    lemma_ops_keep_positive_denominator(atanh_sum(t, k), rat_int(2));
}

/// `2 · Σ_{k=0}^{n} t^{2k+1} / (2k+1)`, for `n < 2⁶³` (so that `2n + 1`
/// fits in `u64`).
pub fn atanh_partial_sum(t: &Rational, n: u64) -> (r: Rational)
    requires
        n < 0x8000_0000_0000_0000,
    ensures
        rat_eqv(r@, atanh_doubled(t@, n as nat)),
        r@.1 > 0,
{
    proof {
        crate::rational::lemma_den_positive(*t);
    }
    let t2 = t.mul(t);
    let mut acc = Rational::zero();
    let mut term = t.duplicate();
    let mut denom_index: u64 = 1;
    let mut k: u64 = 0;
    proof {
        lemma_ops_keep_positive_denominator(t@, t@);
    }
    loop
        invariant_except_break
            k == 0 ==> acc@ == rat_int(0),
            k > 0 ==> rat_eqv(acc@, atanh_sum(t@, (k - 1) as nat)),
        invariant
            k <= n < 0x8000_0000_0000_0000,
            t@.1 > 0,
            denom_index == 2 * k + 1,
            rat_eqv(t2@, rat_mul(t@, t@)),
            t2@.1 > 0,
            rat_mul(t@, t@).1 > 0,
            rat_eqv(term@, atanh_power(t@, k as nat)),
            term@.1 > 0,
            acc@.1 > 0,
        ensures
            rat_eqv(acc@, atanh_sum(t@, n as nat)),
            acc@.1 > 0,
        decreases n - k,
    {
        let denom = Rational::from_int(i64_from_u64_saturating(denom_index));
        let part = match term.checked_div(&denom) {
            Some(q) => q,
            None => Rational::zero(),
        };
        proof {
            lemma_atanh_positive_denominators(t@, k as nat);
            lemma_div_congruent(term@, atanh_power(t@, k as nat), denom@, denom@);
            lemma_ops_keep_positive_denominator(term@, denom@);
            lemma_eqv_transitive(part@, rat_div(term@, denom@), atanh_part(t@, k as nat));
        }
        let sum = acc.add(&part);
        proof {
            lemma_ops_keep_positive_denominator(acc@, part@);
            if k == 0 {
                lemma_add_congruent(acc@, rat_int(0), part@, atanh_part(t@, 0));
                lemma_eqv_transitive(sum@, rat_add(acc@, part@), atanh_sum(t@, 0));
            } else {
                lemma_atanh_positive_denominators(t@, (k - 1) as nat);
                lemma_add_congruent(
                    acc@,
                    atanh_sum(t@, (k - 1) as nat),
                    part@,
                    atanh_part(t@, k as nat),
                );
                lemma_eqv_transitive(sum@, rat_add(acc@, part@), atanh_sum(t@, k as nat));
            }
        }
        acc = sum;
        if k == n {
            break;
        }
        let next = term.mul(&t2);
        proof {
            lemma_atanh_positive_denominators(t@, (k + 1) as nat);
            lemma_mul_congruent(term@, atanh_power(t@, k as nat), t2@, rat_mul(t@, t@));
            lemma_ops_keep_positive_denominator(term@, t2@);
            lemma_eqv_transitive(next@, rat_mul(term@, t2@), atanh_power(t@, (k + 1) as nat));
        }
        term = next;
        denom_index = denom_index + 2;
        k = k + 1;
    }
    let two = Rational::from_int(2);
    let r = acc.mul(&two);
    proof {
        lemma_atanh_positive_denominators(t@, n as nat);
        lemma_mul_congruent(acc@, atanh_sum(t@, n as nat), two@, rat_int(2));
        lemma_ops_keep_positive_denominator(acc@, two@);
        lemma_eqv_transitive(r@, rat_mul(acc@, two@), atanh_doubled(t@, n as nat));
    }
    r
}


/// `1 − t²`, from `|t|`.
pub open spec fn one_minus_square(t: (int, int)) -> (int, int) {
    rat_sub(rat_int(1), rat_mul(rat_abs(t), rat_abs(t)))
}

/// `|t|^{2n+3}`, by `q_n = q_{n−1} · |t|²` from `q_0 = |t|³`.
pub open spec fn atanh_tail_power(t: (int, int), n: nat) -> (int, int)
    decreases n,
{
    if n == 0 {
        rat_pow(rat_abs(t), 3)
    } else {
        rat_mul(atanh_tail_power(t, (n - 1) as nat), rat_mul(rat_abs(t), rat_abs(t)))
    }
}

/// The tail bound after `n + 1` terms: `2 · |t|^{2n+3} / ((2n+3) · (1 − t²))`.
pub open spec fn atanh_bound(t: (int, int), n: nat) -> (int, int) {
    rat_div(
        rat_mul(rat_int(2), atanh_tail_power(t, n)),
        rat_mul(rat_int(sat_i64(2 * n + 3)), one_minus_square(t)),
    )
}

/// The first `m ≥ n` below the cap whose bound is below `eps`; the cap
/// when there is none.
pub open spec fn atanh_modulus_from(t: (int, int), eps: (int, int), n: nat) -> nat
    decreases MODULUS_HARD_CAP - n,
{
    if n >= MODULUS_HARD_CAP {
        MODULUS_HARD_CAP as nat
    } else if rat_lt(atanh_bound(t, n), eps) {
        n
    } else {
        atanh_modulus_from(t, eps, n + 1)
    }
}

/// The modulus of the atanh series at tolerance `eps`: `u64::MAX` for
/// `eps ≤ 0` or `|t| ≥ 1`.
pub open spec fn spec_atanh_modulus(t: (int, int), eps: (int, int)) -> nat {
    if eps.0 <= 0 || one_minus_square(t).0 <= 0 {
        u64::MAX as nat
    } else {
        atanh_modulus_from(t, eps, 0)
    }
}

/// The bound's parts keep positive denominators, and its divisor is
/// positive when `|t| < 1`.
pub proof fn lemma_atanh_bound_positive(t: (int, int), n: nat)
    requires
        t.1 > 0,
        one_minus_square(t).0 > 0,
    ensures
        atanh_tail_power(t, n).1 > 0,
        rat_mul(rat_int(sat_i64(2 * n + 3)), one_minus_square(t)).0 > 0,
        rat_mul(rat_int(sat_i64(2 * n + 3)), one_minus_square(t)).1 > 0,
        atanh_bound(t, n).1 > 0,
    decreases n,
{
    let a = rat_abs(t);
    lemma_ops_keep_positive_denominator(a, a);
    lemma_ops_keep_positive_denominator(rat_int(1), rat_mul(a, a));
    if n > 0 {
        lemma_atanh_bound_positive(t, (n - 1) as nat);
        lemma_ops_keep_positive_denominator(atanh_tail_power(t, (n - 1) as nat), rat_mul(a, a));
    } else {
        vstd::arithmetic::power::lemma_pow_positive(a.1, 3);
    }
    let om = one_minus_square(t);
    let c = sat_i64(2 * n + 3);
    assert(c * om.0 > 0) by (nonlinear_arith)
        requires
            c >= 3,
            om.0 > 0,
    ;
    lemma_ops_keep_positive_denominator(rat_int(c), om);
    lemma_ops_keep_positive_denominator(rat_int(2), atanh_tail_power(t, n));
    lemma_ops_keep_positive_denominator(rat_mul(rat_int(2), atanh_tail_power(t, n)), rat_mul(rat_int(c), om));
}

/// Smallest `N` with `2 · |t|^{2N+3} / ((2N+3)(1 − t²)) < eps`, searching
/// up to [`MODULUS_HARD_CAP`]; `u64::MAX` when `eps ≤ 0` or `|t| ≥ 1`.
pub fn find_atanh_modulus(t: &Rational, eps: &Rational) -> (r: u64)
    ensures
        r == spec_atanh_modulus(t@, eps@),
{
    proof {
        crate::rational::lemma_den_positive(*t);
        crate::rational::lemma_den_positive(*eps);
    }
    if eps.signum() <= 0 {
        return u64::MAX;
    }
    let abs_t = t.abs();
    let one = Rational::one();
    let t2 = abs_t.mul(&abs_t);
    let one_minus_t2 = one.sub(&t2);
    proof {
        let a = rat_abs(t@);
        lemma_ops_keep_positive_denominator(a, a);
        crate::rational::lemma_sub_congruent(one@, rat_int(1), t2@, rat_mul(a, a));
        crate::rational::lemma_ops_keep_positive_denominator(one@, t2@);
        lemma_ops_keep_positive_denominator(rat_int(1), rat_mul(a, a));
        lemma_eqv_transitive(one_minus_t2@, rat_sub(one@, t2@), one_minus_square(t@));
        lemma_sign_eqv(one_minus_t2@, one_minus_square(t@));
    }
    if one_minus_t2.signum() <= 0 {
        return u64::MAX;
    }
    let mut t_power = abs_t.pow_u32(3);
    let mut denom_index: u64 = 3;
    let two = Rational::from_int(2);
    let mut n: u64 = 0;
    proof {
        lemma_atanh_bound_positive(t@, 0);
    }
    loop
        invariant
            n < MODULUS_HARD_CAP,
            denom_index == 2 * n + 3,
            t@.1 > 0,
            eps@.1 > 0,
            eps@.0 > 0,
            abs_t@ == rat_abs(t@),
            rat_eqv(t2@, rat_mul(rat_abs(t@), rat_abs(t@))),
            t2@.1 > 0,
            rat_mul(rat_abs(t@), rat_abs(t@)).1 > 0,
            rat_eqv(one_minus_t2@, one_minus_square(t@)),
            one_minus_t2@.1 > 0,
            one_minus_t2@.0 > 0,
            one_minus_square(t@).0 > 0,
            one_minus_square(t@).1 > 0,
            two@ == rat_int(2),
            rat_eqv(t_power@, atanh_tail_power(t@, n as nat)),
            t_power@.1 > 0,
            atanh_modulus_from(t@, eps@, 0) == atanh_modulus_from(t@, eps@, n as nat),
        decreases MODULUS_HARD_CAP - n,
    {
        let c = Rational::from_int(i64_from_u64_saturating(denom_index));
        let denom = c.mul(&one_minus_t2);
        let numer = two.mul(&t_power);
        let bound = match numer.checked_div(&denom) {
            Some(q) => q,
            None => Rational::zero(),
        };
        proof {
            let nn = n as nat;
            lemma_atanh_bound_positive(t@, nn);
            let om = one_minus_square(t@);
            let cs = rat_int(sat_i64(2 * nn + 3));
            lemma_mul_congruent(c@, cs, one_minus_t2@, om);
            lemma_ops_keep_positive_denominator(c@, one_minus_t2@);
            lemma_eqv_transitive(denom@, rat_mul(c@, one_minus_t2@), rat_mul(cs, om));
            lemma_sign_eqv(denom@, rat_mul(cs, om));
            lemma_mul_congruent(two@, rat_int(2), t_power@, atanh_tail_power(t@, nn));
            lemma_ops_keep_positive_denominator(two@, t_power@);
            lemma_ops_keep_positive_denominator(rat_int(2), atanh_tail_power(t@, nn));
            lemma_eqv_transitive(
                numer@,
                rat_mul(two@, t_power@),
                rat_mul(rat_int(2), atanh_tail_power(t@, nn)),
            );
            lemma_div_congruent(
                numer@,
                rat_mul(rat_int(2), atanh_tail_power(t@, nn)),
                denom@,
                rat_mul(cs, om),
            );
            lemma_ops_keep_positive_denominator(numer@, denom@);
            lemma_eqv_transitive(bound@, rat_div(numer@, denom@), atanh_bound(t@, nn));
            crate::rational::lemma_lt_congruent(bound@, atanh_bound(t@, nn), eps@, eps@);
        }
        if bound.lt(eps) {
            proof {
                assert(atanh_modulus_from(t@, eps@, n as nat) == n);
            }
            return n;
        }
        proof {
            assert(atanh_modulus_from(t@, eps@, n as nat) == atanh_modulus_from(
                t@,
                eps@,
                (n + 1) as nat,
            ));
        }
        n = n + 1;
        if n >= MODULUS_HARD_CAP {
            proof {
                assert(atanh_modulus_from(t@, eps@, n as nat) == MODULUS_HARD_CAP);
            }
            return n;
        }
        let next = t_power.mul(&t2);
        proof {
            let a = rat_abs(t@);
            lemma_atanh_bound_positive(t@, n as nat);
            lemma_mul_congruent(t_power@, atanh_tail_power(t@, (n - 1) as nat), t2@, rat_mul(a, a));
            lemma_ops_keep_positive_denominator(t_power@, t2@);
            lemma_eqv_transitive(next@, rat_mul(t_power@, t2@), atanh_tail_power(t@, n as nat));
        }
        t_power = next;
        denom_index = denom_index + 2;
    }
}

/// Equivalent pairs with positive denominators share their sign.
pub proof fn lemma_sign_eqv(a: (int, int), b: (int, int))
    requires
        rat_eqv(a, b),
        a.1 > 0,
        b.1 > 0,
    ensures
        (a.0 > 0) == (b.0 > 0),
        (a.0 == 0) == (b.0 == 0),
        (a.0 < 0) == (b.0 < 0),
{
    assert((a.0 > 0) == (b.0 > 0) && (a.0 == 0) == (b.0 == 0) && (a.0 < 0) == (b.0 < 0))
        by (nonlinear_arith)
        requires
            a.0 * b.1 == b.0 * a.1,
            a.1 > 0,
            b.1 > 0,
    ;
}

/// The atanh modulus depends only on the value of the tolerance.
pub proof fn lemma_atanh_modulus_eqv(t: (int, int), eps: (int, int), eps2: (int, int))
    requires
        t.1 > 0,
        eps.1 > 0,
        eps2.1 > 0,
        rat_eqv(eps, eps2),
    ensures
        spec_atanh_modulus(t, eps) == spec_atanh_modulus(t, eps2),
{
    lemma_sign_eqv(eps, eps2);
    if eps.0 > 0 && one_minus_square(t).0 > 0 {
        lemma_atanh_modulus_from_eqv(t, eps, eps2, 0);
    }
}

/// The search from `n` on depends only on the value of the tolerance.
proof fn lemma_atanh_modulus_from_eqv(t: (int, int), eps: (int, int), eps2: (int, int), n: nat)
    requires
        t.1 > 0,
        one_minus_square(t).0 > 0,
        eps.1 > 0,
        eps2.1 > 0,
        rat_eqv(eps, eps2),
    ensures
        atanh_modulus_from(t, eps, n) == atanh_modulus_from(t, eps2, n),
    decreases MODULUS_HARD_CAP - n,
{
    if n < MODULUS_HARD_CAP {
        lemma_atanh_bound_positive(t, n);
        crate::rational::lemma_lt_congruent(atanh_bound(t, n), atanh_bound(t, n), eps, eps2);
        lemma_atanh_modulus_from_eqv(t, eps, eps2, n + 1);
    }
}


// ─── the sequences ───────────────────────────────────────────────────

/// `e^x` as a Cauchy sequence: its Taylor partial sums.
pub fn exp(x: Rational) -> (r: Cauchy)
    ensures
        r == Cauchy::Exp(x),
{
    Cauchy::Exp(x)
}

/// `2 · atanh(t) = 2 · (t + t³/3 + t⁵/5 + …)` as a Cauchy sequence.
pub fn atanh_series_doubled(t: Rational) -> (r: Cauchy)
    ensures
        r == Cauchy::AtanhDoubled(t),
{
    Cauchy::AtanhDoubled(t)
}

/// A Cauchy sequence times an exact rational scalar.
pub fn scale_cauchy(seq: Cauchy, scalar: Rational) -> (r: Cauchy)
    ensures
        r == Cauchy::Scaled(Box::new(seq), scalar),
{
    Cauchy::Scaled(Box::new(seq), scalar)
}

/// `ln 2 = 2 · atanh(1/3)` as a Cauchy sequence.
pub fn ln2_cauchy() -> (r: Cauchy)
    ensures
        r matches Cauchy::AtanhDoubled(t) && rat_eqv(t@, (1, 3)),
{
    let third = match Rational::new_i64(1, 3) {
        Some(q) => q,
        None => Rational::zero(),
    };
    atanh_series_doubled(third)
}

// ─── ln ──────────────────────────────────────────────────────────────

/// `v · 2ᵐ` for any integer `m`.
pub open spec fn scale_pow2(v: (int, int), m: int) -> (int, int) {
    if m >= 0 {
        rat_mul(v, rat_int(pow(2, m as nat)))
    } else {
        rat_div(v, rat_int(pow(2, (-m) as nat)))
    }
}

/// `x = y · 2ᵐ` with `y ∈ [1, 2)`.
pub open spec fn reduced_to_unit_interval(x: (int, int), m: int, y: (int, int)) -> bool {
    &&& !rat_lt(y, rat_int(1))
    &&& rat_lt(y, rat_int(2))
    &&& y.1 > 0
    &&& rat_eqv(x, scale_pow2(y, m))
}

/// The atanh argument `t = (y − 1) / (y + 1)` of `ln(y)`.
pub open spec fn ln_atanh_argument(y: (int, int)) -> (int, int) {
    rat_div(rat_sub(y, rat_int(1)), rat_add(y, rat_int(1)))
}

/// `c` is the sequence for `ln(x) = m · ln 2 + 2 · atanh((y − 1)/(y + 1))`
/// where `x = y · 2ᵐ`, `y ∈ [1, 2)`: the atanh series alone when `m = 0`,
/// otherwise `m · (2 · atanh(1/3))` plus it.
pub open spec fn is_ln_sequence(x: (int, int), c: Cauchy) -> bool {
    exists|m: int, y: (int, int)|
        #[trigger] reduced_to_unit_interval(x, m, y) && ln_sequence_for(m, y, c)
}

/// The shape of the `ln` sequence for the reduction `(m, y)`.
pub open spec fn ln_sequence_for(m: int, y: (int, int), c: Cauchy) -> bool {
    match c {
        Cauchy::AtanhDoubled(t) => m == 0 && rat_eqv(t@, ln_atanh_argument(y)),
        Cauchy::Sum(a, b) => {
            &&& m != 0
            &&& (*a matches Cauchy::Scaled(l2, s) && s@ == rat_int(m) && (*l2 matches Cauchy::AtanhDoubled(
                third,
            ) && rat_eqv(third@, (1, 3))))
            &&& (*b matches Cauchy::AtanhDoubled(t) && rat_eqv(t@, ln_atanh_argument(y)))
        },
        _ => false,
    }
}

/// `2^B` for the bound `B = i64::MAX` on the exponent `m`.
pub open spec fn exponent_room() -> int {
    pow(2, i64::MAX as nat)
}

/// With `x = y · 2ᵐ`, `y ≥ 2` and `x < 2^B`: `m + 1 < B`.
proof fn lemma_halving_room(x: (int, int), y: (int, int), m: int)
    requires
        m >= 0,
        x.0 > 0,
        x.1 > 0,
        y.1 > 0,
        rat_eqv(x, scale_pow2(y, m)),
        !rat_lt(y, rat_int(2)),
        x.0 < exponent_room(),
    ensures
        m + 1 < i64::MAX,
{
    let p = pow(2, m as nat);
    vstd::arithmetic::power::lemma_pow_positive(2, m as nat);
    vstd::arithmetic::power::lemma_pow_adds(2, m as nat, 1);
    vstd::arithmetic::power::lemma_pow1(2);
    assert(2 * p <= x.0) by (nonlinear_arith)
        requires
            x.0 * (y.1 * 1) == (y.0 * p) * x.1,
            y.0 * 1 >= 2 * y.1,
            y.1 > 0,
            x.1 > 0,
            p > 0,
    ;
    assert(pow(2, (m + 1) as nat) == 2 * p);
    vstd::arithmetic::power::lemma_pow_strictly_increases_converse(
        2,
        (m + 1) as nat,
        i64::MAX as nat,
    );
}

/// With `x = y · 2ᵐ`, `m ≤ 0`, `y < 1` and the denominator of `x` below
/// `2^B`: `−m < B`.
proof fn lemma_doubling_room(x: (int, int), y: (int, int), m: int)
    requires
        m <= 0,
        x.0 > 0,
        x.1 > 0,
        y.1 > 0,
        rat_eqv(x, scale_pow2(y, m)),
        rat_lt(y, rat_int(1)),
        x.1 < exponent_room(),
    ensures
        -m < i64::MAX,
{
    let k = (-m) as nat;
    let p = pow(2, k);
    vstd::arithmetic::power::lemma_pow_positive(2, k);
    if m == 0 {
        vstd::arithmetic::power::lemma_pow0(2);
    } else {
        assert(scale_pow2(y, m) == (y.0 * 1, y.1 * p));
        assert(x.0 * (y.1 * p) == (y.0 * 1) * x.1);
        assert(y.0 * x.1 < y.1 * x.1) by (nonlinear_arith)
            requires
                y.0 * 1 < 1 * y.1,
                x.1 > 0,
        ;
        assert((x.0 * p) * y.1 < x.1 * y.1) by (nonlinear_arith)
            requires
                x.0 * (y.1 * p) == (y.0 * 1) * x.1,
                y.0 * x.1 < y.1 * x.1,
        ;
        assert(x.0 * p < x.1) by (nonlinear_arith)
            requires
                (x.0 * p) * y.1 < x.1 * y.1,
                y.1 > 0,
        ;
        assert(p <= x.0 * p) by (nonlinear_arith)
            requires
                x.0 >= 1,
                p > 0,
        ;
        vstd::arithmetic::power::lemma_pow_strictly_increases_converse(2, k, i64::MAX as nat);
    }
}

/// Halving: from `x = y · 2ᵐ` to `x = (y / 2) · 2^{m+1}`.
proof fn lemma_halve_step(x: (int, int), y: (int, int), y2: (int, int), m: int)
    requires
        m >= 0,
        y.1 > 0,
        y2.1 > 0,
        rat_eqv(x, scale_pow2(y, m)),
        rat_eqv(y2, rat_div(y, rat_int(2))),
        !rat_lt(y, rat_int(2)),
    ensures
        rat_eqv(x, scale_pow2(y2, m + 1)),
        !rat_lt(y2, rat_int(1)),
{
    let p = pow(2, m as nat);
    vstd::arithmetic::power::lemma_pow_positive(2, m as nat);
    vstd::arithmetic::power::lemma_pow_adds(2, m as nat, 1);
    vstd::arithmetic::power::lemma_pow1(2);
    let p2 = pow(2, (m + 1) as nat);
    assert(p2 == 2 * p);
    let h = rat_div(y, rat_int(2));
    lemma_mul_congruent(y2, h, rat_int(p2), rat_int(p2));
    assert(scale_pow2(y, m) == (y.0 * p, y.1 * 1));
    assert(rat_eqv(rat_mul(h, rat_int(p2)), scale_pow2(y, m))) by (nonlinear_arith)
        requires
            h == (y.0 * 1, y.1 * 2),
            p2 == 2 * p,
            scale_pow2(y, m) == (y.0 * p, y.1 * 1),
    ;
    lemma_ops_keep_positive_denominator(h, rat_int(p2));
    lemma_ops_keep_positive_denominator(y, rat_int(2));
    lemma_ops_keep_positive_denominator(y, rat_int(p));
    crate::rational::lemma_eqv_symmetric(rat_mul(h, rat_int(p2)), scale_pow2(y, m));
    lemma_eqv_transitive(x, scale_pow2(y, m), rat_mul(h, rat_int(p2)));
    crate::rational::lemma_eqv_symmetric(scale_pow2(y2, m + 1), rat_mul(h, rat_int(p2)));
    lemma_eqv_transitive(x, rat_mul(h, rat_int(p2)), scale_pow2(y2, m + 1));
    crate::rational::lemma_lt_congruent(y2, h, rat_int(1), rat_int(1));
}

/// Doubling: from `x = y · 2ᵐ` to `x = (2y) · 2^{m−1}`.
proof fn lemma_double_step(x: (int, int), y: (int, int), y2: (int, int), m: int)
    requires
        m <= 0,
        y.1 > 0,
        y2.1 > 0,
        rat_eqv(x, scale_pow2(y, m)),
        rat_eqv(y2, rat_mul(y, rat_int(2))),
        rat_lt(y, rat_int(1)),
    ensures
        rat_eqv(x, scale_pow2(y2, m - 1)),
        rat_lt(y2, rat_int(2)),
{
    let k = (-m) as nat;
    let p = pow(2, k);
    vstd::arithmetic::power::lemma_pow_positive(2, k);
    vstd::arithmetic::power::lemma_pow_adds(2, k, 1);
    vstd::arithmetic::power::lemma_pow1(2);
    vstd::arithmetic::power::lemma_pow0(2);
    let p2 = pow(2, k + 1);
    assert(p2 == 2 * p);
    let d = rat_mul(y, rat_int(2));
    lemma_div_congruent(y2, d, rat_int(p2), rat_int(p2));
    assert(rat_eqv(rat_div(d, rat_int(p2)), scale_pow2(y, m))) by (nonlinear_arith)
        requires
            d == (y.0 * 2, y.1 * 1),
            p2 == 2 * p,
            p > 0,
            m <= 0,
            k == -m,
            p == pow(2, k),
            m == 0 ==> p == 1,
            scale_pow2(y, m) == (if m >= 0 {
                rat_mul(y, rat_int(p))
            } else {
                rat_div(y, rat_int(p))
            }),
    ;
    lemma_ops_keep_positive_denominator(d, rat_int(p2));
    lemma_ops_keep_positive_denominator(y, rat_int(2));
    lemma_ops_keep_positive_denominator(y, rat_int(p));
    crate::rational::lemma_eqv_symmetric(rat_div(d, rat_int(p2)), scale_pow2(y, m));
    lemma_eqv_transitive(x, scale_pow2(y, m), rat_div(d, rat_int(p2)));
    crate::rational::lemma_eqv_symmetric(scale_pow2(y2, m - 1), rat_div(d, rat_int(p2)));
    lemma_eqv_transitive(x, rat_div(d, rat_int(p2)), scale_pow2(y2, m - 1));
    crate::rational::lemma_lt_congruent(y2, d, rat_int(2), rat_int(2));
}

/// Reduces `x > 0` to `(m, y)` with `x = 2ᵐ · y` and `y ∈ [1, 2)`. The
/// bounds on `x` keep `m` within `i64`.
fn power_of_two_reduce(x: &Rational) -> (r: (i64, Rational))
    requires
        x@.0 > 0,
        x@.0 < exponent_room(),
        x@.1 < exponent_room(),
    ensures
        reduced_to_unit_interval(x@, r.0 as int, r.1@),
{
    proof {
        crate::rational::lemma_den_positive(*x);
        vstd::arithmetic::power::lemma_pow0(2);
    }
    let one = Rational::one();
    let two = Rational::from_int(2);
    if !x.lt(&one) && x.lt(&two) {
        let y = x.duplicate();
        proof {
            assert(rat_eqv(x@, scale_pow2(y@, 0))) by (nonlinear_arith)
                requires
                    scale_pow2(y@, 0) == rat_mul(y@, rat_int(1)),
                    y@ == x@,
            ;
        }
        return (0, y);
    }
    let mut m: i64 = 0;
    let mut y = x.duplicate();
    proof {
        assert(rat_eqv(x@, scale_pow2(y@, 0))) by (nonlinear_arith)
            requires
                scale_pow2(y@, 0) == rat_mul(y@, rat_int(1)),
                y@ == x@,
        ;
    }
    if !y.lt(&two) {
        proof {
            assert(!rat_lt(y@, rat_int(1))) by (nonlinear_arith)
                requires
                    !(y@.0 * 1 < 2 * y@.1),
                    y@.1 > 0,
            ;
        }
        while !y.lt(&two)
            invariant
                x@.0 > 0,
                x@.1 > 0,
                x@.0 < exponent_room(),
                one@ == rat_int(1),
                two@ == rat_int(2),
                0 <= m < i64::MAX,
                y@.1 > 0,
                rat_eqv(x@, scale_pow2(y@, m as int)),
                !rat_lt(y@, rat_int(1)),
            decreases i64::MAX - m,
        {
            proof {
                lemma_halving_room(x@, y@, m as int);
            }
            let y2 = match y.checked_div(&two) {
                Some(q) => q,
                None => Rational::zero(),
            };
            proof {
                lemma_halve_step(x@, y@, y2@, m as int);
            }
            y = y2;
            m = m + 1;
        }
    } else {
        proof {
            assert(rat_lt(y@, rat_int(1)));
        }
        while y.lt(&one)
            invariant
                x@.0 > 0,
                x@.1 > 0,
                x@.1 < exponent_room(),
                one@ == rat_int(1),
                two@ == rat_int(2),
                -i64::MAX <= m <= 0,
                y@.1 > 0,
                rat_eqv(x@, scale_pow2(y@, m as int)),
                rat_lt(y@, rat_int(2)),
            decreases i64::MAX + m,
        {
            proof {
                lemma_doubling_room(x@, y@, m as int);
            }
            let y2 = y.mul(&two);
            proof {
                lemma_double_step(x@, y@, y2@, m as int);
            }
            y = y2;
            m = m - 1;
        }
    }
    (m, y)
}

/// `ln(x)` as a Cauchy sequence; an error for `x ≤ 0`.
pub fn ln(x: Rational) -> (r: Result<Cauchy, ElementaryError>)
    requires
        x@.0 < exponent_room(),
        x@.1 < exponent_room(),
    ensures
        x@.0 <= 0 ==> (r matches Err(ElementaryError::NonPositiveLog(s)) && s@ == rational_text(
            x@,
        )),
        x@.0 > 0 ==> (r matches Ok(c) && is_ln_sequence(x@, c)),
{
    if x.signum() <= 0 {
        return Err(ElementaryError::NonPositiveLog(x.to_string()));
    }
    let (m, y) = power_of_two_reduce(&x);
    let one = Rational::one();
    let numer = y.sub(&one);
    let denom = y.add(&one);
    proof {
        crate::rational::lemma_den_positive(y);
        lemma_add_congruent(y@, y@, one@, rat_int(1));
        lemma_sign_eqv(denom@, rat_add(y@, rat_int(1)));
        assert(rat_add(y@, rat_int(1)).0 > 0) by (nonlinear_arith)
            requires
                y@.0 * 1 >= 1 * y@.1,
                y@.1 > 0,
                rat_add(y@, rat_int(1)) == (y@.0 * 1 + 1 * y@.1, y@.1 * 1),
        ;
        lemma_ops_keep_positive_denominator(y@, rat_int(1));
    }
    let t = match numer.checked_div(&denom) {
        Some(q) => q,
        None => Rational::zero(),
    };
    proof {
        crate::rational::lemma_sub_congruent(y@, y@, one@, rat_int(1));
        lemma_ops_keep_positive_denominator(y@, rat_int(1));
        lemma_div_congruent(numer@, rat_sub(y@, rat_int(1)), denom@, rat_add(y@, rat_int(1)));
        lemma_ops_keep_positive_denominator(numer@, denom@);
        lemma_eqv_transitive(t@, rat_div(numer@, denom@), ln_atanh_argument(y@));
    }
    let ln_y = atanh_series_doubled(t);
    if m == 0 {
        proof {
            assert(reduced_to_unit_interval(x@, m as int, y@));
            assert(ln_sequence_for(m as int, y@, ln_y));
        }
        Ok(ln_y)
    } else {
        let m_ln2 = scale_cauchy(ln2_cauchy(), Rational::from_int(m));
        let c = m_ln2.add(ln_y);
        proof {
            assert(reduced_to_unit_interval(x@, m as int, y@));
            assert(ln_sequence_for(m as int, y@, c));
        }
        Ok(c)
    }
}

// ─── eml ─────────────────────────────────────────────────────────────

/// `eml(x, y) = exp(x) − ln(y)`; an error for `y ≤ 0`.
pub fn eml(x: Rational, y: Rational) -> (r: Result<Cauchy, ElementaryError>)
    requires
        y@.0 < exponent_room(),
        y@.1 < exponent_room(),
    ensures
        y@.0 <= 0 ==> (r matches Err(ElementaryError::NonPositiveLog(s)) && s@ == rational_text(
            y@,
        )),
        y@.0 > 0 ==> (r matches Ok(Cauchy::Difference(a, b)) && *a == Cauchy::Exp(x)
            && is_ln_sequence(y@, *b)),
{
    let exp_x = exp(x);
    let ln_y = match ln(y) {
        Ok(c) => c,
        Err(e) => {
            return Err(e);
        },
    };
    Ok(exp_x.sub(ln_y))
}

} // verus!
