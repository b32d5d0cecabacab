//! Telescoping bounds: a sequence whose every step, plus what is left of
//! a non-negative budget after it, fits within the budget before it,
//! stays within the budget of any starting index.
use crate::convergence::{lemma_abs_triangle, lemma_eqv_le, lemma_le_lt_trans, rat_dist, rat_le};
use crate::integer::int_abs;
use crate::rational::{
    lemma_abs_congruent, lemma_ops_keep_positive_denominator, rat_abs, rat_add, rat_eqv, rat_lt,
    rat_sub,
};
use vstd::arithmetic::mul::{
    lemma_mul_is_associative, lemma_mul_is_commutative, lemma_mul_is_distributive_add_other_way,
    lemma_mul_is_distributive_sub_other_way,
};
use vstd::prelude::*;

verus! {

/// `(x · y) · z = (x · z) · y`.
proof fn lemma_perm3(x: int, y: int, z: int)
    ensures
        (x * y) * z == (x * z) * y,
        (x * y) * z == x * (y * z),
{
    lemma_mul_is_associative(x, y, z);
    lemma_mul_is_associative(x, z, y);
    lemma_mul_is_commutative(y, z);
}

/// `a ≤ b ≤ c` gives `a ≤ c`.
pub proof fn lemma_le_trans(a: (int, int), b: (int, int), c: (int, int))
    requires
        a.1 > 0,
        b.1 > 0,
        c.1 > 0,
        rat_le(a, b),
        rat_le(b, c),
    ensures
        rat_le(a, c),
{
    assert(a.0 * b.1 * c.1 <= b.0 * a.1 * c.1) by (nonlinear_arith)
        requires
            a.0 * b.1 <= b.0 * a.1,
            c.1 > 0,
    ;
    assert(b.0 * c.1 * a.1 <= c.0 * b.1 * a.1) by (nonlinear_arith)
        requires
            b.0 * c.1 <= c.0 * b.1,
            a.1 > 0,
    ;
    lemma_perm3(a.0, b.1, c.1);
    lemma_perm3(b.0, a.1, c.1);
    lemma_perm3(c.0, b.1, a.1);
    lemma_perm3(a.0, c.1, b.1);
    lemma_perm3(c.0, a.1, b.1);
    assert((a.0 * c.1) * b.1 <= (c.0 * a.1) * b.1);
    assert(a.0 * c.1 <= c.0 * a.1) by (nonlinear_arith)
        requires
            (a.0 * c.1) * b.1 <= (c.0 * a.1) * b.1,
            b.1 > 0,
    ;
}

/// `a ≤ b` and `c ≤ d` give `a + c ≤ b + d`.
pub proof fn lemma_add_le_le(a: (int, int), b: (int, int), c: (int, int), d: (int, int))
    requires
        a.1 > 0,
        b.1 > 0,
        c.1 > 0,
        d.1 > 0,
        rat_le(a, b),
        rat_le(c, d),
    ensures
        rat_le(rat_add(a, c), rat_add(b, d)),
{
    let kk = c.1 * d.1;
    let ll = a.1 * b.1;
    assert(kk > 0) by (nonlinear_arith)
        requires
            kk == c.1 * d.1,
            c.1 > 0,
            d.1 > 0,
    ;
    assert(ll > 0) by (nonlinear_arith)
        requires
            ll == a.1 * b.1,
            a.1 > 0,
            b.1 > 0,
    ;
    lemma_mul_is_distributive_add_other_way(b.1 * d.1, a.0 * c.1, c.0 * a.1);
    crate::convergence::lemma_swap4(a.0, c.1, b.1, d.1);
    lemma_mul_is_commutative(b.1, d.1);
    crate::convergence::lemma_swap4(c.0, a.1, d.1, b.1);
    assert((a.0 * c.1 + c.0 * a.1) * (b.1 * d.1) == (a.0 * b.1) * kk + (c.0 * d.1) * ll);
    lemma_mul_is_distributive_add_other_way(a.1 * c.1, b.0 * d.1, d.0 * b.1);
    crate::convergence::lemma_swap4(b.0, d.1, a.1, c.1);
    lemma_mul_is_commutative(d.1, c.1);
    lemma_mul_is_commutative(a.1, c.1);
    crate::convergence::lemma_swap4(d.0, b.1, c.1, a.1);
    lemma_mul_is_commutative(b.1, a.1);
    assert((b.0 * d.1 + d.0 * b.1) * (a.1 * c.1) == (b.0 * a.1) * kk + (d.0 * c.1) * ll);
    assert((a.0 * b.1) * kk <= (b.0 * a.1) * kk) by (nonlinear_arith)
        requires
            a.0 * b.1 <= b.0 * a.1,
            kk > 0,
    ;
    assert((c.0 * d.1) * ll <= (d.0 * c.1) * ll) by (nonlinear_arith)
        requires
            c.0 * d.1 <= d.0 * c.1,
            ll > 0,
    ;
}

/// `x ≤ x + y` and `x ≤ y + x` for `y ≥ 0`.
pub proof fn lemma_le_add_nonneg(x: (int, int), y: (int, int))
    requires
        x.1 > 0,
        y.1 > 0,
        y.0 >= 0,
    ensures
        rat_le(x, rat_add(x, y)),
        rat_le(x, rat_add(y, x)),
{
    lemma_mul_is_distributive_add_other_way(x.1, x.0 * y.1, y.0 * x.1);
    lemma_mul_is_distributive_add_other_way(x.1, y.0 * x.1, x.0 * y.1);
    lemma_perm3(x.0, x.1, y.1);
    lemma_perm3(x.0, y.1, x.1);
    lemma_mul_is_commutative(x.1, y.1);
    assert((y.0 * x.1) * x.1 >= 0) by (nonlinear_arith)
        requires
            y.0 >= 0,
            x.1 > 0,
    ;
}

/// `(p + q) + r ≡ (p + r) + q` and `p + q ≡ q + p`.
pub proof fn lemma_add_swap(p: (int, int), q: (int, int), r: (int, int))
    ensures
        rat_eqv(rat_add(rat_add(p, q), r), rat_add(rat_add(p, r), q)),
        rat_eqv(rat_add(p, q), rat_add(q, p)),
{
    lemma_mul_is_distributive_add_other_way(r.1, p.0 * q.1, q.0 * p.1);
    lemma_mul_is_distributive_add_other_way(q.1, p.0 * r.1, r.0 * p.1);
    lemma_perm3(p.0, q.1, r.1);
    lemma_perm3(q.0, p.1, r.1);
    lemma_perm3(r.0, p.1, q.1);
    lemma_mul_is_commutative(r.0, p.1 * q.1);
    lemma_mul_is_commutative(q.0, p.1 * r.1);
    lemma_perm3(p.1, q.1, r.1);
    lemma_mul_is_commutative(p.1, q.1);
    lemma_mul_is_commutative(q.0, p.1);
    lemma_mul_is_commutative(p.0, q.1);
    let l = rat_add(rat_add(p, q), r);
    let rr = rat_add(rat_add(p, r), q);
    assert(l.0 == rr.0);
    assert(l.1 == rr.1);
    let a = rat_add(p, q);
    let b = rat_add(q, p);
    assert(a.0 == b.0 && a.1 == b.1);
}

/// `a − c ≡ (a − b) + (b − c)`.
pub proof fn lemma_telescope(a: (int, int), b: (int, int), c: (int, int))
    ensures
        rat_eqv(rat_sub(a, c), rat_add(rat_sub(a, b), rat_sub(b, c))),
{
    let l = rat_sub(a, c);
    let x = rat_sub(a, b);
    let y = rat_sub(b, c);
    let r = rat_add(x, y);
    let bb = b.1 * b.1;
    // r.0 = x.0·(b.1·c.1) + y.0·(a.1·b.1) = bb · l.0
    lemma_mul_is_distributive_sub_other_way(b.1 * c.1, a.0 * b.1, b.0 * a.1);
    lemma_mul_is_distributive_sub_other_way(a.1 * b.1, b.0 * c.1, c.0 * b.1);
    crate::convergence::lemma_swap4(a.0, b.1, b.1, c.1);
    lemma_mul_is_commutative(a.0, b.1);
    crate::convergence::lemma_swap4(b.1, a.0, b.1, c.1);
    crate::convergence::lemma_swap4(b.0, a.1, b.1, c.1);
    crate::convergence::lemma_swap4(b.0, c.1, a.1, b.1);
    lemma_mul_is_commutative(c.1, a.1);
    crate::convergence::lemma_swap4(b.0, b.1, a.1, c.1);
    crate::convergence::lemma_swap4(b.0, b.1, c.1, a.1);
    crate::convergence::lemma_swap4(c.0, b.1, a.1, b.1);
    lemma_mul_is_commutative(c.0, b.1);
    crate::convergence::lemma_swap4(b.1, c.0, a.1, b.1);
    lemma_mul_is_commutative(a.1, b.1);
    crate::convergence::lemma_swap4(b.1, c.0, b.1, a.1);
    assert(r.0 == (b.1 * b.1) * (a.0 * c.1) - (b.1 * b.1) * (c.0 * a.1));
    vstd::arithmetic::mul::lemma_mul_is_distributive_sub(bb, a.0 * c.1, c.0 * a.1);
    assert(r.0 == bb * l.0);
    // r.1 = (a.1·b.1)·(b.1·c.1) = bb · l.1
    crate::convergence::lemma_swap4(a.1, b.1, b.1, c.1);
    lemma_mul_is_commutative(a.1, b.1);
    crate::convergence::lemma_swap4(b.1, a.1, b.1, c.1);
    assert(r.1 == bb * l.1);
    lemma_perm3(l.0, bb, l.1);
    lemma_mul_is_commutative(l.0, bb);
    lemma_perm3(bb, l.0, l.1);
}

/// `|a − b|` and `|b − a|` are equivalent.
pub proof fn lemma_dist_symmetric(a: (int, int), b: (int, int))
    ensures
        rat_eqv(rat_dist(a, b), rat_dist(b, a)),
{
    lemma_mul_is_commutative(a.1, b.1);
}

/// A step of the budget: the distance from term `n` to term `n + 1`,
/// plus the budget at `n + 1`, is within the budget at `n`.
pub open spec fn budget_step(
    s: spec_fn(nat) -> (int, int),
    r: spec_fn(nat) -> (int, int),
    n: nat,
) -> bool {
    rat_le(rat_add(rat_dist(s(n + 1), s(n)), r(n + 1)), r(n))
}

/// Terms and budgets have positive denominators, and budgets are
/// non-negative.
pub open spec fn well_formed_budget(s: spec_fn(nat) -> (int, int), r: spec_fn(nat) -> (int, int)) -> bool {
    &&& forall|n: nat| #![trigger s(n)] s(n).1 > 0
    &&& forall|n: nat| #![trigger r(n)] r(n).1 > 0 && r(n).0 >= 0
}

/// From `k` to `m`, the distance travelled plus the budget left at `m`
/// is within the budget at `k`.
pub proof fn lemma_budget_telescopes(
    s: spec_fn(nat) -> (int, int),
    r: spec_fn(nat) -> (int, int),
    k: nat,
    m: nat,
)
    requires
        well_formed_budget(s, r),
        k <= m,
        forall|n: nat| k <= n < m ==> #[trigger] budget_step(s, r, n),
    ensures
        rat_le(rat_add(rat_dist(s(m), s(k)), r(m)), r(k)),
    decreases m - k,
{
    assert(s(k).1 > 0 && r(k).1 > 0 && r(k).0 >= 0);
    assert(s(m).1 > 0 && r(m).1 > 0 && r(m).0 >= 0);
    if m == k {
        let d = rat_dist(s(k), s(k));
        assert(d.0 == 0);
        lemma_ops_keep_positive_denominator(s(k), s(k));
        lemma_perm3(r(k).0, d.1, r(k).1);
        lemma_mul_is_commutative(r(k).0, d.1);
        lemma_mul_is_associative(d.1, r(k).0, r(k).1);
        assert(0 * r(k).1 == 0) by (nonlinear_arith);
    } else {
        let p = (m - 1) as nat;
        lemma_budget_telescopes(s, r, k, p);
        assert(budget_step(s, r, p));
        assert(s(p).1 > 0 && r(p).1 > 0 && r(p).0 >= 0);
        let d1 = rat_dist(s(m), s(p));
        let d0 = rat_dist(s(p), s(k));
        let dd = rat_dist(s(m), s(k));
        let x = rat_sub(s(m), s(p));
        let y = rat_sub(s(p), s(k));
        lemma_ops_keep_positive_denominator(s(m), s(p));
        lemma_ops_keep_positive_denominator(s(p), s(k));
        lemma_ops_keep_positive_denominator(s(m), s(k));
        lemma_ops_keep_positive_denominator(x, y);
        lemma_ops_keep_positive_denominator(d1, d0);
        lemma_ops_keep_positive_denominator(d1, r(m));
        lemma_ops_keep_positive_denominator(d0, r(p));
        lemma_ops_keep_positive_denominator(dd, r(m));
        lemma_ops_keep_positive_denominator(rat_add(d1, d0), r(m));
        lemma_ops_keep_positive_denominator(rat_add(d1, r(m)), d0);
        lemma_ops_keep_positive_denominator(r(p), d0);
        // dd ≤ d1 + d0
        lemma_telescope(s(m), s(p), s(k));
        lemma_abs_congruent(rat_sub(s(m), s(k)), rat_add(x, y));
        lemma_eqv_le(dd, rat_abs(rat_add(x, y)));
        lemma_abs_triangle(x, y);
        lemma_le_trans(dd, rat_abs(rat_add(x, y)), rat_add(d1, d0));
        // dd + r(m) ≤ (d1 + d0) + r(m)
        lemma_eqv_le(r(m), r(m));
        lemma_add_le_le(dd, rat_add(d1, d0), r(m), r(m));
        // (d1 + d0) + r(m) ≡ (d1 + r(m)) + d0 ≤ r(p) + d0 ≡ d0 + r(p) ≤ r(k)
        lemma_add_swap(d1, d0, r(m));
        lemma_eqv_le(rat_add(rat_add(d1, d0), r(m)), rat_add(rat_add(d1, r(m)), d0));
        lemma_eqv_le(d0, d0);
        lemma_add_le_le(rat_add(d1, r(m)), r(p), d0, d0);
        lemma_add_swap(r(p), d0, d0);
        lemma_eqv_le(rat_add(r(p), d0), rat_add(d0, r(p)));
        lemma_le_trans(
            rat_add(dd, r(m)),
            rat_add(rat_add(d1, d0), r(m)),
            rat_add(rat_add(d1, r(m)), d0),
        );
        lemma_le_trans(rat_add(dd, r(m)), rat_add(rat_add(d1, r(m)), d0), rat_add(r(p), d0));
        lemma_le_trans(rat_add(dd, r(m)), rat_add(r(p), d0), rat_add(d0, r(p)));
        lemma_le_trans(rat_add(dd, r(m)), rat_add(d0, r(p)), r(k));
    }
}

/// With budget steps from `start` on and a budget at `start` below `eps`,
/// any two terms from `start` on lie within `eps`.
pub proof fn lemma_budget_cauchy(
    s: spec_fn(nat) -> (int, int),
    r: spec_fn(nat) -> (int, int),
    start: nat,
    eps: (int, int),
    m: nat,
    k: nat,
)
    requires
        well_formed_budget(s, r),
        forall|n: nat| start <= n ==> #[trigger] budget_step(s, r, n),
        eps.1 > 0,
        rat_lt(r(start), eps),
        start <= m,
        start <= k,
    ensures
        rat_lt(rat_dist(s(m), s(k)), eps),
{
    if k <= m {
        lemma_budget_cauchy_ordered(s, r, start, eps, m, k);
    } else {
        lemma_budget_cauchy_ordered(s, r, start, eps, k, m);
        lemma_dist_symmetric(s(m), s(k));
        assert(s(m).1 > 0 && s(k).1 > 0 && r(k).1 > 0);
        lemma_ops_keep_positive_denominator(s(m), s(k));
        lemma_ops_keep_positive_denominator(s(k), s(m));
        lemma_eqv_le(rat_dist(s(m), s(k)), rat_dist(s(k), s(m)));
        lemma_le_lt_trans(rat_dist(s(m), s(k)), rat_dist(s(k), s(m)), eps);
    }
}

/// The ordered case `start ≤ k ≤ m`.
proof fn lemma_budget_cauchy_ordered(
    s: spec_fn(nat) -> (int, int),
    r: spec_fn(nat) -> (int, int),
    start: nat,
    eps: (int, int),
    m: nat,
    k: nat,
)
    requires
        well_formed_budget(s, r),
        forall|n: nat| start <= n ==> #[trigger] budget_step(s, r, n),
        eps.1 > 0,
        rat_lt(r(start), eps),
        start <= k <= m,
    ensures
        rat_lt(rat_dist(s(m), s(k)), eps),
{
    assert(s(m).1 > 0 && r(m).1 > 0 && r(m).0 >= 0);
    assert(s(k).1 > 0 && r(k).1 > 0 && r(k).0 >= 0);
    assert(s(start).1 > 0 && r(start).1 > 0 && r(start).0 >= 0);
    lemma_budget_telescopes(s, r, k, m);
    lemma_budget_telescopes(s, r, start, k);
    let dmk = rat_dist(s(m), s(k));
    let dks = rat_dist(s(k), s(start));
    lemma_ops_keep_positive_denominator(s(m), s(k));
    lemma_ops_keep_positive_denominator(s(k), s(start));
    lemma_ops_keep_positive_denominator(dmk, r(m));
    lemma_ops_keep_positive_denominator(dks, r(k));
    assert(dmk.0 >= 0 && dks.0 >= 0);
    // dmk ≤ dmk + r(m) ≤ r(k) ≤ dks + r(k) ≤ r(start) < eps
    lemma_le_add_nonneg(dmk, r(m));
    lemma_le_add_nonneg(r(k), dks);
    lemma_le_trans(dmk, rat_add(dmk, r(m)), r(k));
    lemma_le_trans(r(k), rat_add(dks, r(k)), r(start));
    lemma_le_trans(dmk, r(k), r(start));
    lemma_le_lt_trans(dmk, r(start), eps);
}

} // verus!
