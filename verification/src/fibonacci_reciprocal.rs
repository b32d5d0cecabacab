//! The Fibonacci reciprocal identity `1/89 = Σ_{n≥1} F_n / 10^(n+1)`.
//!
//! With `S(N) = Σ_{n=1..N} F_n · 10^(N−n)`, the exact identity
//! `89 · S(N) + 10 · F_{N+1} + F_N = 10^(N+1)` holds for every `N`, so the
//! gap `10^(N+1) − 89 · S(N)` is the Fibonacci tail `10 · F_{N+1} + F_N`.
use crate::fibonacci::{fib, lemma_fib_fits, lemma_fib_monotone, lemma_fib_positive, spec_fib};
use crate::parameters::NUMERAL_BASE;
use vstd::prelude::*;

verus! {

/// `89 = b² − b − 1` for the numeral base `b = 10`.
pub const RECIPROCAL_DENOMINATOR: u64 = NUMERAL_BASE * NUMERAL_BASE - NUMERAL_BASE - 1;

/// `S(10) = 1,123,595,495`.
pub const PARTIAL_NUMERATOR_AT_10: u128 = 1_123_595_495;

/// `10ⁿ`.
pub open spec fn spec_pow10(n: nat) -> nat
    decreases n,
{
    if n == 0 {
        1
    } else {
        10 * spec_pow10((n - 1) as nat)
    }
}

/// `S(N) = Σ_{n=1..N} F_n · 10^(N−n)`, in Horner form
/// `S(N) = 10 · S(N−1) + F_N`.
pub open spec fn spec_partial_numerator(n: nat) -> nat
    decreases n,
{
    if n == 0 {
        0
    } else {
        10 * spec_partial_numerator((n - 1) as nat) + spec_fib(n)
    }
}

/// `10⁰, …, 10⁴⁰`.
pub proof fn lemma_pow10_values()
    ensures
        spec_pow10(19) == 10_000_000_000_000_000_000,
        spec_pow10(38) == 100_000_000_000_000_000_000_000_000_000_000_000_000,
        spec_pow10(39) == 1_000_000_000_000_000_000_000_000_000_000_000_000_000,
        spec_pow10(40) == 10_000_000_000_000_000_000_000_000_000_000_000_000_000,
{
    assert(spec_pow10(0) == 1);
    assert(spec_pow10(1) == 10);
    assert(spec_pow10(2) == 100);
    assert(spec_pow10(3) == 1000);
    assert(spec_pow10(4) == 10000);
    assert(spec_pow10(5) == 100000);
    assert(spec_pow10(6) == 1000000);
    assert(spec_pow10(7) == 10000000);
    assert(spec_pow10(8) == 100000000);
    assert(spec_pow10(9) == 1000000000);
    assert(spec_pow10(10) == 10000000000);
    assert(spec_pow10(11) == 100000000000);
    assert(spec_pow10(12) == 1000000000000);
    assert(spec_pow10(13) == 10000000000000);
    assert(spec_pow10(14) == 100000000000000);
    assert(spec_pow10(15) == 1000000000000000);
    assert(spec_pow10(16) == 10000000000000000);
    assert(spec_pow10(17) == 100000000000000000);
    assert(spec_pow10(18) == 1000000000000000000);
    assert(spec_pow10(19) == 10000000000000000000);
    assert(spec_pow10(20) == 100000000000000000000);
    assert(spec_pow10(21) == 1000000000000000000000);
    assert(spec_pow10(22) == 10000000000000000000000);
    assert(spec_pow10(23) == 100000000000000000000000);
    assert(spec_pow10(24) == 1000000000000000000000000);
    assert(spec_pow10(25) == 10000000000000000000000000);
    assert(spec_pow10(26) == 100000000000000000000000000);
    assert(spec_pow10(27) == 1000000000000000000000000000);
    assert(spec_pow10(28) == 10000000000000000000000000000);
    assert(spec_pow10(29) == 100000000000000000000000000000);
    assert(spec_pow10(30) == 1000000000000000000000000000000);
    assert(spec_pow10(31) == 10000000000000000000000000000000);
    assert(spec_pow10(32) == 100000000000000000000000000000000);
    assert(spec_pow10(33) == 1000000000000000000000000000000000);
    assert(spec_pow10(34) == 10000000000000000000000000000000000);
    assert(spec_pow10(35) == 100000000000000000000000000000000000);
    assert(spec_pow10(36) == 1000000000000000000000000000000000000);
    assert(spec_pow10(37) == 10000000000000000000000000000000000000);
    assert(spec_pow10(38) == 100000000000000000000000000000000000000);
    assert(spec_pow10(39) == 1000000000000000000000000000000000000000);
    assert(spec_pow10(40) == 10000000000000000000000000000000000000000);
}

/// `10ⁿ` grows with `n`.
pub proof fn lemma_pow10_monotone(i: nat, j: nat)
    requires
        i <= j,
    ensures
        1 <= spec_pow10(i) <= spec_pow10(j),
    decreases j - i,
{
    if i < j {
        lemma_pow10_monotone(i, (j - 1) as nat);
    } else {
        lemma_pow10_positive(i);
    }
}

/// `10ⁿ ≥ 1`.
proof fn lemma_pow10_positive(n: nat)
    ensures
        spec_pow10(n) >= 1,
    decreases n,
{
    if n > 0 {
        lemma_pow10_positive((n - 1) as nat);
    }
}

/// The reciprocal identity: `89 · S(N) + 10 · F_{N+1} + F_N = 10^(N+1)`.
pub proof fn lemma_reciprocal_identity(n: nat)
    ensures
        89 * spec_partial_numerator(n) + 10 * spec_fib(n + 1) + spec_fib(n) == spec_pow10(n + 1),
    decreases n,
{
    if n == 0 {
        assert(spec_fib(1) == 1);
        assert(spec_pow10(0) == 1);
        assert(spec_pow10(1) == 10);
    } else {
        lemma_reciprocal_identity((n - 1) as nat);
        assert(spec_fib(n + 1) == spec_fib(n) + spec_fib((n - 1) as nat));
    }
}

/// `10ᵏ` as a `u128`, for `k ≤ 38`.
pub fn pow10_u128(k: u32) -> (p: u128)
    requires
        k <= 38,
    ensures
        p == spec_pow10(k as nat),
{
    proof {
        lemma_pow10_values();
    }
    let base: u128 = NUMERAL_BASE as u128;
    assert(base == 10);
    let mut p: u128 = 1;
    let mut i: u32 = 0;
    while i < k
        invariant
            i <= k <= 38,
            base == 10,
            p == spec_pow10(i as nat),
        decreases k - i,
    {
        proof {
            lemma_pow10_values();
            lemma_pow10_monotone((i + 1) as nat, 38);
            assert(spec_pow10((i + 1) as nat) == 10 * spec_pow10(i as nat));
            assert(10 * p <= 100_000_000_000_000_000_000_000_000_000_000_000_000);
        }
        p = p * base;
        i = i + 1;
    }
    p
}

/// `S(N)`, for `N ≤ 39` (the largest `N` whose powers of ten it uses fit
/// in `u128`).
pub fn partial_numerator(n: u32) -> (s: u128)
    requires
        n <= 39,
    ensures
        s == spec_partial_numerator(n as nat),
{
    proof {
        lemma_reciprocal_identity(n as nat);
        lemma_pow10_values();
        lemma_pow10_monotone(n as nat + 1, 40);
    }
    let mut sum: u128 = 0;
    let mut k: u32 = 1;
    let n_u128 = n as u128;
    proof {
        assert(spec_partial_numerator(0) == 0);
        let z = spec_partial_numerator(0);
        let q = spec_pow10(n as nat);
        assert(z * q == 0) by (nonlinear_arith)
            requires
                z == 0,
        ;
    }
    while k <= n
        invariant
            1 <= k <= n + 1,
            n <= 39,
            n_u128 == n,
            sum == spec_partial_numerator((k - 1) as nat) * spec_pow10((n - k + 1) as nat),
            89 * spec_partial_numerator(n as nat) < 10_000_000_000_000_000_000_000_000_000_000_000_000_000,
        decreases n + 1 - k,
    {
        let exp = (n_u128 - k as u128) as u32;
        proof {
            lemma_fib_fits(k as nat);
            lemma_partial_step(k as nat, n as nat);
        }
        let f_k = fib(k as u64) as u128;
        let term = f_k * pow10_u128(exp);
        sum = sum + term;
        k = k + 1;
    }
    proof {
        assert(spec_pow10(0) == 1);
        let t = spec_partial_numerator(n as nat);
        let q = spec_pow10(0);
        assert(t * q == t) by (nonlinear_arith)
            requires
                q == 1,
        ;
    }
    sum
}

/// One Horner step of the running sum, with its bound by the final sum.
proof fn lemma_partial_step(k: nat, n: nat)
    requires
        1 <= k <= n,
    ensures
        spec_partial_numerator((k - 1) as nat) * spec_pow10((n - k + 1) as nat) + spec_fib(k)
            * spec_pow10((n - k) as nat) == spec_partial_numerator(k) * spec_pow10(
            (n - k) as nat,
        ),
        spec_partial_numerator(k) * spec_pow10((n - k) as nat) <= spec_partial_numerator(n),
{
    let p = spec_pow10((n - k) as nat);
    assert(spec_pow10((n - k + 1) as nat) == 10 * p);
    let s = spec_partial_numerator((k - 1) as nat);
    assert(s * (10 * p) + spec_fib(k) * p == (10 * s + spec_fib(k)) * p) by (nonlinear_arith);
    lemma_partial_scaled_le(k, n);
}

/// `S(k) · 10^(n−k) ≤ S(n)`.
proof fn lemma_partial_scaled_le(k: nat, n: nat)
    requires
        k <= n,
    ensures
        spec_partial_numerator(k) * spec_pow10((n - k) as nat) <= spec_partial_numerator(n),
    decreases n - k,
{
    if k == n {
        assert(spec_pow10(0) == 1);
        let t = spec_partial_numerator(n);
        let q = spec_pow10(0);
        assert(t * q == t) by (nonlinear_arith)
            requires
                q == 1,
        ;
    } else {
        lemma_partial_scaled_le(k + 1, n);
        let p = spec_pow10((n - k - 1) as nat);
        assert(spec_pow10((n - k) as nat) == 10 * p);
        let s = spec_partial_numerator(k);
        let t = spec_partial_numerator(k + 1);
        assert(t == 10 * s + spec_fib(k + 1));
        assert(s * (10 * p) <= t * p) by (nonlinear_arith)
            requires
                t >= 10 * s,
                p >= 0,
        ;
        assert(spec_partial_numerator(k) * spec_pow10((n - k) as nat) == s * (10 * p));
        assert(spec_partial_numerator(k + 1) * spec_pow10((n - (k + 1)) as nat) == t * p);
    }
}

/// The gap `10^(N+1) − 89 · S(N)`, which equals the Fibonacci tail
/// `10 · F_{N+1} + F_N`; `N ≤ 37` keeps `10^(N+1)` in `u128`.
pub fn tail_gap(n: u32) -> (g: u128)
    requires
        n <= 37,
    ensures
        g == spec_pow10(n as nat + 1) - 89 * spec_partial_numerator(n as nat),
        g == 10 * spec_fib(n as nat + 1) + spec_fib(n as nat),
{
    proof {
        lemma_reciprocal_identity(n as nat);
        lemma_pow10_values();
        lemma_pow10_monotone(n as nat + 1, 38);
    }
    let denom = pow10_u128(n + 1);
    let s = partial_numerator(n);
    let scaled = (RECIPROCAL_DENOMINATOR as u128) * s;
    if denom > scaled {
        denom - scaled
    } else {
        0
    }
}

/// The tail bound `178 · F_{N+1}`.
pub fn tail_bound(n: u32) -> (b: u128)
    requires
        spec_fib(n as nat + 1) <= u64::MAX,
    ensures
        b == 178 * spec_fib(n as nat + 1),
{
    178u128 * (fib((n as u64) + 1) as u128)
}

/// For every `N`, the gap is positive and below the tail bound:
/// `0 < 10 · F_{N+1} + F_N < 178 · F_{N+1}`.
pub proof fn lemma_gap_positive_and_bounded(n: nat)
    ensures
        0 < 10 * spec_fib(n + 1) + spec_fib(n) < 178 * spec_fib(n + 1),
{
    lemma_fib_positive(n + 1);
    lemma_fib_monotone(n, n + 1);
}

/// The gap shrinks relative to its denominator at every step:
/// `gap(N + 1) < 10 · gap(N)`.
pub proof fn lemma_gap_shrinks(n: nat)
    ensures
        10 * spec_fib(n + 2) + spec_fib(n + 1) < 10 * (10 * spec_fib(n + 1) + spec_fib(n)),
{
    lemma_fib_positive(n + 1);
    assert(spec_fib(n + 2) == spec_fib(n + 1) + spec_fib(n));
}

/// The partial sums stay strictly below `10^(N+1) / 89`.
pub proof fn lemma_partial_below_reciprocal(n: nat)
    ensures
        89 * spec_partial_numerator(n) < spec_pow10(n + 1),
{
    lemma_reciprocal_identity(n);
    lemma_gap_positive_and_bounded(n);
}

} // verus!
