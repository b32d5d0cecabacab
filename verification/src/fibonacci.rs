//! Fibonacci numbers, their residues, and their digital roots.
//!
//! `F_0 = 0`, `F_1 = 1`, `F_n = F_{n−1} + F_{n−2}`.
use crate::digital_root::spec_dr;
use crate::parameters::MODULUS_DR;
use vstd::prelude::*;

verus! {

/// The Fibonacci number `F_n`.
pub open spec fn spec_fib(n: nat) -> nat
    decreases n,
{
    if n == 0 {
        0
    } else if n == 1 {
        1
    } else {
        spec_fib((n - 1) as nat) + spec_fib((n - 2) as nat)
    }
}

/// `F_49 = 7,778,742,049`, the largest Fibonacci number below `10¹⁰`.
pub const F49: u64 = 7_778_742_049;

/// The Fibonacci sequence never decreases.
pub proof fn lemma_fib_monotone(i: nat, j: nat)
    requires
        i <= j,
    ensures
        spec_fib(i) <= spec_fib(j),
    decreases j - i,
{
    if i < j {
        lemma_fib_monotone(i, (j - 1) as nat);
        if j >= 2 {
            assert(spec_fib(j) == spec_fib((j - 1) as nat) + spec_fib((j - 2) as nat));
        }
    }
}

/// `F_n < 2ⁿ`, so `F_n` fits in `u64` for `n ≤ 64`.
pub proof fn lemma_fib_below_pow2(n: nat)
    ensures
        spec_fib(n) < vstd::arithmetic::power2::pow2(n),
    decreases n,
{
    vstd::arithmetic::power2::lemma_pow2_pos(n);
    if n >= 2 {
        lemma_fib_below_pow2((n - 1) as nat);
        lemma_fib_below_pow2((n - 2) as nat);
        vstd::arithmetic::power2::lemma_pow2_unfold(n);
        vstd::arithmetic::power2::lemma_pow2_unfold((n - 1) as nat);
    } else if n == 1 {
        vstd::arithmetic::power2::lemma2_to64();
    } else {
        vstd::arithmetic::power2::lemma2_to64();
    }
}

/// `F_n` fits in `u64` for `n ≤ 64`.
pub proof fn lemma_fib_fits(n: nat)
    requires
        n <= 64,
    ensures
        spec_fib(n) <= u64::MAX,
{
    lemma_fib_below_pow2(n);
    vstd::arithmetic::power2::lemma2_to64();
    if n < 64 {
        vstd::arithmetic::power2::lemma_pow2_strictly_increases(n, 64);
    }
}

/// The recorded value of `F_49`.
pub proof fn lemma_f49()
    ensures
        spec_fib(49) == F49,
{
    lemma_fib_values_to_49();
}

/// `F_0, …, F_49`, each from the two before it.
proof fn lemma_fib_values_to_49()
    ensures
        spec_fib(24) == 46368,
        spec_fib(25) == 75025,
        spec_fib(49) == 7_778_742_049,
{
    assert(spec_fib(0) == 0);
    assert(spec_fib(1) == 1);
    assert(spec_fib(2) == 1);
    assert(spec_fib(3) == 2);
    assert(spec_fib(4) == 3);
    assert(spec_fib(5) == 5);
    assert(spec_fib(6) == 8);
    assert(spec_fib(7) == 13);
    assert(spec_fib(8) == 21);
    assert(spec_fib(9) == 34);
    assert(spec_fib(10) == 55);
    assert(spec_fib(11) == 89);
    assert(spec_fib(12) == 144);
    assert(spec_fib(13) == 233);
    assert(spec_fib(14) == 377);
    assert(spec_fib(15) == 610);
    assert(spec_fib(16) == 987);
    assert(spec_fib(17) == 1597);
    assert(spec_fib(18) == 2584);
    assert(spec_fib(19) == 4181);
    assert(spec_fib(20) == 6765);
    assert(spec_fib(21) == 10946);
    assert(spec_fib(22) == 17711);
    assert(spec_fib(23) == 28657);
    assert(spec_fib(24) == 46368);
    assert(spec_fib(25) == 75025);
    assert(spec_fib(26) == 121393);
    assert(spec_fib(27) == 196418);
    assert(spec_fib(28) == 317811);
    assert(spec_fib(29) == 514229);
    assert(spec_fib(30) == 832040);
    assert(spec_fib(31) == 1346269);
    assert(spec_fib(32) == 2178309);
    assert(spec_fib(33) == 3524578);
    assert(spec_fib(34) == 5702887);
    assert(spec_fib(35) == 9227465);
    assert(spec_fib(36) == 14930352);
    assert(spec_fib(37) == 24157817);
    assert(spec_fib(38) == 39088169);
    assert(spec_fib(39) == 63245986);
    assert(spec_fib(40) == 102334155);
    assert(spec_fib(41) == 165580141);
    assert(spec_fib(42) == 267914296);
    assert(spec_fib(43) == 433494437);
    assert(spec_fib(44) == 701408733);
    assert(spec_fib(45) == 1134903170);
    assert(spec_fib(46) == 1836311903);
    assert(spec_fib(47) == 2971215073);
    assert(spec_fib(48) == 4807526976);
    assert(spec_fib(49) == 7778742049);
}

/// Computes `F_k`, for every `k` whose `F_k` fits in `u64` (`k ≤ 93`).
pub fn fib(k: u64) -> (r: u64)
    requires
        spec_fib(k as nat) <= u64::MAX,
    ensures
        r == spec_fib(k as nat),
{
    if k == 0 {
        return 0;
    }
    let mut a: u64 = 0;
    let mut b: u64 = 1;
    let mut i: u64 = 1;
    while i < k
        invariant
            1 <= i <= k,
            spec_fib(k as nat) <= u64::MAX,
            a == spec_fib((i - 1) as nat),
            b == spec_fib(i as nat),
        decreases k - i,
    {
        proof {
            lemma_fib_monotone((i + 1) as nat, k as nat);
        }
        let next = a + b;
        a = b;
        b = next;
        i = i + 1;
    }
    b
}

/// Computes `F_k mod m`, reducing at each step; `0` when `m = 0`.
pub fn fib_mod(k: u64, m: u64) -> (r: u64)
    ensures
        m == 0 ==> r == 0,
        m > 0 ==> r == spec_fib(k as nat) % (m as nat),
{
    if m == 0 {
        return 0;
    }
    if k == 0 {
        proof {
            vstd::arithmetic::div_mod::lemma_small_mod(0, m as nat);
        }
        return 0;
    }
    let mut a: u64 = 0;
    let mut b: u64 = 1 % m;
    proof {
        vstd::arithmetic::div_mod::lemma_small_mod(0, m as nat);
    }
    let mut i: u64 = 1;
    while i < k
        invariant
            1 <= i <= k,
            0 < m,
            a == spec_fib((i - 1) as nat) % (m as nat),
            b == spec_fib(i as nat) % (m as nat),
        decreases k - i,
    {
        proof {
            vstd::arithmetic::div_mod::lemma_add_mod_noop(
                spec_fib(i as nat) as int,
                spec_fib((i - 1) as nat) as int,
                m as int,
            );
            assert(spec_fib((i + 1) as nat) == spec_fib(i as nat) + spec_fib((i - 1) as nat));
        }
        let wide: u128 = (a as u128 + b as u128) % (m as u128);
        let next = wide as u64;
        a = b;
        b = next;
        i = i + 1;
    }
    b
}

/// `F_k mod 9`.
pub fn fib_mod_dr(k: u64) -> (r: u64)
    ensures
        r == spec_fib(k as nat) % 9,
{
    fib_mod(k, MODULUS_DR)
}

/// Digital root of `F_k`, from `F_k mod 9` alone.
pub fn dr_fib(k: u64) -> (r: u8)
    ensures
        r == spec_dr(spec_fib(k as nat)),
        r == 0 <==> k == 0,
        k > 0 ==> 1 <= r <= 9 && r % 9 == spec_fib(k as nat) % 9,
{
    if k == 0 {
        return 0;
    }
    let v = fib_mod_dr(k);
    proof {
        lemma_fib_positive(k as nat);
    }
    if v == 0 {
        9
    } else {
        v as u8
    }
}

/// `F_n > 0` for `n ≥ 1`.
pub proof fn lemma_fib_positive(n: nat)
    requires
        n >= 1,
    ensures
        spec_fib(n) >= 1,
{
    lemma_fib_monotone(1, n);
}

/// Closing of the Pisano period modulo 9: `F_24 ≡ 0` and `F_25 ≡ 1`.
pub proof fn lemma_pisano_closes_at_24()
    ensures
        spec_fib(24) % 9 == 0,
        spec_fib(25) % 9 == 1,
{
    lemma_fib_values_to_49();
}

/// The residues of the Fibonacci numbers modulo 9 repeat with period 24.
pub proof fn lemma_pisano_period_mod_9(n: nat)
    ensures
        spec_fib(n + 24) % 9 == spec_fib(n) % 9,
    decreases n,
{
    lemma_pisano_closes_at_24();
    if n == 0 {
    } else if n == 1 {
    } else {
        lemma_pisano_period_mod_9((n - 1) as nat);
        lemma_pisano_period_mod_9((n - 2) as nat);
        assert(spec_fib(n + 24) == spec_fib((n + 23) as nat) + spec_fib((n + 22) as nat));
        vstd::arithmetic::div_mod::lemma_add_mod_noop(
            spec_fib((n + 23) as nat) as int,
            spec_fib((n + 22) as nat) as int,
            9,
        );
        vstd::arithmetic::div_mod::lemma_add_mod_noop(
            spec_fib((n - 1) as nat) as int,
            spec_fib((n - 2) as nat) as int,
            9,
        );
    }
}

} // verus!
