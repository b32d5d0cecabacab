//! `π(N)` in the structural form of the U(30) sieve:
//! `π(N) = D₃₀(N) − C₃₀(N) + 2 = #{primes in U(30) ∩ [1, N]} + 3`.
use crate::primes::{
    is_prime, lemma_not_coprime30_not_prime, lemma_prime_pi_6, prime_pi, primes_from_7,
};
use crate::sieve::{coprime30_count, d30, pi_via_u30_sieve, primes_in_u30};
use crate::u30::coprime30;
use vstd::prelude::*;

verus! {

/// Number of composites among the integers in `[1, n]` coprime to 30.
pub open spec fn composites30_count(n: nat) -> nat
    decreases n,
{
    if n == 0 {
        0
    } else {
        composites30_count((n - 1) as nat) + if coprime30(n as int) && n > 1 && !is_prime(
            n as int,
        ) {
            1nat
        } else {
            0nat
        }
    }
}

/// The members of `U(30)` up to `n ≥ 1` split into the unit `1`, the primes
/// `≥ 7`, and the composites.
pub proof fn lemma_u30_members_split(n: nat)
    requires
        n >= 1,
    ensures
        coprime30_count(n) == 1 + primes_from_7(n) + composites30_count(n),
    decreases n,
{
    lemma_prime_pi_6();
    if n == 1 {
        reveal_with_fuel(coprime30_count, 2);
        reveal_with_fuel(composites30_count, 2);
        assert(coprime30(1));
        assert(!is_prime(1));
        assert(coprime30_count(1) == 1);
        assert(composites30_count(1) == 0);
    } else {
        lemma_u30_members_split((n - 1) as nat);
        if n < 7 {
            if is_prime(n as int) && coprime30(n as int) {
                assert(n == 2 || n == 3 || n == 4 || n == 5 || n == 6);
            }
            assert(!(coprime30(n as int) && !is_prime(n as int))) by {
                if n == 4 {
                    assert(4int % 2 == 0);
                } else if n == 6 {
                    assert(6int % 2 == 0);
                }
            }
        } else {
            crate::primes::lemma_prime_pi_monotone(6, (n - 1) as nat);
            if is_prime(n as int) {
                lemma_not_prime_unless_coprime(n as int);
            }
        }
    }
}

/// A prime above 5 is coprime to 30.
proof fn lemma_not_prime_unless_coprime(k: int)
    requires
        k > 5,
        is_prime(k),
    ensures
        coprime30(k),
{
    if !coprime30(k) {
        lemma_not_coprime30_not_prime(k);
    }
}

/// `C₃₀(N)`: the composites among the integers in `[1, N]` coprime to 30,
/// computed as `D₃₀(N) − primes_in_u30(N) − 1` (the `−1` removes the unit).
pub fn c30(n: u64) -> (r: u64)
    requires
        n <= u64::MAX - 6,
        (n / 30 + 1) * 8 <= usize::MAX,
    ensures
        r == composites30_count(n as nat),
{
    let dn = d30(n);
    let pn = primes_in_u30(n);
    proof {
        if n >= 1 {
            lemma_u30_members_split(n as nat);
        }
    }
    // 1 ∈ U(30) is the unit; it is neither prime nor composite.
    let unit: u64 = if n >= 1 {
        1
    } else {
        0
    };
    dn.saturating_sub(pn).saturating_sub(unit)
}

/// `π(N)` via the additive form `π(N) = primes_in_u30(N) + 3`.
pub fn pi_additive(n: u64) -> (r: u64)
    requires
        n <= u64::MAX - 6,
        (n / 30 + 1) * 8 <= usize::MAX,
    ensures
        r == prime_pi(n as nat),
{
    pi_via_u30_sieve(n)
}

/// `π(N)` via the structural form `π(N) = D₃₀(N) − C₃₀(N) + 2`.
pub fn pi_structural(n: u64) -> (r: u64)
    requires
        n <= u64::MAX - 6,
        (n / 30 + 1) * 8 <= usize::MAX,
    ensures
        r == prime_pi(n as nat),
{
    if n < 2 {
        proof {
            reveal_with_fuel(prime_pi, 2);
        }
        return 0;
    }
    if n < 7 {
        // {2, 3, 5} are primes outside U(30); handled directly.
        return pi_additive(n);
    }
    let dn = d30(n);
    let cn = c30(n);
    proof {
        lemma_u30_members_split(n as nat);
        lemma_prime_pi_6();
        crate::primes::lemma_prime_pi_monotone(6, n as nat);
        crate::primes::lemma_prime_pi_le(n as nat);
    }
    dn - cn + 2
}

/// The additive and structural forms agree at `n`; by the contracts of
/// both, they always do.
pub fn identity_holds(n: u64) -> (r: bool)
    requires
        n <= u64::MAX - 6,
        (n / 30 + 1) * 8 <= usize::MAX,
    ensures
        r,
{
    pi_additive(n) == pi_structural(n)
}

} // verus!
