//! Decimal digital roots.
use vstd::prelude::*;

verus! {

/// The base-10 digital root: `0` for `0`, otherwise `n mod 9` mapped onto
/// `{1, …, 9}`.
pub open spec fn spec_dr(n: nat) -> nat {
    if n == 0 {
        0
    } else if n % 9 == 0 {
        9
    } else {
        n % 9
    }
}

/// Sum of the decimal digits of `n`.
pub open spec fn digit_sum(n: nat) -> nat
    decreases n,
{
    if n == 0 {
        0
    } else {
        n % 10 + digit_sum(n / 10)
    }
}

/// What a digital root is: `0` exactly for `0`; otherwise the unique value
/// in `1..=9` congruent to `n` modulo 9.
pub open spec fn is_digital_root_of(n: nat, r: nat) -> bool {
    &&& (n == 0 <==> r == 0)
    &&& n > 0 ==> 1 <= r <= 9 && r % 9 == n % 9
}

/// The digital root is characterized by its range and its residue
/// modulo 9, and this characterization has exactly one solution.
pub proof fn lemma_digital_root_law(n: nat, r: nat)
    ensures
        is_digital_root_of(n, spec_dr(n)),
        is_digital_root_of(n, r) ==> r == spec_dr(n),
{
    if n > 0 && is_digital_root_of(n, r) {
        if r == 9 {
            assert(n % 9 == 0);
        }
    }
}

/// `n` and the sum of its digits agree modulo 9, and one is 0 only when
/// the other is.
pub proof fn lemma_digit_sum_mod_9(n: nat)
    ensures
        digit_sum(n) % 9 == n % 9,
        digit_sum(n) == 0 <==> n == 0,
    decreases n,
{
    if n > 0 {
        lemma_digit_sum_mod_9(n / 10);
        let q = n / 10;
        let d = n % 10;
        assert(n == 10 * q + d);
        assert((10 * q + d) % 9 == (q + d) % 9) by {
            vstd::arithmetic::div_mod::lemma_mod_multiples_vanish(q as int, (q + d) as int, 9);
        }
        assert((d + digit_sum(q)) % 9 == (d + q) % 9) by {
            vstd::arithmetic::div_mod::lemma_add_mod_noop(d as int, digit_sum(q) as int, 9);
            vstd::arithmetic::div_mod::lemma_add_mod_noop(d as int, q as int, 9);
        }
    }
}

/// Summing digits keeps the digital root: `dr(n) = dr(digit_sum(n))`.
pub proof fn lemma_digital_root_of_digit_sum(n: nat)
    ensures
        spec_dr(n) == spec_dr(digit_sum(n)),
{
    lemma_digit_sum_mod_9(n);
    lemma_digital_root_law(n, spec_dr(digit_sum(n)));
    lemma_digital_root_law(digit_sum(n), spec_dr(digit_sum(n)));
}

/// Digital root of `n` as a `u64`.
pub fn digital_root(n: u64) -> (r: u64)
    ensures
        r == spec_dr(n as nat),
        r <= 9,
        r == 0 <==> n == 0,
        n > 0 ==> 1 <= r <= 9 && r % 9 == n % 9,
{
    if n == 0 {
        0
    } else {
        let m = n % 9;
        if m == 0 {
            9
        } else {
            m
        }
    }
}

/// Digital root of `n` as a `u8`.
pub fn dr(n: u64) -> (r: u8)
    ensures
        r == spec_dr(n as nat),
        r == 0 <==> n == 0,
        n > 0 ==> 1 <= r <= 9 && r % 9 == n % 9,
{
    let d = digital_root(n);
    d as u8
}

} // verus!
