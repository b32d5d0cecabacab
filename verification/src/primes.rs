//! Primality and the prime-counting function, as specifications, with the
//! elementary facts the wheel-30 sieve rests on.
use crate::arithmetic::{divides, lemma_divides_mul};
use crate::u30::coprime30;
use vstd::arithmetic::div_mod::*;
use vstd::arithmetic::mul::*;
use vstd::prelude::*;

verus! {

/// `v` is prime: at least 2, with no divisor strictly between 1 and `v`.
pub open spec fn is_prime(v: int) -> bool {
    v >= 2 && forall|d: int| 2 <= d < v ==> #[trigger] (v % d) != 0
}

/// `π(n)`: the number of primes in `[1, n]`.
pub open spec fn prime_pi(n: nat) -> nat
    decreases n,
{
    if n == 0 {
        0
    } else {
        prime_pi((n - 1) as nat) + if is_prime(n as int) {
            1nat
        } else {
            0nat
        }
    }
}

/// The number of primes `p` with `7 ≤ p ≤ n`, i.e. the primes coprime to 30.
pub open spec fn primes_from_7(n: nat) -> nat {
    if n < 7 {
        0
    } else {
        (prime_pi(n) - 3) as nat
    }
}

/// `v` has a divisor `d` with `2 ≤ d < bound` and `d² ≤ v`.
pub open spec fn has_small_factor(v: int, bound: int) -> bool {
    exists|d: int| 2 <= d < bound && d * d <= v && #[trigger] (v % d) == 0
}

/// A number `v ≥ 2` is composite exactly when it has a divisor `d ≥ 2`
/// with `d² ≤ v`.
pub proof fn lemma_prime_iff_no_small_factor(v: int)
    requires
        v >= 2,
    ensures
        is_prime(v) == !has_small_factor(v, v + 1),
{
    if has_small_factor(v, v + 1) {
        let d = choose|d: int| 2 <= d < v + 1 && d * d <= v && #[trigger] (v % d) == 0;
        assert(d < v) by (nonlinear_arith)
            requires
                2 <= d,
                d * d <= v,
        ;
        assert(v % d == 0);
    }
    if !is_prime(v) {
        let d = choose|d: int| 2 <= d < v && #[trigger] (v % d) != 0 == false;
        assert(2 <= d < v && v % d == 0);
        lemma_fundamental_div_mod(v, d);
        let e = v / d;
        assert(v == d * e);
        if d * d <= v {
            assert(has_small_factor(v, v + 1));
        } else {
            assert(e >= 2 && e < d) by (nonlinear_arith)
                requires
                    v == d * e,
                    2 <= d < v,
                    d * d > v,
            ;
            assert(e * e <= v) by (nonlinear_arith)
                requires
                    v == d * e,
                    e < d,
                    e >= 2,
            ;
            lemma_mod_multiples_basic(d, e);
            lemma_mul_is_commutative(d, e);
            assert(v % e == 0);
            assert(has_small_factor(v, v + 1));
        }
    }
}

/// Divisibility is transitive.
pub proof fn lemma_divides_trans(a: int, b: int, c: int)
    requires
        divides(a, b),
        divides(b, c),
    ensures
        divides(a, c),
{
    lemma_fundamental_div_mod(c, b);
    assert(c == b * (c / b));
    lemma_divides_mul(b, c / b, a);
}

/// Every divisor of a number coprime to 30 is coprime to 30.
pub proof fn lemma_divisor_coprime30(v: int, d: int)
    requires
        coprime30(v),
        d > 0,
        v % d == 0,
    ensures
        coprime30(d),
{
    if d % 2 == 0 {
        lemma_divides_trans(2, d, v);
    }
    if d % 3 == 0 {
        lemma_divides_trans(3, d, v);
    }
    if d % 5 == 0 {
        lemma_divides_trans(5, d, v);
    }
}

/// Products of numbers coprime to 30 are coprime to 30.
pub proof fn lemma_product_coprime30(p: int, q: int)
    requires
        coprime30(p),
        coprime30(q),
    ensures
        coprime30(p * q),
{
    lemma_mul_mod_noop_general(p, q, 2);
    lemma_mul_mod_noop_general(p, q, 3);
    lemma_mul_mod_noop_general(p, q, 5);
    lemma_mod_bound(p, 2);
    lemma_mod_bound(q, 2);
    lemma_mod_bound(p, 3);
    lemma_mod_bound(q, 3);
    lemma_mod_bound(p, 5);
    lemma_mod_bound(q, 5);
    let a = p % 5;
    let b = q % 5;
    assert((a * b) % 5 != 0) by {
        assert(1 <= a < 5 && 1 <= b < 5);
        if a == 1 {
            if b == 1 {
                assert(a * b == 1) by (nonlinear_arith) requires a == 1, b == 1;
            } else if b == 2 {
                assert(a * b == 2) by (nonlinear_arith) requires a == 1, b == 2;
            } else if b == 3 {
                assert(a * b == 3) by (nonlinear_arith) requires a == 1, b == 3;
            } else if b == 4 {
                assert(a * b == 4) by (nonlinear_arith) requires a == 1, b == 4;
            }
        } else if a == 2 {
            if b == 1 {
                assert(a * b == 2) by (nonlinear_arith) requires a == 2, b == 1;
            } else if b == 2 {
                assert(a * b == 4) by (nonlinear_arith) requires a == 2, b == 2;
            } else if b == 3 {
                assert(a * b == 6) by (nonlinear_arith) requires a == 2, b == 3;
            } else if b == 4 {
                assert(a * b == 8) by (nonlinear_arith) requires a == 2, b == 4;
            }
        } else if a == 3 {
            if b == 1 {
                assert(a * b == 3) by (nonlinear_arith) requires a == 3, b == 1;
            } else if b == 2 {
                assert(a * b == 6) by (nonlinear_arith) requires a == 3, b == 2;
            } else if b == 3 {
                assert(a * b == 9) by (nonlinear_arith) requires a == 3, b == 3;
            } else if b == 4 {
                assert(a * b == 12) by (nonlinear_arith) requires a == 3, b == 4;
            }
        } else if a == 4 {
            if b == 1 {
                assert(a * b == 4) by (nonlinear_arith) requires a == 4, b == 1;
            } else if b == 2 {
                assert(a * b == 8) by (nonlinear_arith) requires a == 4, b == 2;
            } else if b == 3 {
                assert(a * b == 12) by (nonlinear_arith) requires a == 4, b == 3;
            } else if b == 4 {
                assert(a * b == 16) by (nonlinear_arith) requires a == 4, b == 4;
            }
        }
    }
    let c = p % 3;
    let e = q % 3;
    assert((c * e) % 3 != 0) by {
        assert(1 <= c < 3 && 1 <= e < 3);
        if c == 1 {
            if e == 1 {
                assert(c * e == 1) by (nonlinear_arith) requires c == 1, e == 1;
            } else if e == 2 {
                assert(c * e == 2) by (nonlinear_arith) requires c == 1, e == 2;
            }
        } else if c == 2 {
            if e == 1 {
                assert(c * e == 2) by (nonlinear_arith) requires c == 2, e == 1;
            } else if e == 2 {
                assert(c * e == 4) by (nonlinear_arith) requires c == 2, e == 2;
            }
        }
    }
    assert((p % 2) * (q % 2) == 1);
}

/// A number greater than 5 that shares a factor with 30 is not prime.
pub proof fn lemma_not_coprime30_not_prime(k: int)
    requires
        k > 5,
        !coprime30(k),
    ensures
        !is_prime(k),
{
    if k % 2 == 0 {
        assert(2 <= 2 < k && k % 2 == 0);
    } else if k % 3 == 0 {
        assert(2 <= 3 < k && k % 3 == 0);
    } else {
        assert(2 <= 5 < k && k % 5 == 0);
    }
}

/// `π(6) = 3`: the primes `2`, `3`, `5`.
pub proof fn lemma_prime_pi_6()
    ensures
        prime_pi(6) == 3,
{
    assert(!is_prime(0));
    assert(!is_prime(1));
    assert(is_prime(2));
    assert(is_prime(3));
    assert(4int % 2 == 0);
    assert(!is_prime(4));
    assert(is_prime(5));
    assert(6int % 2 == 0);
    assert(!is_prime(6));
    reveal_with_fuel(prime_pi, 7);
}

/// `π` does not change across a stretch without primes.
pub proof fn lemma_prime_pi_flat(a: nat, b: nat)
    requires
        a <= b,
        forall|k: int| a < k <= b ==> !is_prime(k),
    ensures
        prime_pi(b) == prime_pi(a),
    decreases b - a,
{
    if a < b {
        lemma_prime_pi_flat(a, (b - 1) as nat);
    }
}

/// `π(n) ≤ n`.
pub proof fn lemma_prime_pi_le(n: nat)
    ensures
        prime_pi(n) <= n,
    decreases n,
{
    if n > 0 {
        lemma_prime_pi_le((n - 1) as nat);
    }
}

/// `π` is monotone.
pub proof fn lemma_prime_pi_monotone(a: nat, b: nat)
    requires
        a <= b,
    ensures
        prime_pi(a) <= prime_pi(b),
    decreases b - a,
{
    if a < b {
        lemma_prime_pi_monotone(a, (b - 1) as nat);
    }
}

} // verus!
