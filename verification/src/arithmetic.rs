//! Number-theoretic helpers: `gcd`, `lcm`, Euler's totient and the
//! largest power of a base below a bound.
use vstd::arithmetic::div_mod::*;
use vstd::arithmetic::mul::*;
use vstd::arithmetic::power::*;
use vstd::prelude::*;

verus! {

/// `d` divides `x` (for a positive `d`).
pub open spec fn divides(d: int, x: int) -> bool {
    d > 0 && x % d == 0
}

/// Greatest common divisor, by Euclid's recurrence.
pub open spec fn spec_gcd(a: nat, b: nat) -> nat
    decreases b,
{
    if b == 0 {
        a
    } else {
        spec_gcd(b, a % b)
    }
}

/// If `d` divides `x`, it divides every multiple of `x`.
pub proof fn lemma_divides_mul(x: int, k: int, d: int)
    requires
        divides(d, x),
    ensures
        divides(d, x * k),
        divides(d, k * x),
{
    lemma_mul_mod_noop_left(x, k, d);
    lemma_mul_basics(k);
    lemma_mul_is_commutative(x, k);
    lemma_small_mod(0nat, d as nat);
    assert((x % d) * k == 0);
}

/// Divisibility is closed under addition and subtraction.
pub proof fn lemma_divides_add_sub(x: int, y: int, d: int)
    requires
        divides(d, x),
        divides(d, y),
    ensures
        divides(d, x + y),
        divides(d, x - y),
{
    lemma_add_mod_noop(x, y, d);
    lemma_sub_mod_noop(x, y, d);
    lemma_mod_self_0(d);
    assert(0int % d == 0) by {
        lemma_small_mod(0nat, d as nat);
    }
}

/// The Euclidean gcd divides both arguments.
pub proof fn lemma_gcd_divides(a: nat, b: nat)
    requires
        a > 0 || b > 0,
    ensures
        spec_gcd(a, b) > 0,
        divides(spec_gcd(a, b) as int, a as int),
        divides(spec_gcd(a, b) as int, b as int),
    decreases b,
{
    if b == 0 {
        lemma_mod_self_0(a as int);
    } else {
        let r = a % b;
        lemma_gcd_divides(b, r);
        let g = spec_gcd(b, r) as int;
        lemma_fundamental_div_mod(a as int, b as int);
        lemma_divides_mul(b as int, (a / b) as int, g);
        lemma_divides_add_sub(b as int * (a / b) as int, r as int, g);
    }
}

/// Every common divisor of `a` and `b` divides their gcd.
pub proof fn lemma_gcd_greatest(a: nat, b: nat, d: int)
    requires
        divides(d, a as int),
        divides(d, b as int),
    ensures
        divides(d, spec_gcd(a, b) as int),
    decreases b,
{
    if b > 0 {
        let r = a % b;
        lemma_fundamental_div_mod(a as int, b as int);
        lemma_divides_mul(b as int, (a / b) as int, d);
        lemma_divides_add_sub(a as int, b as int * (a / b) as int, d);
        lemma_gcd_greatest(b, r, d);
    }
}

/// The gcd of two numbers is zero exactly when both are zero.
pub proof fn lemma_gcd_zero(a: nat, b: nat)
    ensures
        (spec_gcd(a, b) == 0) <==> (a == 0 && b == 0),
{
    if a > 0 || b > 0 {
        lemma_gcd_divides(a, b);
    }
}

/// Greatest common divisor via Euclid's algorithm.
pub fn gcd(a: u64, b: u64) -> (r: u64)
    ensures
        r == spec_gcd(a as nat, b as nat),
        r == 0 <==> (a == 0 && b == 0),
        r > 0 ==> divides(r as int, a as int) && divides(r as int, b as int),
        forall|d: int|
            divides(d, a as int) && divides(d, b as int) ==> #[trigger] divides(d, r as int),
    decreases b,
{
    proof {
        lemma_gcd_zero(a as nat, b as nat);
        if a > 0 || b > 0 {
            lemma_gcd_divides(a as nat, b as nat);
        }
        assert forall|d: int| divides(d, a as int) && divides(d, b as int) implies #[trigger] divides(
            d,
            spec_gcd(a as nat, b as nat) as int,
        ) by {
            lemma_gcd_greatest(a as nat, b as nat, d);
        }
    }
    if b == 0 {
        a
    } else {
        gcd(b, a % b)
    }
}

/// Least common multiple via the identity `lcm(a, b) · gcd(a, b) = a · b`.
pub fn lcm(a: u64, b: u64) -> (r: u64)
    requires
        a == 0 || b == 0 || (a as nat / spec_gcd(a as nat, b as nat)) * b <= u64::MAX,
    ensures
        (a == 0 || b == 0) ==> r == 0,
        a > 0 && b > 0 ==> r == (a as nat / spec_gcd(a as nat, b as nat)) * b,
        a > 0 && b > 0 ==> r * spec_gcd(a as nat, b as nat) == a * b,
{
    if a == 0 || b == 0 {
        0
    } else {
        let g = gcd(a, b);
        proof {
            lemma_fundamental_div_mod(a as int, g as int);
            lemma_mul_is_associative((a / g) as int, b as int, g as int);
            lemma_mul_is_associative((a / g) as int, g as int, b as int);
            lemma_mul_is_commutative(b as int, g as int);
            lemma_mul_is_commutative(g as int, (a / g) as int);
        }
        (a / g) * b
    }
}

/// Number of `k ∈ [1, m)` with `gcd(k, n) = 1`.
pub open spec fn coprime_count_below(m: nat, n: nat) -> nat
    decreases m,
{
    if m <= 1 {
        0
    } else {
        coprime_count_below((m - 1) as nat, n) + if spec_gcd((m - 1) as nat, n) == 1 {
            1nat
        } else {
            0nat
        }
    }
}

/// Euler's totient: `φ(0) = 0`, `φ(1) = 1`, and for `n ≥ 2` the count of
/// `k ∈ [1, n)` coprime to `n`.
pub open spec fn spec_euler_phi(n: nat) -> nat {
    if n == 0 {
        0
    } else if n == 1 {
        1
    } else {
        coprime_count_below(n, n)
    }
}

/// Euler's totient `φ(n)` — the count of integers in `[1, n)` coprime to `n`.
pub fn euler_phi(n: u64) -> (r: u64)
    ensures
        r == spec_euler_phi(n as nat),
{
    if n == 0 {
        return 0;
    }
    if n == 1 {
        return 1;
    }
    let mut count = 0u64;
    let mut k = 1u64;
    while k < n
        invariant
            1 <= k <= n,
            count == coprime_count_below(k as nat, n as nat),
            count <= k,
        decreases n - k,
    {
        if gcd(k, n) == 1 {
            count += 1;
        }
        k += 1;
    }
    count
}

/// Largest power of `base` strictly less than `n`.
///
/// For `base ≤ 1` or `n ≤ 1` the answer is `1`. Otherwise the result is the
/// power `p = base^k` with `p < n ≤ p · base`.
pub fn largest_power_below(base: u64, n: u64) -> (r: u64)
    ensures
        (base <= 1 || n <= 1) ==> r == 1,
        base > 1 && n > 1 ==> {
            &&& r < n
            &&& r * base >= n
            &&& exists|k: nat| r == pow(base as int, k)
        },
{
    if base <= 1 || n <= 1 {
        return 1;
    }
    let mut p: u64 = 1;
    let ghost mut k: nat = 0;
    proof {
        reveal(pow);
        assert(p == pow(base as int, 0));
    }
    loop
        invariant
            base > 1,
            n > 1,
            p < n,
            p >= 1,
            p == pow(base as int, k),
        decreases n - p,
    {
        match p.checked_mul(base) {
            Some(next) => {
                proof {
                    reveal(pow);
                    assert(pow(base as int, k + 1) == base * pow(base as int, k));
                    lemma_mul_is_commutative(base as int, p as int);
                    lemma_mul_strictly_increases(base as int, p as int);
                }
                if next >= n {
                    return p;
                }
                p = next;
                proof {
                    k = k + 1;
                }
            },
            None => {
                return p;
            },
        }
    }
}

} // verus!
