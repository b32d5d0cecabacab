//! Wheel-30 sieve: `π(N)` from the eight residue classes coprime to 30.
//!
//! The table holds one flag per positive integer coprime to 30 up to the
//! end of the last 30-block covering `N`; flag `i` stands for
//! `u30_value(i) = 30·⌊i/8⌋ + RESIDUES[i mod 8]`.
use crate::parameters::MODULUS_U;
use crate::primes::{
    has_small_factor, is_prime, lemma_divides_trans, lemma_divisor_coprime30,
    lemma_not_coprime30_not_prime, lemma_prime_iff_no_small_factor, lemma_prime_pi_6,
    lemma_prime_pi_flat, lemma_prime_pi_le, lemma_prime_pi_monotone, lemma_product_coprime30, prime_pi,
    primes_from_7,
};
use crate::u30::{
    coprime30, lemma_coprime30_mod, lemma_pos_of_residue, lemma_residue_pos, lemma_u30_index,
    lemma_u30_value, residue_pos, u30_index, u30_value, RESIDUES, U30_CARDINALITY,
};
use vstd::arithmetic::div_mod::*;
use vstd::arithmetic::mul::*;
use vstd::prelude::*;

verus! {

/// `MOD30_TO_INDEX[r]` is the position of `r` in [`RESIDUES`], or
/// `usize::MAX` where `gcd(r, 30) ≠ 1`.
pub const MOD30_TO_INDEX: [usize; 30] = [
    usize::MAX,
    0,
    usize::MAX,
    usize::MAX,
    usize::MAX,
    usize::MAX,
    usize::MAX,
    1,
    usize::MAX,
    usize::MAX,
    usize::MAX,
    2,
    usize::MAX,
    3,
    usize::MAX,
    usize::MAX,
    usize::MAX,
    4,
    usize::MAX,
    5,
    usize::MAX,
    usize::MAX,
    usize::MAX,
    6,
    usize::MAX,
    usize::MAX,
    usize::MAX,
    usize::MAX,
    usize::MAX,
    7,
];

/// Index of a `U(30)` residue within [`RESIDUES`], or `usize::MAX` if `r`
/// is not in `U(30)`.
pub fn residue_index(r: u64) -> (i: usize)
    ensures
        residue_pos(r as int) >= 0 ==> i == residue_pos(r as int),
        residue_pos(r as int) < 0 ==> i == usize::MAX,
{
    let mut i: usize = 0;
    while i < U30_CARDINALITY
        invariant
            0 <= i <= 8,
            forall|j: int| 0 <= j < i ==> RESIDUES[j] != r,
        decreases 8 - i,
    {
        if RESIDUES[i] == r {
            proof {
                lemma_pos_of_residue(i as int);
            }
            return i;
        }
        i += 1;
    }
    proof {
        if residue_pos(r as int) >= 0 {
            assert(RESIDUES[residue_pos(r as int)] == r);
        }
    }
    usize::MAX
}

/// `⌊(a + b) / 2⌋`, computed without overflow.
fn half_sum(a: u64, b: u64) -> (r: u64)
    ensures
        r == (a + b) / 2,
{
    a / 2 + b / 2 + (a % 2 + b % 2) / 2
}

/// Integer square root, rounded down, by Newton's iteration.
pub fn isqrt(n: u64) -> (r: u64)
    ensures
        r * r <= n,
        n < (r + 1) * (r + 1),
{
    if n < 2 {
        assert(n * n <= n) by (nonlinear_arith)
            requires
                n < 2,
        ;
        assert(n < (n + 1) * (n + 1)) by (nonlinear_arith);
        return n;
    }
    let mut x = n;
    let mut y = half_sum(x, 1);
    proof {
        lemma_div_by_self(n as int);
        assert(n < (x + 1) * (x + 1)) by (nonlinear_arith)
            requires
                x == n,
        ;
    }
    while y < x
        invariant
            2 <= n,
            1 <= x <= n,
            y == (x + n / x) / 2,
            n < (x + 1) * (x + 1),
        decreases x,
    {
        proof {
            lemma_newton_step(n as int, x as int, y as int);
        }
        x = y;
        proof {
            lemma_newton_no_overflow(n as int, x as int);
        }
        y = half_sum(x, n / x);
    }
    proof {
        lemma_fundamental_div_mod(n as int, x as int);
        let q = n / x;
        assert(x * x <= n) by (nonlinear_arith)
            requires
                y == (x + q) / 2,
                y >= x,
                n == x * q + n % x,
                n % x >= 0,
                x >= 1,
        ;
    }
    x
}

/// One Newton step never undershoots the floor square root.
proof fn lemma_newton_step(n: int, x: int, y: int)
    requires
        n >= 2,
        1 <= x <= n,
        y == (x + n / x) / 2,
    ensures
        n < (y + 1) * (y + 1),
        y >= 1,
{
    lemma_fundamental_div_mod(n, x);
    let q = n / x;
    let r = n % x;
    assert(0 <= r < x) by {
        lemma_mod_bound(n, x);
    }
    assert(n < x * (q + 1)) by (nonlinear_arith)
        requires
            n == x * q + r,
            r < x,
    ;
    assert(2 * (y + 1) >= x + q + 1);
    assert((x + q + 1) * (x + q + 1) >= 4 * x * (q + 1)) by (nonlinear_arith);
    assert(4 * (y + 1) * (y + 1) >= (x + q + 1) * (x + q + 1)) by (nonlinear_arith)
        requires
            2 * (y + 1) >= x + q + 1,
            x + q + 1 >= 0,
    ;
    assert(q >= 0) by {
        lemma_div_pos_is_pos(n, x);
    }
    if x == 1 {
        lemma_div_basics(n);
    }
    assert(x + q >= 2) by {
        if x == 1 {
            assert(q == n);
        }
    }
    assert(n < (y + 1) * (y + 1)) by (nonlinear_arith)
        requires
            n < x * (q + 1),
            4 * (y + 1) * (y + 1) >= 4 * x * (q + 1),
    ;
}

/// `x + n / x` stays within `n + 1` for `1 ≤ x ≤ n`.
proof fn lemma_newton_no_overflow(n: int, x: int)
    requires
        1 <= x <= n,
    ensures
        x + n / x <= n + 1,
        n / x >= 0,
{
    lemma_fundamental_div_mod(n, x);
    lemma_div_pos_is_pos(n, x);
    let q = n / x;
    lemma_mod_bound(n, x);
    if q >= 1 {
        assert(x + q <= x * q + 1) by (nonlinear_arith)
            requires
                x >= 1,
                q >= 1,
        ;
    }
}

/// Number of 30-blocks required to cover `[1, N]`.
pub fn room_count(n: u64) -> (r: u64)
    ensures
        r == n / 30 + 1,
{
    n / MODULUS_U + 1
}

/// One flag per `U(30)` member up to the end of the last block, all set.
pub fn build_table(n: u64) -> (t: Vec<bool>)
    requires
        (n / 30 + 1) * 8 <= usize::MAX,
    ensures
        t.len() == (n / 30 + 1) * 8,
        forall|i: int| 0 <= i < t.len() ==> t[i],
{
    let blocks = room_count(n) as usize;
    vec![true; blocks * U30_CARDINALITY]
}

/// The sieve's marks match "has a divisor below `bound`" on every member
/// up to `n`.
pub open spec fn sieve_state(t: Seq<bool>, n: int, bound: int) -> bool {
    &&& t.len() >= 1
    &&& !t[0]
    &&& forall|i: int|
        #![trigger t[i]]
        1 <= i < t.len() && u30_value(i) <= n ==> t[i] == !has_small_factor(u30_value(i), bound)
}

/// `u30_value` is monotone.
pub proof fn lemma_u30_value_monotone(i: int, j: int)
    requires
        0 <= i <= j,
    ensures
        u30_value(i) <= u30_value(j),
        i < j ==> u30_value(i) < u30_value(j),
    decreases j - i,
{
    if i < j {
        lemma_u30_value_monotone(i, j - 1);
        lemma_u30_value(j - 1);
    }
}

/// A member up to `n` sits inside a table of `⌊n/30⌋ + 1` blocks.
proof fn lemma_index_in_table(i: int, n: int)
    requires
        i >= 0,
        n >= 0,
        u30_value(i) <= n,
    ensures
        i < (n / 30 + 1) * 8,
{
    lemma_u30_value(i);
    lemma_fundamental_div_mod(i, 8);
    assert(30 * (i / 8) + 1 <= n);
    assert(i / 8 <= n / 30) by {
        lemma_div_is_ordered(30 * (i / 8), n, 30);
        lemma_div_multiples_vanish(i / 8, 30);
    }
    lemma_mod_bound(i, 8);
}

/// Raising the bound across a gap between consecutive members of `U(30)`
/// adds no divisor of a number coprime to 30.
proof fn lemma_bound_step(v: int, a: int, b: int)
    requires
        coprime30(v),
        a < b,
        forall|k: int| a < k < b ==> !coprime30(k),
    ensures
        has_small_factor(v, b) == has_small_factor(v, a + 1),
{
    if has_small_factor(v, b) {
        let d = choose|d: int| 2 <= d < b && d * d <= v && #[trigger] (v % d) == 0;
        if d > a {
            lemma_divisor_coprime30(v, d);
        }
        assert(2 <= d < a + 1 && d * d <= v && v % d == 0);
    }
}

/// Raising the bound past `p` adds exactly the multiples `v` of `p` with
/// `p² ≤ v`.
proof fn lemma_bound_plus_one(v: int, p: int)
    ensures
        has_small_factor(v, p + 1) == (has_small_factor(v, p) || (p >= 2 && p * p <= v && v % p
            == 0)),
{
    if has_small_factor(v, p + 1) && !has_small_factor(v, p) {
        let d = choose|d: int| 2 <= d < p + 1 && d * d <= v && #[trigger] (v % d) == 0;
        assert(d == p);
    }
    if p >= 2 && p * p <= v && v % p == 0 {
        assert(2 <= p < p + 1 && p * p <= v && v % p == 0);
    }
}

/// Multiples of a composite `p` past `p²` already have a smaller divisor.
proof fn lemma_composite_multiple(v: int, p: int)
    requires
        p >= 2,
        has_small_factor(p, p),
        p * p <= v,
        v % p == 0,
    ensures
        has_small_factor(v, p),
{
    let d = choose|d: int| 2 <= d < p && d * d <= p && #[trigger] (p % d) == 0;
    lemma_divides_trans(d, p, v);
    assert(p <= p * p) by (nonlinear_arith)
        requires
            p >= 2,
    ;
    assert(2 <= d < p && d * d <= v && v % d == 0);
}

/// For `p ≥ 1` and `v ≥ 0`: `p² ≤ v` exactly when `⌊v/p⌋ ≥ p`.
proof fn lemma_square_le_iff_quotient(v: int, p: int)
    requires
        p >= 1,
        v >= 0,
    ensures
        (p * p <= v) == (v / p >= p),
{
    lemma_fundamental_div_mod(v, p);
    lemma_mod_bound(v, p);
    let q = v / p;
    if p * p <= v {
        if q < p {
            assert(v < p * p) by (nonlinear_arith)
                requires
                    v == p * q + v % p,
                    v % p < p,
                    q < p,
                    q >= 0,
                    p >= 1,
            ;
        }
    }
    if q >= p {
        assert(p * p <= v) by (nonlinear_arith)
            requires
                v == p * q + v % p,
                v % p >= 0,
                q >= p,
                p >= 1,
        ;
    }
}

/// The marks made for `p` so far: multiples `v` of `p` with `p² ≤ v` and
/// cofactor below `q`.
pub open spec fn marked_by(v: int, p: int, q: int) -> bool {
    v % p == 0 && p * p <= v && v / p < q
}

/// Advancing the cofactor from one member `q` of `U(30)` to the next adds
/// exactly the product `p · q`.
proof fn lemma_marked_step(v: int, p: int, j: int)
    requires
        j >= 0,
        p >= 7,
        v >= 1,
        coprime30(v),
        p <= u30_value(j),
    ensures
        marked_by(v, p, u30_value(j + 1)) == (marked_by(v, p, u30_value(j)) || v == p
            * u30_value(j)),
{
    let q = u30_value(j);
    let q2 = u30_value(j + 1);
    lemma_u30_value(j);
    lemma_fundamental_div_mod(v, p);
    lemma_mod_bound(v, p);
    if marked_by(v, p, q2) && !marked_by(v, p, q) {
        let c = v / p;
        assert(v == p * c);
        assert(c >= 1) by (nonlinear_arith)
            requires
                v == p * c,
                v >= 1,
                p >= 1,
        ;
        lemma_mul_is_commutative(p, c);
        lemma_mod_multiples_basic(p, c);
        assert(v % c == 0);
        lemma_divisor_coprime30(v, c);
        assert(c == q);
    }
    if v == p * q {
        lemma_mod_multiples_basic(q, p);
        lemma_mul_is_commutative(p, q);
        lemma_div_multiples_vanish(q, p);
        assert(v / p == q);
        assert(p * p <= p * q) by (nonlinear_arith)
            requires
                p <= q,
                p >= 0,
        ;
    }
}

/// Mark every composite member of `U(30)` up to `n` by iterating `p · q`
/// over members `p ≤ q` with `p · q ≤ n`, taking `p` in increasing order up
/// to `√n` and skipping `p` already marked composite.
fn mark_composites(table: &mut Vec<bool>, n: u64)
    requires
        n < u64::MAX,
        old(table)@.len() == (n / 30 + 1) * 8,
        (n / 30 + 1) * 8 <= usize::MAX,
        forall|i: int| 0 <= i < old(table)@.len() ==> old(table)@[i],
    ensures
        final(table)@.len() == old(table)@.len(),
        forall|i: int|
            #![trigger final(table)@[i]]
            0 <= i < final(table)@.len() && u30_value(i) <= n ==> final(table)@[i] == (i
                >= 1 && is_prime(u30_value(i))),
        !final(table)@[0],
        forall|i: int|
            #![trigger final(table)@[i]]
            1 <= i < final(table)@.len() && u30_value(i) > n ==> final(table)@[i] == old(
                table,
            )@[i],
{
    let sqrt_n = isqrt(n);
    let len = table.len();

    // 1 is not prime — it is `RESIDUES[0]` in block 0.
    table.set(0, false);
    proof {
        assert forall|i: int|
            #![trigger table@[i]]
            1 <= i < table@.len() && u30_value(i) <= n implies table@[i]
            == !has_small_factor(u30_value(i), 1) by {}
        assert(sieve_state(table@, n as int, 1));
    }

    let mut p_idx: usize = 0;
    while p_idx < len
        invariant
            n < u64::MAX,
            len == table@.len(),
            len == (n / 30 + 1) * 8,
            old(table)@.len() == len,
            sqrt_n * sqrt_n <= n,
            n < (sqrt_n + 1) * (sqrt_n + 1),
            0 <= p_idx <= len,
            u30_value(p_idx as int) <= sqrt_n + 7,
            sieve_state(table@, n as int, u30_value(p_idx as int)),
            forall|i: int|
                #![trigger table@[i]]
                1 <= i < len && u30_value(i) > n ==> table@[i] == old(table)@[i],
        decreases len - p_idx,
    {
        proof {
            lemma_u30_value(p_idx as int);
            lemma_fundamental_div_mod(p_idx as int, 8);
            assert(sqrt_n <= u32::MAX) by (nonlinear_arith)
                requires
                    sqrt_n * sqrt_n <= n,
                    n < u64::MAX,
            ;
        }
        let p = (p_idx / U30_CARDINALITY) as u64 * MODULUS_U + RESIDUES[p_idx % U30_CARDINALITY];
        assert(p == u30_value(p_idx as int));
        if p > sqrt_n {
            proof {
                lemma_sieve_complete(table@, n as int, sqrt_n as int, p as int);
            }
            return;
        }
        let ghost next = u30_value(p_idx as int + 1);
        if p >= 7 && table[p_idx] {
            // Mark p·q for all members q ≥ p with p·q ≤ n.
            proof {
                assert(p * p <= n) by (nonlinear_arith)
                    requires
                        p <= sqrt_n,
                        sqrt_n * sqrt_n <= n,
                ;
                assert forall|i: int|
                    #![trigger table@[i]]
                    1 <= i < table@.len() && u30_value(i) <= n implies table@[i] == !(
                    has_small_factor(u30_value(i), p as int) || marked_by(
                        u30_value(i),
                        p as int,
                        p as int,
                    )) by {
                    lemma_u30_value(i);
                    lemma_square_le_iff_quotient(u30_value(i), p as int);
                }
            }
            proof {
                lemma_mul_is_commutative(p as int, p as int);
                lemma_div_multiples_vanish(p as int, p as int);
                lemma_div_is_ordered((p * p) as int, n as int, p as int);
            }
            let mut q_idx: usize = p_idx;
            loop
                invariant_except_break
                    n < u64::MAX,
                    len == table@.len(),
                    len == (n / 30 + 1) * 8,
                    7 <= p,
                    p * p <= n,
                    p == u30_value(p_idx as int),
                    p_idx <= q_idx < len,
                    u30_value(q_idx as int) <= (n as int) / (p as int) + 7,
                    table@.len() >= 1,
                    !table@[0],
                    forall|i: int|
                        #![trigger table@[i]]
                        1 <= i < len && u30_value(i) > n ==> table@[i] == old(table)@[i],
                    forall|i: int|
                        #![trigger table@[i]]
                        1 <= i < table@.len() && u30_value(i) <= n ==> table@[i] == !(
                        has_small_factor(u30_value(i), p as int) || marked_by(
                            u30_value(i),
                            p as int,
                            u30_value(q_idx as int),
                        )),
                ensures
                    len == table@.len(),
                    table@.len() >= 1,
                    !table@[0],
                    forall|i: int|
                        #![trigger table@[i]]
                        1 <= i < len && u30_value(i) > n ==> table@[i] == old(table)@[i],
                    forall|i: int|
                        #![trigger table@[i]]
                        1 <= i < table@.len() && u30_value(i) <= n ==> table@[i] == !(
                        has_small_factor(u30_value(i), p as int) || (u30_value(i) % (p as int) == 0
                            && p * p <= u30_value(i))),
                decreases len - q_idx,
            {
                proof {
                    lemma_u30_value(q_idx as int);
                    lemma_fundamental_div_mod(q_idx as int, 8);
                    lemma_u30_value_monotone(p_idx as int, q_idx as int);
                    assert((n as int) / (p as int) <= (n as int) / 7) by {
                        lemma_div_is_ordered_by_denominator(n as int, 7, p as int);
                    }
                }
                let q = (q_idx / U30_CARDINALITY) as u64 * MODULUS_U
                    + RESIDUES[q_idx % U30_CARDINALITY];
                assert(q == u30_value(q_idx as int));
                let prod = match p.checked_mul(q) {
                    Some(v) if v <= n => v,
                    _ => {
                        proof {
                            lemma_inner_exit(table@, n as int, p as int, q as int);
                        }
                        break ;
                    },
                };
                proof {
                    lemma_product_coprime30(p as int, q as int);
                    lemma_u30_index(prod as int);
                    lemma_coprime30_mod(prod as int);
                    lemma_residue_pos(prod as int % 30);
                    lemma_index_in_table(u30_index(prod as int), n as int);
                }
                let prod_block = (prod / MODULUS_U) as usize;
                let prod_off = MOD30_TO_INDEX[(prod % MODULUS_U) as usize];
                let prod_idx = prod_block * U30_CARDINALITY + prod_off;
                assert(prod_idx == u30_index(prod as int));
                let ghost before = table@;
                if prod_idx < table.len() {
                    table.set(prod_idx, false);
                }
                proof {
                    lemma_inner_step(
                        before,
                        table@,
                        n as int,
                        p as int,
                        q_idx as int,
                        prod_idx as int,
                    );
                    lemma_u30_value(q_idx as int + 1);
                    assert(q * p <= n);
                    assert(q <= (n as int) / (p as int)) by {
                        lemma_mul_is_commutative(q as int, p as int);
                        lemma_div_multiples_vanish(q as int, p as int);
                        lemma_div_is_ordered((p * q) as int, n as int, p as int);
                    }
                    assert((n as int) / (p as int) <= (n as int) / 7) by {
                        lemma_div_is_ordered_by_denominator(n as int, 7, p as int);
                    }
                    assert(u30_value(q_idx as int + 1) <= n);
                    lemma_index_in_table(q_idx as int + 1, n as int);
                }
                q_idx += 1;
            }
            proof {
                lemma_outer_step(table@, n as int, p as int, p_idx as int);
            }
        } else {
            proof {
                if p >= 7 {
                    assert(p <= n) by (nonlinear_arith)
                        requires
                            p <= sqrt_n,
                            sqrt_n * sqrt_n <= n,
                            p >= 1,
                    ;
                    lemma_index_in_table(p_idx as int, n as int);
                    assert(has_small_factor(p as int, p as int));
                }
                lemma_skip_step(table@, n as int, p as int, p_idx as int);
            }
        }
        p_idx += 1;
    }
    proof {
        lemma_u30_value(p_idx as int);
        assert(p_idx as int / 8 == n / 30 + 1) by {
            lemma_div_multiples_vanish((n / 30 + 1) as int, 8);
        }
        lemma_fundamental_div_mod(n as int, 30);
        assert(sqrt_n <= n) by (nonlinear_arith)
            requires
                sqrt_n * sqrt_n <= n,
        ;
        lemma_sieve_complete(table@, n as int, sqrt_n as int, u30_value(p_idx as int));
    }
}

/// Once every candidate divisor up to `√n` is accounted for, the marks are
/// exactly primality.
proof fn lemma_sieve_complete(t: Seq<bool>, n: int, s: int, bound: int)
    requires
        sieve_state(t, n, bound),
        s >= 0,
        n < (s + 1) * (s + 1),
        bound > s,
    ensures
        forall|i: int|
            #![trigger t[i]]
            0 <= i < t.len() && u30_value(i) <= n ==> t[i] == (i >= 1 && is_prime(u30_value(i))),
{
    assert forall|i: int|
        #![trigger t[i]]
        0 <= i < t.len() && u30_value(i) <= n implies t[i] == (i >= 1 && is_prime(
        u30_value(i),
    )) by {
        if i >= 1 {
            let v = u30_value(i);
            lemma_u30_value_monotone(1, i);
            assert(u30_value(1) == 7);
            lemma_prime_iff_no_small_factor(v);
            if has_small_factor(v, v + 1) {
                let d = choose|d: int| 2 <= d < v + 1 && d * d <= v && #[trigger] (v % d) == 0;
                assert(d <= s) by (nonlinear_arith)
                    requires
                        d * d <= v,
                        v <= n,
                        n < (s + 1) * (s + 1),
                        d >= 0,
                        s >= 0,
                ;
                assert(2 <= d < bound && d * d <= v && v % d == 0);
            }
            if has_small_factor(v, bound) {
                let d = choose|d: int| 2 <= d < bound && d * d <= v && #[trigger] (v % d) == 0;
                assert(d <= v) by (nonlinear_arith)
                    requires
                        d * d <= v,
                        d >= 2,
                ;
                assert(2 <= d < v + 1 && d * d <= v && v % d == 0);
            }
        }
    }
}

/// Leaving the inner loop: `p · q > n`, so every multiple of `p` up to
/// `n` past `p²` has been marked.
proof fn lemma_inner_exit(t: Seq<bool>, n: int, p: int, q: int)
    requires
        p >= 7,
        n >= 0,
        p * q > n,
        forall|i: int|
            #![trigger t[i]]
            1 <= i < t.len() && u30_value(i) <= n ==> t[i] == !(has_small_factor(u30_value(i), p)
                || marked_by(u30_value(i), p, q)),
    ensures
        forall|i: int|
            #![trigger t[i]]
            1 <= i < t.len() && u30_value(i) <= n ==> t[i] == !(has_small_factor(u30_value(i), p)
                || (u30_value(i) % p == 0 && p * p <= u30_value(i))),
{
    assert forall|i: int|
        #![trigger t[i]]
        1 <= i < t.len() && u30_value(i) <= n implies t[i] == !(has_small_factor(u30_value(i), p)
        || (u30_value(i) % p == 0 && p * p <= u30_value(i))) by {
        let v = u30_value(i);
        lemma_u30_value(i);
        if v % p == 0 && p * p <= v {
            lemma_fundamental_div_mod(v, p);
            assert(v / p < q) by (nonlinear_arith)
                requires
                    v == p * (v / p) + v % p,
                    v % p == 0,
                    v <= n,
                    p * q > n,
                    p >= 1,
            ;
        }
    }
}

/// Marking `p · q` keeps the inner-loop invariant with the cofactor bound
/// advanced to the next member.
proof fn lemma_inner_step(before: Seq<bool>, after: Seq<bool>, n: int, p: int, j: int, idx: int)
    requires
        p >= 7,
        j >= 0,
        p <= u30_value(j),
        idx == u30_index(p * u30_value(j)),
        u30_value(idx) == p * u30_value(j),
        0 <= idx < before.len(),
        after == before.update(idx, false),
        forall|i: int|
            #![trigger before[i]]
            1 <= i < before.len() && u30_value(i) <= n ==> before[i] == !(has_small_factor(
                u30_value(i),
                p,
            ) || marked_by(u30_value(i), p, u30_value(j))),
    ensures
        forall|i: int|
            #![trigger after[i]]
            1 <= i < after.len() && u30_value(i) <= n ==> after[i] == !(has_small_factor(
                u30_value(i),
                p,
            ) || marked_by(u30_value(i), p, u30_value(j + 1))),
{
    assert forall|i: int|
        #![trigger after[i]]
        1 <= i < after.len() && u30_value(i) <= n implies after[i] == !(has_small_factor(
        u30_value(i),
        p,
    ) || marked_by(u30_value(i), p, u30_value(j + 1))) by {
        lemma_u30_value(i);
        lemma_marked_step(u30_value(i), p, j);
        if i != idx {
            assert(after[i] == before[i]);
            assert(u30_value(i) != p * u30_value(j)) by {
                if u30_value(i) == p * u30_value(j) {
                    lemma_u30_value(i);
                    assert(u30_index(u30_value(i)) == i);
                }
            }
        }
    }
}

/// After all multiples of a prime `p` are marked, the bound advances to
/// the next member of `U(30)`.
proof fn lemma_outer_step(t: Seq<bool>, n: int, p: int, p_idx: int)
    requires
        p >= 7,
        p_idx >= 0,
        p == u30_value(p_idx),
        t.len() >= 1,
        !t[0],
        forall|i: int|
            #![trigger t[i]]
            1 <= i < t.len() && u30_value(i) <= n ==> t[i] == !(has_small_factor(u30_value(i), p)
                || (u30_value(i) % p == 0 && p * p <= u30_value(i))),
    ensures
        sieve_state(t, n, u30_value(p_idx + 1)),
{
    lemma_u30_value(p_idx);
    assert forall|i: int|
        #![trigger t[i]]
        1 <= i < t.len() && u30_value(i) <= n implies t[i] == !has_small_factor(
        u30_value(i),
        u30_value(p_idx + 1),
    ) by {
        lemma_u30_value(i);
        lemma_bound_plus_one(u30_value(i), p);
        lemma_bound_step(u30_value(i), p, u30_value(p_idx + 1));
    }
}

/// Skipping `p` (the unit 1, or a member already marked composite) keeps
/// the invariant with the bound advanced to the next member.
proof fn lemma_skip_step(t: Seq<bool>, n: int, p: int, p_idx: int)
    requires
        p_idx >= 0,
        p == u30_value(p_idx),
        sieve_state(t, n, p),
        p >= 7 ==> has_small_factor(p, p),
    ensures
        sieve_state(t, n, u30_value(p_idx + 1)),
{
    lemma_u30_value(p_idx);
    assert forall|i: int|
        #![trigger t[i]]
        1 <= i < t.len() && u30_value(i) <= n implies t[i] == !has_small_factor(
        u30_value(i),
        u30_value(p_idx + 1),
    ) by {
        let v = u30_value(i);
        lemma_u30_value(i);
        lemma_bound_plus_one(v, p);
        lemma_bound_step(v, p, u30_value(p_idx + 1));
        if p >= 7 {
            if p * p <= v && v % p == 0 {
                lemma_composite_multiple(v, p);
            }
        } else {
            // p = 1: no divisor in [2, 7) divides a number coprime to 30.
            assert(p == 1) by {
                if p_idx > 0 {
                    lemma_u30_value_monotone(1, p_idx);
                    assert(u30_value(1) == 7);
                }
            }
        }
    }
}

/// Number of flags set among `t[0..k)` at members in `[7, n]`.
pub open spec fn flag_count(t: Seq<bool>, n: int, k: int) -> nat
    decreases k,
{
    if k <= 0 {
        0
    } else {
        flag_count(t, n, k - 1) + if t[k - 1] && 7 <= u30_value(k - 1) <= n {
            1nat
        } else {
            0nat
        }
    }
}

/// Past the first member above `n`, no further flag is counted.
proof fn lemma_flag_count_flat(t: Seq<bool>, n: int, k: int, j: int)
    requires
        0 <= k <= j,
        u30_value(k) > n,
    ensures
        flag_count(t, n, j) == flag_count(t, n, k),
    decreases j - k,
{
    if j > k {
        lemma_flag_count_flat(t, n, k, j - 1);
        lemma_u30_value_monotone(k, j - 1);
    }
}

/// The table covers `[1, n]` and holds exactly primality there (the unit
/// cleared).
pub open spec fn sieved_table(t: Seq<bool>, n: int) -> bool {
    &&& t.len() == (n / 30 + 1) * 8
    &&& forall|i: int|
        #![trigger t[i]]
        0 <= i < t.len() && u30_value(i) <= n ==> t[i] == (i >= 1 && is_prime(u30_value(i)))
}

/// Count the flags still set for members in `[7, n]`; on a sieved table
/// this is the number of primes in `[7, n]`. The table is only read.
fn count_primes_in_table(table: &Vec<bool>, n: u64) -> (count: u64)
    ensures
        count == flag_count(table@, n as int, table@.len() as int),
        sieved_table(table@, n as int) ==> count == primes_from_7(n as nat),
{
    let mut count: u64 = 0;
    let len = table.len();
    let mut idx: usize = 0;
    let ghost sieved = sieved_table(table@, n as int);
    proof {
        lemma_prime_pi_6();
    }
    while idx < len
        invariant
            len == table@.len(),
            0 <= idx <= len,
            sieved == sieved_table(table@, n as int),
            prime_pi(6) == 3,
            count == flag_count(table@, n as int, idx as int),
            count <= idx,
            idx >= 1 ==> u30_value(idx as int - 1) <= n,
            sieved && idx >= 1 ==> count + 3 == prime_pi((u30_value(idx as int) - 1) as nat),
            sieved && idx == 0 ==> count == 0,
        decreases len - idx,
    {
        proof {
            lemma_u30_value(idx as int);
            lemma_fundamental_div_mod(idx as int, 8);
            if idx >= 1 {
                lemma_u30_value(idx as int - 1);
            }
        }
        let val: u128 = (idx / U30_CARDINALITY) as u128 * 30 + RESIDUES[idx % U30_CARDINALITY] as u128;
        assert(val == u30_value(idx as int));
        if val > n as u128 {
            proof {
                lemma_flag_count_flat(table@, n as int, idx as int, len as int);
                if sieved {
                    if n >= 7 {
                        lemma_gap_flat(idx as int - 1, n as int);
                    } else if idx >= 2 {
                        lemma_u30_value_monotone(1, idx as int - 1);
                        assert(u30_value(1) == 7);
                    }
                }
            }
            return count;
        }
        let ghost old_count = count;
        if val >= 7 && table[idx] {
            count += 1;
        }
        proof {
            lemma_u30_value(idx as int + 1);
            assert(flag_count(table@, n as int, idx as int + 1) == flag_count(
                table@,
                n as int,
                idx as int,
            ) + if table@[idx as int] && 7 <= u30_value(idx as int) <= n {
                1nat
            } else {
                0nat
            });
            if sieved {
                if idx == 0 {
                    assert(val == 1);
                    assert(u30_value(1) == 7);
                    assert(count == 0);
                } else {
                    lemma_u30_value_monotone(1, idx as int);
                    assert(u30_value(1) == 7);
                    assert(val >= 7);
                }
                if idx >= 1 {
                    lemma_gap_pi(idx as int);
                } else {
                    lemma_u30_value(1);
                }
            }
        }
        idx += 1;
    }
    proof {
        if sieved {
            lemma_u30_value(idx as int - 1);
            lemma_u30_value(idx as int);
            assert(idx as int / 8 == n / 30 + 1) by {
                lemma_div_multiples_vanish((n / 30 + 1) as int, 8);
            }
            lemma_fundamental_div_mod(n as int, 30);
            if n >= 7 {
                lemma_gap_flat(idx as int - 1, n as int);
            } else if idx >= 2 {
                lemma_u30_value_monotone(1, idx as int - 1);
                assert(u30_value(1) == 7);
            }
        }
    }
    count
}

/// Across the gap after member `i`, `π` grows by exactly whether that
/// member is prime.
proof fn lemma_gap_pi(i: int)
    requires
        i >= 1,
    ensures
        prime_pi((u30_value(i + 1) - 1) as nat) == prime_pi((u30_value(i) - 1) as nat) + if is_prime(
            u30_value(i),
        ) {
            1nat
        } else {
            0nat
        },
{
    lemma_u30_value(i);
    lemma_u30_value_monotone(1, i);
    assert(u30_value(1) == 7);
    let v = u30_value(i);
    assert forall|k: int| v < k <= u30_value(i + 1) - 1 implies !is_prime(k) by {
        lemma_not_coprime30_not_prime(k);
    }
    lemma_prime_pi_flat(v as nat, (u30_value(i + 1) - 1) as nat);
}

/// `π` is flat from `n` up to just before the member after `n`.
proof fn lemma_gap_flat(i: int, n: int)
    requires
        i >= 0,
        u30_value(i) <= n,
        n >= 7,
        n < u30_value(i + 1),
    ensures
        prime_pi((u30_value(i + 1) - 1) as nat) == prime_pi(n as nat),
{
    lemma_u30_value(i);
    assert forall|k: int| n < k <= u30_value(i + 1) - 1 implies !is_prime(k) by {
        lemma_not_coprime30_not_prime(k);
    }
    lemma_prime_pi_flat(n as nat, (u30_value(i + 1) - 1) as nat);
}

/// Count of primes in `U(30)` (i.e. `≥ 7`) up to `N`.
pub fn primes_in_u30(n: u64) -> (r: u64)
    requires
        n <= u64::MAX - 6,
        (n / 30 + 1) * 8 <= usize::MAX,
    ensures
        r == primes_from_7(n as nat),
{
    if n < 7 {
        return 0;
    }
    let mut tbl = build_table(n);
    mark_composites(&mut tbl, n);
    count_primes_in_table(&tbl, n)
}

/// `π(N)` — exact prime count via the U(30) sieve:
/// `π(N) = #{primes in U(30) ∩ [1, N]} + 3`.
pub fn pi_via_u30_sieve(n: u64) -> (r: u64)
    requires
        n <= u64::MAX - 6,
        (n / 30 + 1) * 8 <= usize::MAX,
    ensures
        r == prime_pi(n as nat),
{
    proof {
        lemma_prime_pi_6();
        reveal_with_fuel(prime_pi, 7);
        assert(is_prime(2) && is_prime(3) && is_prime(5));
        assert(4int % 2 == 0 && 6int % 2 == 0);
    }
    if n < 2 {
        return 0;
    }
    if n < 3 {
        return 1;
    }
    if n < 5 {
        return 2;
    }
    if n < 7 {
        return 3;
    }
    proof {
        lemma_prime_pi_monotone(6, n as nat);
        lemma_prime_pi_le(n as nat);
    }
    primes_in_u30(n) + 3
}

/// Number of integers in `[1, N]` coprime to 30:
/// `8 · ⌊N/30⌋ + |{ r ∈ U(30) : r ≤ N mod 30 }|`.
pub fn d30(n: u64) -> (r: u64)
    ensures
        r == coprime30_count(n as nat),
{
    let q = n / MODULUS_U;
    let r = n % MODULUS_U;
    let mut count = 0u64;
    let mut i: usize = 0;
    while i < U30_CARDINALITY
        invariant
            0 <= i <= 8,
            r < 30,
            count == residues_upto(r as int, i as int),
            count <= i,
        decreases 8 - i,
    {
        if RESIDUES[i] <= r {
            count += 1;
        }
        i += 1;
    }
    proof {
        lemma_coprime30_count(n as nat);
        assert(8 * q <= u64::MAX - 8);
    }
    8 * q + count
}

/// Number of `k ∈ [1, n]` coprime to 30.
pub open spec fn coprime30_count(n: nat) -> nat
    decreases n,
{
    if n == 0 {
        0
    } else {
        coprime30_count((n - 1) as nat) + if coprime30(n as int) {
            1nat
        } else {
            0nat
        }
    }
}

/// Number of the first `i` residues of `U(30)` that are at most `r`.
pub open spec fn residues_upto(r: int, i: int) -> nat
    decreases i,
{
    if i <= 0 {
        0
    } else {
        residues_upto(r, i - 1) + if RESIDUES[i - 1] <= r {
            1nat
        } else {
            0nat
        }
    }
}

/// The closed form behind [`d30`].
pub proof fn lemma_coprime30_count(n: nat)
    ensures
        coprime30_count(n) == 8 * (n / 30) + residues_upto((n % 30) as int, 8),
    decreases n,
{
    reveal_with_fuel(residues_upto, 9);
    if n > 0 {
        lemma_coprime30_count((n - 1) as nat);
        lemma_fundamental_div_mod(n as int, 30);
        lemma_fundamental_div_mod(n as int - 1, 30);
        lemma_coprime30_mod(n as int);
        let r = n % 30;
        if r == 0 {
            assert((n - 1) as nat / 30 == n / 30 - 1 && (n - 1) as nat % 30 == 29) by {
                lemma_fundamental_div_mod_converse(n as int - 1, 30, n as int / 30 - 1, 29);
            }
        } else {
            assert((n - 1) as nat / 30 == n / 30 && (n - 1) as nat % 30 == r - 1) by {
                lemma_fundamental_div_mod_converse(n as int - 1, 30, n as int / 30, r - 1);
            }
            lemma_residues_upto_step(r as int);
        }
    }
}

/// Raising `r` by one adds one exactly when `r` is a residue of `U(30)`.
proof fn lemma_residues_upto_step(r: int)
    requires
        1 <= r < 30,
    ensures
        residues_upto(r, 8) == residues_upto(r - 1, 8) + if coprime30(r) {
            1nat
        } else {
            0nat
        },
{
    reveal_with_fuel(residues_upto, 9);
    lemma_residue_pos(r);
}


/// Trial division: `n` is prime. Serves as an independent oracle for the
/// sieve.
pub fn is_prime_oracle(n: u64) -> (r: bool)
    ensures
        r == is_prime(n as int),
{
    if n < 2 {
        return false;
    }
    if n < 4 {
        proof {
            assert(is_prime(n as int));
        }
        return true;
    }
    if n % 2 == 0 {
        proof {
            assert((n as int) % 2 == 0);
        }
        return false;
    }
    let r = isqrt(n);
    let mut k: u64 = 3;
    proof {
        assert(1 <= r <= 0xFFFF_FFFF) by (nonlinear_arith)
            requires
                r * r <= n,
                n < (r + 1) * (r + 1),
                5 <= n,
        ;
        lemma_prime_iff_no_small_factor(n as int);
        assert forall|d: int| 2 <= d < 3 && d * d <= n implies #[trigger] ((n as int) % d) != 0 by {
            assert(d == 2);
        }
    }
    while k <= r
        invariant
            5 <= n,
            n % 2 == 1,
            r * r <= n < (r + 1) * (r + 1),
            1 <= r <= 0xFFFF_FFFF,
            3 <= k <= r + 2,
            k % 2 == 1,
            forall|d: int| 2 <= d < k && d * d <= n ==> #[trigger] ((n as int) % d) != 0,
        decreases r + 2 - k,
    {
        if n % k == 0 {
            proof {
                assert(k * k <= n) by (nonlinear_arith)
                    requires
                        k <= r,
                        r * r <= n,
                ;
                assert(k <= n) by (nonlinear_arith)
                    requires
                        k * k <= n,
                        k >= 1,
                ;
                assert((n as int) % (k as int) == 0);
                assert(has_small_factor(n as int, n + 1));
                lemma_prime_iff_no_small_factor(n as int);
            }
            return false;
        }
        proof {
            assert forall|d: int| 2 <= d < k + 2 && d * d <= n implies #[trigger] ((n as int) % d)
                != 0 by {
                if d == k + 1 {
                    if (n as int) % d == 0 {
                        lemma_divides_trans(2, d, n as int);
                    }
                }
            }
        }
        k = k + 2;
    }
    proof {
        assert forall|d: int| 2 <= d < n + 1 && d * d <= n implies #[trigger] ((n as int) % d) != 0 by {
            if d >= k {
                assert(d * d >= (r + 1) * (r + 1)) by (nonlinear_arith)
                    requires
                        d >= k,
                        k >= r + 1,
                ;
            }
        }
        lemma_prime_iff_no_small_factor(n as int);
    }
    true
}

} // verus!
