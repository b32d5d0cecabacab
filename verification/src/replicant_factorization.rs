//! Replicant factorization counts.
//!
//! For `m ≥ 1`, a *factorization* of `m` is an unordered pair `(a, b)`
//! with `a · b = m`, `7 ≤ a ≤ b` and both `a` and `b` coprime to 30. It is
//! determined by its smaller factor `a`, its *lead*. A *replicant* is an
//! `m` with at least two factorizations.
use crate::arithmetic::gcd;
use crate::parameters::MODULUS_U;
use crate::u30::{coprime30, lemma_gcd30};
use std::collections::BTreeMap;
use vstd::prelude::*;

verus! {

broadcast use vstd::laws_cmp::group_laws_cmp;

/// `a` leads a factorization of `m`: `m = a · (m / a)` with
/// `7 ≤ a ≤ m / a` and both factors coprime to 30.
pub open spec fn leads_factorization(a: int, m: int) -> bool {
    &&& 7 <= a
    &&& a * a <= m
    &&& m % a == 0
    &&& coprime30(a)
    &&& coprime30(m / a)
}

/// Number of leads of factorizations of `m` below `a`.
pub open spec fn lead_count(m: int, a: nat) -> nat
    decreases a,
{
    if a == 0 {
        0
    } else {
        lead_count(m, (a - 1) as nat) + if leads_factorization(a - 1, m) {
            1nat
        } else {
            0nat
        }
    }
}

/// Number of factorizations of `m`.
pub open spec fn factorization_count(m: nat) -> nat {
    lead_count(m as int, m + 1)
}

/// The factorization table up to `n`: each `m ≤ n` with at least one
/// factorization, mapped to its number of factorizations.
pub open spec fn factorization_map(n: nat) -> Map<u64, u64> {
    Map::new(
        |m: u64| 1 <= m <= n && factorization_count(m as nat) >= 1,
        |m: u64| factorization_count(m as nat) as u64,
    )
}

/// `Σ_{m ≤ n} factorization_count(m)`.
pub open spec fn total_pairs_upto(n: nat) -> nat
    decreases n,
{
    if n == 0 {
        0
    } else {
        total_pairs_upto((n - 1) as nat) + factorization_count(n)
    }
}

/// Number of `m ≤ n` with at least one factorization.
pub open spec fn unique_products_upto(n: nat) -> nat
    decreases n,
{
    if n == 0 {
        0
    } else {
        unique_products_upto((n - 1) as nat) + if factorization_count(n) >= 1 {
            1nat
        } else {
            0nat
        }
    }
}

/// `Σ_{m ≤ n} (factorization_count(m) − 1)` over the replicants `m`.
pub open spec fn duplicates_upto(n: nat) -> nat
    decreases n,
{
    if n == 0 {
        0
    } else {
        duplicates_upto((n - 1) as nat) + if factorization_count(n) >= 2 {
            (factorization_count(n) - 1) as nat
        } else {
            0nat
        }
    }
}

/// The replicants `m ≤ n`, ascending.
pub open spec fn replicants_upto(n: nat) -> Seq<u64>
    decreases n,
{
    if n == 0 {
        Seq::empty()
    } else if factorization_count(n) >= 2 {
        replicants_upto((n - 1) as nat).push(n as u64)
    } else {
        replicants_upto((n - 1) as nat)
    }
}

/// Counts of leads agree on two bounds when no lead lies between them.
proof fn lemma_lead_count_stable(m: int, a: nat, c: nat)
    requires
        a <= c,
        forall|x: int| a <= x < c ==> !#[trigger] leads_factorization(x, m),
    ensures
        lead_count(m, c) == lead_count(m, a),
    decreases c - a,
{
    if a < c {
        lemma_lead_count_stable(m, a, (c - 1) as nat);
    }
}

/// No lead `x` has `x · x` above `m`; so the count is complete at any `a`
/// with `a · a > m`.
proof fn lemma_lead_count_complete(m: nat, a: nat)
    requires
        a * a > m,
    ensures
        lead_count(m as int, a) == factorization_count(m),
{
    assert forall|x: int| a <= x && x < m + 1 implies !#[trigger] leads_factorization(x, m as int) by {
        if leads_factorization(x, m as int) {
            assert(x * x >= a * a) by (nonlinear_arith)
                requires
                    x >= a,
                    a >= 0,
            ;
        }
    }
    assert forall|x: int| m + 1 <= x && x < a implies !#[trigger] leads_factorization(x, m as int) by {
        if leads_factorization(x, m as int) {
            assert(x * x >= x) by (nonlinear_arith)
                requires
                    x >= 1,
            ;
        }
    }
    if a <= m + 1 {
        lemma_lead_count_stable(m as int, a, m + 1);
    } else {
        lemma_lead_count_stable(m as int, m + 1, a);
    }
}

/// At most one lead per candidate: `lead_count(m, a) ≤ a`.
proof fn lemma_lead_count_le(m: int, a: nat)
    ensures
        lead_count(m, a) <= a,
    decreases a,
{
    if a > 0 {
        lemma_lead_count_le(m, (a - 1) as nat);
    }
}

/// `m` has at most `m + 1` factorizations (one per candidate lead).
proof fn lemma_factorization_count_small(m: nat)
    ensures
        factorization_count(m) <= m + 1,
{
    lemma_lead_count_le(m as int, m + 1);
}

/// The product `a · b` of two factors coprime to 30 with `7 ≤ a ≤ b` is
/// led by `a`, with cofactor `b`.
proof fn lemma_product_led(a: int, b: int)
    requires
        7 <= a <= b,
    ensures
        (a * b) % a == 0,
        (a * b) / a == b,
        a * a <= a * b,
        a < a * b,
        b <= a * b,
{
    assert((a * b) % a == 0 && (a * b) / a == b) by {
        vstd::arithmetic::mul::lemma_mul_is_commutative(a, b);
        vstd::arithmetic::div_mod::lemma_fundamental_div_mod_converse(a * b, a, b, 0);
    }
    assert(a * a <= a * b && a < a * b && b <= a * b) by (nonlinear_arith)
        requires
            7 <= a <= b,
    ;
}

/// A lead `a` of `m` has cofactor `m / a` with `a · (m / a) = m`.
proof fn lemma_lead_cofactor(a: int, m: int)
    requires
        a >= 1,
        m >= 0,
        m % a == 0,
    ensures
        a * (m / a) == m,
{
    vstd::arithmetic::div_mod::lemma_fundamental_div_mod(m, a);
}

/// Count of leads below `a`, plus `a` itself when its cofactor is below `b`.
pub open spec fn partial_count(m: int, a: nat, b: int) -> nat {
    lead_count(m, a) + if leads_factorization(a as int, m) && m / (a as int) < b {
        1nat
    } else {
        0nat
    }
}

/// The table after every lead below `a` and, for `a`, every cofactor
/// below `b`.
pub open spec fn partial_map(n: nat, a: nat, b: int) -> Map<u64, u64> {
    Map::new(
        |m: u64| 1 <= m <= n && partial_count(m as int, a, b) >= 1,
        |m: u64| partial_count(m as int, a, b) as u64,
    )
}

/// Builds the factorization table for the products `m ≤ n`.
fn factorization_table(n: u64) -> (counts: BTreeMap<u64, u64>)
    requires
        n <= 0x7fff_ffff_ffff_ffff,
    ensures
        counts@ == factorization_map(n as nat),
{
    let mut counts: BTreeMap<u64, u64> = BTreeMap::new();
    if n < 49 {
        proof {
            assert forall|m: u64| 1 <= m <= n implies factorization_count(m as nat) == 0 by {
                lemma_lead_count_complete(m as nat, 7);
                lemma_lead_count_stable(m as int, 0, 7);
            }
            assert(counts@ =~= factorization_map(n as nat));
        }
        return counts;
    }
    let mut a: u64 = 7;
    proof {
        lemma_lead_count_stable_all(n as nat, 7);
        assert(counts@ =~= partial_map(n as nat, 7, 0));
    }
    while a * a <= n
        invariant
            n <= 0x7fff_ffff_ffff_ffff,
            7 <= a <= 3_037_000_501,
            a * a <= 3_037_000_501 * 3_037_000_501,
            a % 2 == 1,
            counts@ == partial_map(n as nat, a as nat, 0),
        decreases n + 2 - a,
    {
        assert(a <= 3_037_000_499 && a <= n) by (nonlinear_arith)
            requires
                a * a <= n,
                n <= 0x7fff_ffff_ffff_ffff,
                a >= 7,
        ;
        if gcd(a, MODULUS_U) == 1 {
            proof {
                lemma_gcd30(a as nat);
            }
            let mut b: u64 = a;
            proof {
                assert(counts@ =~= partial_map(n as nat, a as nat, b as int)) by {
                    assert forall|m: u64| #![auto] 1 <= m <= n implies partial_count(
                        m as int,
                        a as nat,
                        b as int,
                    ) == partial_count(m as int, a as nat, 0) by {
                        if leads_factorization(a as int, m as int) {
                            lemma_lead_cofactor(a as int, m as int);
                            let q = (m as int) / (a as int);
                            assert(q >= a) by (nonlinear_arith)
                                requires
                                    a * q == m,
                                    a * a <= m,
                                    a >= 1,
                            ;
                        }
                    }
                }
            }
            while a * b <= n
                invariant
                    n <= 0x7fff_ffff_ffff_ffff,
                    7 <= a <= 3_037_000_499,
                    a % 2 == 1,
                    coprime30(a as int),
                    a <= b,
                    b % 2 == 1,
                    b <= n + 2,
                    a * b <= n + 2 * a,
                    counts@ == partial_map(n as nat, a as nat, b as int),
                decreases n + 2 - b,
            {
                let m0: u64 = a * b;
                proof {
                    lemma_product_led(a as int, b as int);
                }
                if gcd(b, MODULUS_U) == 1 {
                    proof {
                        lemma_gcd30(b as nat);
                    }
                    let cur: u64 = match counts.get(&m0) {
                        Some(c) => *c,
                        None => 0,
                    };
                    proof {
                        lemma_lead_count_le(m0 as int, a as nat);
                        assert(leads_factorization(a as int, m0 as int));
                        assert(cur == partial_count(m0 as int, a as nat, b as int)) by {
                            if !counts@.contains_key(m0) {
                                assert(partial_count(m0 as int, a as nat, b as int) == 0);
                            }
                        }
                        assert(cur < m0);
                    }
                    counts.insert(m0, cur + 1);
                    proof {
                        assert(counts@ =~= partial_map(n as nat, a as nat, b + 2)) by {
                            assert forall|m: u64| #![auto]
                                1 <= m <= n && m != m0 implies partial_count(
                                m as int,
                                a as nat,
                                b + 2,
                            ) == partial_count(m as int, a as nat, b as int) by {
                                lemma_other_product_unchanged(a as int, b as int, m as int);
                            }
                        }
                    }
                } else {
                    proof {
                        lemma_gcd30(b as nat);
                        assert(counts@ =~= partial_map(n as nat, a as nat, b + 2)) by {
                            assert forall|m: u64| #![auto] 1 <= m <= n implies partial_count(
                                m as int,
                                a as nat,
                                b + 2,
                            ) == partial_count(m as int, a as nat, b as int) by {
                                lemma_other_product_unchanged(a as int, b as int, m as int);
                            }
                        }
                    }
                }
                assert(a * (b + 2) <= n + 2 * a) by (nonlinear_arith)
                    requires
                        a * b <= n,
                ;
                b = b + 2;
            }
            proof {
                assert(counts@ =~= partial_map(n as nat, (a + 2) as nat, 0)) by {
                    assert forall|m: u64| #![auto] 1 <= m <= n implies partial_count(
                        m as int,
                        (a + 2) as nat,
                        0,
                    ) == partial_count(m as int, a as nat, b as int) by {
                        lemma_close_lead(n as int, a as int, b as int, m as int);
                    }
                }
            }
        } else {
            proof {
                lemma_gcd30(a as nat);
                assert(counts@ =~= partial_map(n as nat, (a + 2) as nat, 0)) by {
                    assert forall|m: u64| #![auto] 1 <= m <= n implies partial_count(
                        m as int,
                        (a + 2) as nat,
                        0,
                    ) == partial_count(m as int, a as nat, 0) by {
                        assert(!leads_factorization(a as int, m as int));
                        assert(!leads_factorization(a + 1, m as int));
                        assert(lead_count(m as int, (a + 1) as nat) == lead_count(m as int, a as nat));
                        assert(lead_count(m as int, (a + 2) as nat) == lead_count(
                            m as int,
                            a as nat,
                        ));
                    }
                }
            }
        }
        assert((a + 2) * (a + 2) <= 3_037_000_501 * 3_037_000_501) by (nonlinear_arith)
            requires
                a <= 3_037_000_499,
        ;
        a = a + 2;
    }
    proof {
        assert(counts@ =~= factorization_map(n as nat)) by {
            assert forall|m: u64| #![auto] 1 <= m <= n implies partial_count(m as int, a as nat, 0)
                == factorization_count(m as nat) by {
                lemma_lead_count_complete(m as nat, a as nat);
            }
        }
    }
    counts
}

/// At the start, no lead lies below 7.
proof fn lemma_lead_count_stable_all(n: nat, a: nat)
    requires
        a == 7,
    ensures
        forall|m: int| #[trigger] lead_count(m, a) == 0,
{
    assert forall|m: int| #[trigger] lead_count(m, a) == 0 by {
        lemma_lead_count_stable(m, 0, a);
    }
}

/// Moving the cofactor bound from `b` to `b + 2` changes the count only
/// at `m = a · b`: an `m` led by `a` with cofactor `b + 1` would have an
/// even cofactor.
proof fn lemma_other_product_unchanged(a: int, b: int, m: int)
    requires
        7 <= a,
        m >= 0,
        b % 2 == 1,
        m != a * b || !coprime30(b),
    ensures
        partial_count(m, a as nat, b + 2) == partial_count(m, a as nat, b),
{
    if leads_factorization(a, m) {
        lemma_lead_cofactor(a, m);
        let q = m / a;
        if q == b {
            assert(m == a * b);
        }
    }
}

/// Once every cofactor of `a` up to the bound `n` is counted, the partial
/// count equals the count of leads below `a + 2` (`a + 1` is even).
proof fn lemma_close_lead(n: int, a: int, b: int, m: int)
    requires
        7 <= a,
        a % 2 == 1,
        1 <= m <= n,
        a * b > n,
    ensures
        partial_count(m, (a + 2) as nat, 0) == partial_count(m, a as nat, b),
{
    if leads_factorization(a, m) {
        lemma_lead_cofactor(a, m);
        let q = m / a;
        assert(q < b) by (nonlinear_arith)
            requires
                a * q == m,
                m <= n,
                a * b > n,
                a >= 1,
        ;
    }
    assert(!leads_factorization(a + 1, m));
    assert(lead_count(m, (a + 1) as nat) == lead_count(m, a as nat) + if leads_factorization(
        a,
        m,
    ) {
        1nat
    } else {
        0nat
    });
}


/// The running totals are bounded: duplicates by all pairs, distinct
/// products and replicants by `k`.
proof fn lemma_upto_bounds(k: nat)
    ensures
        duplicates_upto(k) <= total_pairs_upto(k),
        unique_products_upto(k) <= k,
        replicants_upto(k).len() <= k,
    decreases k,
{
    if k > 0 {
        lemma_upto_bounds((k - 1) as nat);
    }
}

/// The total number of factorizations never decreases as `n` grows.
proof fn lemma_total_pairs_monotone(n1: nat, n2: nat)
    requires
        n1 <= n2,
    ensures
        total_pairs_upto(n1) <= total_pairs_upto(n2),
    decreases n2 - n1,
{
    if n1 < n2 {
        lemma_total_pairs_monotone(n1, (n2 - 1) as nat);
    }
}

/// Looks up `m` in the factorization table: its number of
/// factorizations.
fn count_of(counts: &BTreeMap<u64, u64>, n: u64, m: u64) -> (c: u64)
    requires
        n <= 0x7fff_ffff_ffff_ffff,
        1 <= m <= n,
        counts@ == factorization_map(n as nat),
    ensures
        c == factorization_count(m as nat),
{
    proof {
        lemma_factorization_count_small(m as nat);
    }
    match counts.get(&m) {
        Some(c) => *c,
        None => 0,
    }
}

/// The replicant integers in `[1, n]` (those with at least two
/// factorizations), in ascending order.
pub fn replicant_products(n: u64) -> (out: Vec<u64>)
    requires
        n <= 0x7fff_ffff_ffff_ffff,
    ensures
        out@ == replicants_upto(n as nat),
{
    let counts = factorization_table(n);
    let mut out: Vec<u64> = Vec::new();
    let mut m: u64 = 1;
    while m <= n
        invariant
            1 <= m <= n + 1,
            n <= 0x7fff_ffff_ffff_ffff,
            counts@ == factorization_map(n as nat),
            out@ == replicants_upto((m - 1) as nat),
        decreases n + 1 - m,
    {
        let c = count_of(&counts, n, m);
        if c >= 2 {
            out.push(m);
        }
        m = m + 1;
    }
    out
}

/// Number of replicant integers in `[1, n]`.
pub fn replicant_count_distinct(n: u64) -> (r: u64)
    requires
        n <= 0x7fff_ffff_ffff_ffff,
    ensures
        r == replicants_upto(n as nat).len(),
{
    proof {
        lemma_upto_bounds(n as nat);
    }
    replicant_products(n).len() as u64
}

/// Number of duplicate factorizations in `[1, n]`: over each replicant
/// `m`, its number of factorizations less one.
pub fn duplicate_factorization_count(n: u64) -> (r: u64)
    requires
        n <= 0x7fff_ffff_ffff_ffff,
        duplicates_upto(n as nat) <= u64::MAX,
    ensures
        r == duplicates_upto(n as nat),
{
    let counts = factorization_table(n);
    let mut sum: u64 = 0;
    let mut m: u64 = 1;
    while m <= n
        invariant
            1 <= m <= n + 1,
            n <= 0x7fff_ffff_ffff_ffff,
            duplicates_upto(n as nat) <= u64::MAX,
            counts@ == factorization_map(n as nat),
            sum == duplicates_upto((m - 1) as nat),
        decreases n + 1 - m,
    {
        let c = count_of(&counts, n, m);
        proof {
            lemma_duplicates_monotone(m as nat, n as nat);
        }
        if c >= 2 {
            sum = sum + (c - 1);
        }
        m = m + 1;
    }
    sum
}

/// Number of factorizations `(a, b)` with `a · b ≤ n`.
pub fn total_factorization_pairs(n: u64) -> (r: u64)
    requires
        n <= 0x7fff_ffff_ffff_ffff,
        total_pairs_upto(n as nat) <= u64::MAX,
    ensures
        r == total_pairs_upto(n as nat),
{
    let counts = factorization_table(n);
    let mut sum: u64 = 0;
    let mut m: u64 = 1;
    while m <= n
        invariant
            1 <= m <= n + 1,
            n <= 0x7fff_ffff_ffff_ffff,
            total_pairs_upto(n as nat) <= u64::MAX,
            counts@ == factorization_map(n as nat),
            sum == total_pairs_upto((m - 1) as nat),
        decreases n + 1 - m,
    {
        let c = count_of(&counts, n, m);
        proof {
            lemma_total_pairs_monotone(m as nat, n as nat);
        }
        sum = sum + c;
        m = m + 1;
    }
    sum
}

/// Number of distinct products `a · b ≤ n` over all factorizations.
pub fn unique_factorization_products(n: u64) -> (r: u64)
    requires
        n <= 0x7fff_ffff_ffff_ffff,
    ensures
        r == unique_products_upto(n as nat),
{
    let counts = factorization_table(n);
    let mut sum: u64 = 0;
    let mut m: u64 = 1;
    while m <= n
        invariant
            1 <= m <= n + 1,
            n <= 0x7fff_ffff_ffff_ffff,
            counts@ == factorization_map(n as nat),
            sum == unique_products_upto((m - 1) as nat),
        decreases n + 1 - m,
    {
        let c = count_of(&counts, n, m);
        proof {
            lemma_upto_bounds(m as nat);
        }
        if c >= 1 {
            sum = sum + 1;
        }
        m = m + 1;
    }
    sum
}

/// Reference value: 5 duplicate factorizations up to 1000.
pub const DUPLICATE_FACTORIZATIONS_AT_1000: u64 = 5;

/// Reference value: 408 duplicate factorizations up to 10000.
pub const DUPLICATE_FACTORIZATIONS_AT_10000: u64 = 408;

/// The replicant integers up to 1000.
pub const REPLICANTS_AT_1000: [u64; 5] = [539, 637, 833, 847, 931];

/// The duplicate count is the total number of factorizations less the
/// number of distinct products.
pub proof fn lemma_duplicates_are_total_minus_unique(n: nat)
    ensures
        duplicates_upto(n) + unique_products_upto(n) == total_pairs_upto(n),
    decreases n,
{
    if n > 0 {
        lemma_duplicates_are_total_minus_unique((n - 1) as nat);
    }
}

/// The duplicate count never decreases as `n` grows.
pub proof fn lemma_duplicates_monotone(n1: nat, n2: nat)
    requires
        n1 <= n2,
    ensures
        duplicates_upto(n1) <= duplicates_upto(n2),
    decreases n2 - n1,
{
    if n1 < n2 {
        lemma_duplicates_monotone(n1, (n2 - 1) as nat);
    }
}

/// Every replicant contributes at least one duplicate: the number of
/// replicants never exceeds the duplicate count.
pub proof fn lemma_replicants_below_duplicates(n: nat)
    ensures
        replicants_upto(n).len() <= duplicates_upto(n),
    decreases n,
{
    if n > 0 {
        lemma_replicants_below_duplicates((n - 1) as nat);
    }
}

/// The replicant list is strictly ascending and holds exactly the
/// `m ∈ [1, n]` with at least two factorizations.
pub proof fn lemma_replicants_characterized(n: nat)
    requires
        n <= u64::MAX,
    ensures
        forall|i: int, j: int|
            0 <= i < j < replicants_upto(n).len() ==> replicants_upto(n)[i] < replicants_upto(
                n,
            )[j],
        forall|m: u64|
            replicants_upto(n).contains(m) <==> (1 <= m <= n && factorization_count(m as nat)
                >= 2),
    decreases n,
{
    if n > 0 {
        let p = (n - 1) as nat;
        lemma_replicants_characterized(p);
        let s = replicants_upto(p);
        assert forall|i: int| 0 <= i < s.len() implies s[i] <= p by {
            assert(s.contains(s[i]));
        }
        if factorization_count(n) >= 2 {
            let t = s.push(n as u64);
            assert forall|m: u64| t.contains(m) <==> (1 <= m <= n && factorization_count(m as nat)
                >= 2) by {
                if t.contains(m) {
                    let k = choose|k: int| 0 <= k < t.len() && t[k] == m;
                    if k < s.len() {
                        assert(s.contains(m));
                    }
                }
                if 1 <= m <= n && factorization_count(m as nat) >= 2 {
                    if m < n {
                        assert(s.contains(m));
                        let k = choose|k: int| 0 <= k < s.len() && s[k] == m;
                        assert(t[k] == m);
                    } else {
                        assert(t[s.len() as int] == m);
                    }
                }
            }
        } else {
            assert forall|m: u64| s.contains(m) <==> (1 <= m <= n && factorization_count(m as nat)
                >= 2) by {
                if m == n {
                    if s.contains(m) {
                        let k = choose|k: int| 0 <= k < s.len() && s[k] == m;
                    }
                }
            }
        }
    }
}

} // verus!
