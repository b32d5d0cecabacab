//! `(Z/9Z)*` — the six units modulo 9 — and their multiplication table.
use crate::arithmetic::{gcd, spec_gcd};
use crate::parameters::MODULUS_DR;
use crate::u30::lemma_filter_prefix;
use vstd::arithmetic::div_mod::*;
use vstd::arithmetic::power::pow;
use vstd::prelude::*;

verus! {

/// Cardinality of `(Z/9Z)*`.
pub const UNITS_Z9_CARDINALITY: usize = 6;

/// The six units of `Z/9Z`.
pub const UNITS_Z9: [u64; 6] = [1, 2, 4, 5, 7, 8];

/// Successive powers `2^1, …, 2^6` modulo 9.
pub const POWERS_OF_2_MOD_9: [u64; 6] = [2, 4, 8, 7, 5, 1];

/// The 6×6 multiplication table of `(Z/9Z)*`.
pub const MULT_TABLE_Z9: [[u64; 6]; 6] = [
    [1, 2, 4, 5, 7, 8],
    [2, 4, 8, 1, 5, 7],
    [4, 8, 7, 2, 1, 5],
    [5, 1, 2, 7, 8, 4],
    [7, 5, 1, 8, 4, 2],
    [8, 7, 5, 4, 2, 1],
];

/// Row (and column) sum of [`MULT_TABLE_Z9`]: `27 = 3 · MODULUS_DR`.
pub const MULT_TABLE_ROW_SUM: u64 = 3 * MODULUS_DR;

/// Total sum of [`MULT_TABLE_Z9`]: `162 = 6 · 27`.
pub const MULT_TABLE_TOTAL_SUM: u64 = 6 * MULT_TABLE_ROW_SUM;

/// `Σ (Z/9Z)* = 27`.
pub const UNITS_Z9_SUM: u64 = 27;

/// Additive-inverse pairs in `(Z/9Z)*`, each summing to 9.
pub const ADDITIVE_INVERSE_PAIRS: [(u64, u64); 3] = [(1, 8), (2, 7), (4, 5)];

/// Multiplicative-inverse pairs in `(Z/9Z)*`, each multiplying to 1 mod 9.
pub const MULTIPLICATIVE_INVERSE_PAIRS: [(u64, u64); 4] = [(1, 1), (2, 5), (4, 7), (8, 8)];

/// The integers `1, …, 8`.
pub open spec fn one_to_eight() -> Seq<u64> {
    Seq::new(8, |i: int| (i + 1) as u64)
}

/// The units of `Z/9Z`, in order: `n ∈ [1, 9)` with `gcd(n, 9) = 1`.
pub open spec fn units_z9_spec() -> Seq<u64> {
    one_to_eight().filter(|n: u64| spec_gcd(n as nat, 9) == 1)
}

/// `gcd(r, 9) = 1` exactly when `3 ∤ r`, for `1 ≤ r < 9`.
proof fn lemma_gcd9_small(r: nat)
    requires
        1 <= r < 9,
    ensures
        (spec_gcd(r, 9) == 1) == (r % 3 != 0),
{
    assert(spec_gcd(r, 9) == spec_gcd(9, r));
    if r == 1 {
        assert(spec_gcd(1, 0) == 1);
        assert(spec_gcd(9, 1) == 1);
    } else if r == 2 {
        assert(spec_gcd(1, 0) == 1);
        assert(spec_gcd(2, 1) == 1);
        assert(spec_gcd(9, 2) == 1);
    } else if r == 3 {
        assert(spec_gcd(3, 0) == 3);
        assert(spec_gcd(9, 3) == 3);
    } else if r == 4 {
        assert(spec_gcd(1, 0) == 1);
        assert(spec_gcd(4, 1) == 1);
        assert(spec_gcd(9, 4) == 1);
    } else if r == 5 {
        assert(spec_gcd(1, 0) == 1);
        assert(spec_gcd(4, 1) == 1);
        assert(spec_gcd(5, 4) == 1);
        assert(spec_gcd(9, 5) == 1);
    } else if r == 6 {
        assert(spec_gcd(3, 0) == 3);
        assert(spec_gcd(6, 3) == 3);
        assert(spec_gcd(9, 6) == 3);
    } else if r == 7 {
        assert(spec_gcd(1, 0) == 1);
        assert(spec_gcd(2, 1) == 1);
        assert(spec_gcd(7, 2) == 1);
        assert(spec_gcd(9, 7) == 1);
    } else {
        assert(spec_gcd(1, 0) == 1);
        assert(spec_gcd(8, 1) == 1);
        assert(spec_gcd(9, 8) == 1);
    }
}

/// The filter evaluates to the stated constant.
pub proof fn lemma_units_z9_filter()
    ensures
        units_z9_spec() == UNITS_Z9@,
{
    assert forall|r: nat| 1 <= r < 9 implies (spec_gcd(r, 9) == 1) == (r % 3 != 0) by {
        lemma_gcd9_small(r);
    }
    reveal_with_fuel(Seq::filter, 9);
    assert(one_to_eight() =~= seq![1u64, 2, 3, 4, 5, 6, 7, 8]);
    assert(units_z9_spec() =~= UNITS_Z9@);
}

/// The six units of `Z/9Z`, computed from `MODULUS_DR = 9` via gcd.
pub fn compute_units_z9() -> (out: [u64; 6])
    ensures
        out@ == units_z9_spec(),
{
    let mut out = [0u64; 6];
    let mut idx = 0usize;
    let mut n = 1u64;
    let ghost s = one_to_eight();
    let ghost pred = |n: u64| spec_gcd(n as nat, 9) == 1;
    proof {
        lemma_units_z9_filter();
        assert(s.take(0).filter(pred) =~= Seq::<u64>::empty()) by {
            reveal(Seq::filter);
        }
    }
    while n < MODULUS_DR
        invariant
            1 <= n <= 9,
            s == one_to_eight(),
            idx == s.take(n - 1).filter(pred).len(),
            s.filter(pred).len() == 6,
            forall|j: int| 0 <= j < idx ==> out[j] == s.take(n - 1).filter(pred)[j],
            pred == (|n: u64| spec_gcd(n as nat, 9) == 1),
        decreases 9 - n,
    {
        proof {
            lemma_filter_prefix(s, pred, n - 1);
            assert(s[n - 1] == n);
        }
        if gcd(n, MODULUS_DR) == 1 {
            out[idx] = n;
            idx += 1;
        }
        n += 1;
    }
    proof {
        assert(s.take(8) =~= s);
        assert(out@ =~= units_z9_spec());
    }
    out
}

/// Successive powers of 2 modulo 9: `out[i] = 2^(i+1) mod 9`.
pub fn compute_powers_of_2_mod_9() -> (out: [u64; 6])
    ensures
        forall|i: int| 0 <= i < 6 ==> out[i] == pow(2, (i + 1) as nat) % 9,
{
    let mut out = [0u64; 6];
    let mut x = 1u64;
    let mut i = 0usize;
    proof {
        reveal(pow);
    }
    while i < 6
        invariant
            0 <= i <= 6,
            x < 9,
            x == pow(2, i as nat) % 9,
            forall|j: int| 0 <= j < i ==> out[j] == pow(2, (j + 1) as nat) % 9,
        decreases 6 - i,
    {
        proof {
            reveal(pow);
            assert(pow(2, (i + 1) as nat) == 2 * pow(2, i as nat));
            lemma_mul_mod_noop_left(pow(2, i as nat), 2, 9);
            vstd::arithmetic::mul::lemma_mul_is_commutative(2, pow(2, i as nat));
        }
        x = (x * 2) % MODULUS_DR;
        out[i] = x;
        i += 1;
    }
    out
}

/// The product of two units modulo 9 in digital-root convention (`0 ↦ 9`).
pub open spec fn unit_product(a: u64, b: u64) -> u64 {
    if (a * b) % 9 == 0 {
        9
    } else {
        ((a * b) % 9) as u64
    }
}

/// The 6×6 multiplication table: `out[i][j] = (UNITS_Z9[i] · UNITS_Z9[j]) mod 9`.
pub fn compute_mult_table_z9() -> (out: [[u64; 6]; 6])
    ensures
        forall|i: int, j: int|
            0 <= i < 6 && 0 <= j < 6 ==> out[i][j] == unit_product(UNITS_Z9[i], UNITS_Z9[j]),
{
    let mut out = [[0u64; 6]; 6];
    let mut i = 0usize;
    while i < UNITS_Z9_CARDINALITY
        invariant
            0 <= i <= 6,
            forall|a: int, b: int|
                0 <= a < i && 0 <= b < 6 ==> out[a][b] == unit_product(UNITS_Z9[a], UNITS_Z9[b]),
        decreases 6 - i,
    {
        let a = UNITS_Z9[i];
        let mut row = [0u64; 6];
        let mut j = 0usize;
        while j < UNITS_Z9_CARDINALITY
            invariant
                0 <= j <= 6,
                a == UNITS_Z9[i as int],
                a <= 8,
                forall|b: int| 0 <= b < j ==> row[b] == unit_product(a, UNITS_Z9[b]),
            decreases 6 - j,
        {
            let b = UNITS_Z9[j];
            assert(a * b <= 64) by (nonlinear_arith)
                requires
                    a <= 8,
                    b <= 8,
            ;
            let prod = (a * b) % MODULUS_DR;
            // Map 0 → 9 in digital-root convention.
            row[j] = if prod == 0 {
                MODULUS_DR
            } else {
                prod
            };
            j += 1;
        }
        out[i] = row;
        i += 1;
    }
    out
}

/// `Σ s` over a sequence.
pub open spec fn seq_sum(s: Seq<u64>) -> int
    decreases s.len(),
{
    if s.len() == 0 {
        0
    } else {
        seq_sum(s.drop_last()) + s.last()
    }
}

/// The linear sum of [`UNITS_Z9`].
pub fn compute_units_z9_sum() -> (s: u64)
    ensures
        s == seq_sum(UNITS_Z9@),
{
    let mut s = 0u64;
    let mut i = 0usize;
    while i < UNITS_Z9_CARDINALITY
        invariant
            0 <= i <= 6,
            s == seq_sum(UNITS_Z9@.take(i as int)),
            s <= 8 * i,
        decreases 6 - i,
    {
        proof {
            assert(UNITS_Z9@.take(i as int + 1).drop_last() =~= UNITS_Z9@.take(i as int));
        }
        s += UNITS_Z9[i];
        i += 1;
    }
    proof {
        assert(UNITS_Z9@.take(6) =~= UNITS_Z9@);
    }
    s
}

/// **Closure.** The product of two units of `Z/9Z` is again a unit: for
/// `a, b` not divisible by 3, `(a · b) mod 9` is not divisible by 3 (in
/// particular it is never 0).
pub proof fn lemma_units_closed(a: int, b: int)
    requires
        a % 3 != 0,
        b % 3 != 0,
    ensures
        ((a * b) % 9) % 3 != 0,
        (a * b) % 9 != 0,
{
    lemma_mod_mod(a * b, 3, 3);
    lemma_mul_mod_noop_general(a, b, 3);
    let x = a % 3;
    let y = b % 3;
    assert(x == 1 || x == 2);
    assert(y == 1 || y == 2);
    assert((x * y) % 3 != 0) by (nonlinear_arith)
        requires
            x == 1 || x == 2,
            y == 1 || y == 2,
    ;
}

} // verus!
