//! `U_30(90)`: the 24 integers in `[1, 90]` coprime to 30, and the
//! mod-90 multiplication on them.
use crate::arithmetic::gcd;
use crate::digital_root::{digital_root, spec_dr};
use crate::index_to_residue::lemma_index_is_count;
use crate::parameters::MODULUS_U;
use crate::sieve::{coprime30_count, lemma_coprime30_count, residues_upto};
use crate::primes::lemma_product_coprime30;
use crate::u30::{coprime30, lemma_gcd30, lemma_u30_index, u30_value, RESIDUES};
use vstd::prelude::*;

verus! {

/// `MODULUS_U90 = 3 · MODULUS_U = 90`.
pub const MODULUS_U90: u64 = 3 * MODULUS_U;

/// `|U_30(90)| = 24`.
pub const U90_CARDINALITY: usize = 24;

/// The 24 members of `U_30(90)`, ascending.
pub const RESIDUES_U90: [u64; 24] = [
    1, 7, 11, 13, 17, 19, 23, 29, 31, 37, 41, 43, 47, 49, 53, 59, 61, 67, 71, 73, 77, 79, 83, 89,
];

/// The same 24 residues as tabulated in the reference matrix.
pub const GARY_STATED_U90_RESIDUES: [u64; 24] = [
    1, 7, 11, 13, 17, 19, 23, 29, 31, 37, 41, 43, 47, 49, 53, 59, 61, 67, 71, 73, 77, 79, 83, 89,
];

/// `dr(n)` for each `n ∈ U_30(90)`, in order.
pub const DR_CYCLE: [u64; 24] = [
    1, 7, 2, 4, 8, 1, 5, 2, 4, 1, 5, 7, 2, 4, 8, 5, 7, 4, 8, 1, 5, 7, 2, 8,
];

/// The digital-root cycle as tabulated in the reference document.
pub const GARY_STATED_DR_CYCLE: [u64; 24] = [
    1, 7, 2, 4, 8, 1, 5, 2, 4, 1, 5, 7, 2, 4, 8, 5, 7, 4, 8, 1, 5, 7, 2, 8,
];

/// `(v, number of times v occurs in DR_CYCLE)` for `v = 1, …, 9`.
pub const DR_CYCLE_UNIFORMITY: [(u64, u64); 9] = [
    (1, 4),
    (2, 4),
    (3, 0),
    (4, 4),
    (5, 4),
    (6, 0),
    (7, 4),
    (8, 4),
    (9, 0),
];

/// Distinct values of `a² mod 90` over `a ∈ U_30(90)`.
pub const SQUARE_RESIDUE_VALUES: [u64; 6] = [1, 19, 31, 49, 61, 79];

/// Sum of the principal diagonal `a² mod 90` over `a ∈ U_30(90)`.
pub const DIAGONAL_SUM: u64 = 960;

/// `Σ U_30(90) = 1080 = 3 · MODULUS_R`.
pub const ROW_SUM_LINEAR: u64 = 1080;

/// `|U_30(90)| · (MODULUS_R / MODULUS_U90) = 96 = |R(360)|`.
pub const TILES_INTO_R360: u64 = 96;

/// Distinct values of `90 − (a² mod 90)` over `a ∈ U_30(90)`.
pub const SECONDARY_DIAGONAL_VALUES: [u64; 6] = [11, 29, 41, 59, 71, 89];

/// Sum of the secondary diagonal.
pub const SECONDARY_DIAGONAL_SUM: u64 = 1200;

/// Sum of both diagonals: `960 + 1200 = 2160 = 6 · MODULUS_R`.
pub const DIAGONAL_PAIR_SUM: u64 = 2160;

/// `RESIDUES_U90` lists the first 24 positive integers coprime to 30.
pub proof fn lemma_residues_u90()
    ensures
        forall|i: int| 0 <= i < 24 ==> #[trigger] RESIDUES_U90[i] as int == u30_value(i),
        forall|i: int| 0 <= i < 24 ==> #[trigger] DR_CYCLE[i] as nat == spec_dr(RESIDUES_U90[i] as nat),
        forall|i: int| 0 <= i < 24 ==> coprime30(#[trigger] RESIDUES_U90[i] as int),
        forall|i: int, j: int| 0 <= i < j < 24 ==> RESIDUES_U90[i] < RESIDUES_U90[j],
{
    assert forall|i: int| 0 <= i < 24 implies #[trigger] RESIDUES_U90[i] as int == u30_value(i) by {
        assert(RESIDUES[0] == 1 && RESIDUES[1] == 7 && RESIDUES[2] == 11 && RESIDUES[3] == 13);
        assert(RESIDUES[4] == 17 && RESIDUES[5] == 19 && RESIDUES[6] == 23 && RESIDUES[7] == 29);
    }
}

/// `U_30(90)` is closed under multiplication mod 90: the product of two
/// integers coprime to 30, reduced mod 90, is again coprime to 30 and
/// lies in `[1, 90)`.
pub proof fn lemma_u90_closed(a: int, b: int)
    requires
        a >= 0,
        b >= 0,
        coprime30(a),
        coprime30(b),
    ensures
        coprime30((a * b) % 90),
        1 <= (a * b) % 90 < 90,
{
    lemma_product_coprime30(a, b);
    assert(a * b >= 0) by (nonlinear_arith)
        requires
            a >= 0,
            b >= 0,
    ;
    let p = a * b;
    vstd::arithmetic::div_mod::lemma_fundamental_div_mod(p, 90);
    let q = p / 90;
    let r = p % 90;
    assert(r % 2 == p % 2 && r % 3 == p % 3 && r % 5 == p % 5) by {
        vstd::arithmetic::div_mod::lemma_mod_multiples_vanish(q * 45, r, 2);
        vstd::arithmetic::div_mod::lemma_mod_multiples_vanish(q * 30, r, 3);
        vstd::arithmetic::div_mod::lemma_mod_multiples_vanish(q * 18, r, 5);
    }
}

/// An integer coprime to 30 has its digital root among the units
/// `{1, 2, 4, 5, 7, 8}` of `Z/9Z`.
pub proof fn lemma_dr_of_coprime30(x: int)
    requires
        x >= 1,
        coprime30(x),
    ensures
        spec_dr(x as nat) == 1 || spec_dr(x as nat) == 2 || spec_dr(x as nat) == 4 || spec_dr(
            x as nat,
        ) == 5 || spec_dr(x as nat) == 7 || spec_dr(x as nat) == 8,
{
    vstd::arithmetic::div_mod::lemma_fundamental_div_mod(x, 9);
    let q = x / 9;
    let r = x % 9;
    assert(r % 3 == x % 3) by {
        vstd::arithmetic::div_mod::lemma_mod_multiples_vanish(q * 3, r, 3);
    }
}


/// `|U_30(90)|`, by counting the integers in `[1, 90]` coprime to 30.
pub fn compute_u90_cardinality() -> (r: usize)
    ensures
        r == coprime30_count(90),
        r == U90_CARDINALITY,
{
    let mut count: usize = 0;
    let mut n: u64 = 1;
    while n <= MODULUS_U90
        invariant
            1 <= n <= 91,
            count == coprime30_count((n - 1) as nat),
            count <= n - 1,
        decreases 91 - n,
    {
        proof {
            lemma_gcd30(n as nat);
        }
        if gcd(n, MODULUS_U) == 1 {
            count = count + 1;
        }
        n = n + 1;
    }
    proof {
        lemma_coprime30_count(90);
        reveal_with_fuel(residues_upto, 9);
    }
    count
}

/// The members of `U_30(90)`, ascending, by enumerating `[1, 90]`.
pub fn compute_residues_u90() -> (out: [u64; 24])
    ensures
        out@ == RESIDUES_U90@,
{
    let mut out = [0u64; 24];
    let mut idx: usize = 0;
    let mut n: u64 = 1;
    proof {
        lemma_residues_u90();
    }
    while n <= MODULUS_U90
        invariant
            1 <= n <= 91,
            idx == coprime30_count((n - 1) as nat),
            idx <= 24,
            forall|k: int| 0 <= k < 24 ==> #[trigger] RESIDUES_U90[k] as int == u30_value(k),
            forall|k: int| 0 <= k < idx ==> #[trigger] out[k] == RESIDUES_U90[k],
        decreases 91 - n,
    {
        proof {
            lemma_gcd30(n as nat);
            lemma_coprime30_count(n as nat);
            reveal_with_fuel(residues_upto, 9);
        }
        if gcd(n, MODULUS_U) == 1 {
            proof {
                lemma_index_is_count(n as int);
                lemma_u30_index(n as int);
            }
            out[idx] = n;
            idx = idx + 1;
        }
        n = n + 1;
    }
    proof {
        lemma_coprime30_count(90);
        assert(out@ =~= RESIDUES_U90@);
    }
    out
}

/// `dr(n)` for each `n ∈ U_30(90)`, in order.
pub fn compute_dr_cycle() -> (out: [u64; 24])
    ensures
        out@ == DR_CYCLE@,
{
    let mut out = [0u64; 24];
    let mut i: usize = 0;
    proof {
        lemma_residues_u90();
    }
    while i < U90_CARDINALITY
        invariant
            i <= 24,
            forall|k: int| 0 <= k < 24 ==> #[trigger] DR_CYCLE[k] as nat == spec_dr(RESIDUES_U90[k] as nat),
            forall|k: int| 0 <= k < i ==> #[trigger] out[k] == DR_CYCLE[k],
        decreases 24 - i,
    {
        out[i] = digital_root(RESIDUES_U90[i]);
        i = i + 1;
    }
    proof {
        assert(out@ =~= DR_CYCLE@);
    }
    out
}

/// Number of occurrences of `v` among the first `len` entries of the
/// digital-root cycle.
pub open spec fn dr_cycle_count(v: u64, len: nat) -> nat
    decreases len,
{
    if len == 0 {
        0
    } else {
        dr_cycle_count(v, (len - 1) as nat) + if DR_CYCLE[len - 1] == v {
            1nat
        } else {
            0nat
        }
    }
}

/// `(v, occurrences of v in DR_CYCLE)` for `v = 1, …, 9`.
pub fn compute_uniformity() -> (out: [(u64, u64); 9])
    ensures
        forall|v: int| 1 <= v <= 9 ==> #[trigger] out[v - 1] == (v as u64, dr_cycle_count(v as u64, 24) as u64),
{
    let mut out = [(0u64, 0u64); 9];
    let mut v: u64 = 1;
    while v <= 9
        invariant
            1 <= v <= 10,
            forall|w: int| 1 <= w < v ==> #[trigger] out[w - 1] == (w as u64, dr_cycle_count(w as u64, 24) as u64),
        decreases 10 - v,
    {
        let mut count: u64 = 0;
        let mut i: usize = 0;
        while i < U90_CARDINALITY
            invariant
                i <= 24,
                1 <= v <= 9,
                count == dr_cycle_count(v, i as nat),
                count <= i,
            decreases 24 - i,
        {
            if DR_CYCLE[i] == v {
                count = count + 1;
            }
            i = i + 1;
        }
        out[(v - 1) as usize] = (v, count);
        v = v + 1;
    }
    out
}

/// `Σ_{i < len} (a_i² mod 90)` over `a_i ∈ U_30(90)`.
pub open spec fn diagonal_sum_upto(len: nat) -> nat
    decreases len,
{
    if len == 0 {
        0
    } else {
        diagonal_sum_upto((len - 1) as nat) + ((RESIDUES_U90[len - 1] * RESIDUES_U90[len - 1]) % 90) as nat
    }
}

/// `Σ_{i < len} a_i` over `a_i ∈ U_30(90)`.
pub open spec fn linear_sum_upto(len: nat) -> nat
    decreases len,
{
    if len == 0 {
        0
    } else {
        linear_sum_upto((len - 1) as nat) + RESIDUES_U90[len - 1] as nat
    }
}

/// The secondary-diagonal entry `90 − (a² mod 90)` (`0` when `a² ≡ 0`).
pub open spec fn secondary_entry(a: u64) -> nat {
    let sq = (a * a) % 90;
    if sq == 0 {
        0
    } else {
        (90 - sq) as nat
    }
}

/// `Σ_{i < len}` of the secondary-diagonal entries.
pub open spec fn secondary_sum_upto(len: nat) -> nat
    decreases len,
{
    if len == 0 {
        0
    } else {
        secondary_sum_upto((len - 1) as nat) + secondary_entry(RESIDUES_U90[len - 1])
    }
}

/// Sum of the principal diagonal of the mod-90 multiplication matrix.
pub fn compute_diagonal_sum() -> (s: u64)
    ensures
        s == diagonal_sum_upto(24),
{
    let mut s: u64 = 0;
    let mut i: usize = 0;
    while i < U90_CARDINALITY
        invariant
            i <= 24,
            s == diagonal_sum_upto(i as nat),
            s <= 90 * i,
        decreases 24 - i,
    {
        let a = RESIDUES_U90[i];
        assert(a <= 89);
        assert(a * a <= 7921) by (nonlinear_arith)
            requires
                a <= 89,
        ;
        s = s + (a * a) % MODULUS_U90;
        i = i + 1;
    }
    s
}

/// `Σ U_30(90)`.
pub fn compute_linear_sum() -> (s: u64)
    ensures
        s == linear_sum_upto(24),
{
    let mut s: u64 = 0;
    let mut i: usize = 0;
    while i < U90_CARDINALITY
        invariant
            i <= 24,
            s == linear_sum_upto(i as nat),
            s <= 90 * i,
        decreases 24 - i,
    {
        assert(RESIDUES_U90[i as int] <= 89);
        s = s + RESIDUES_U90[i];
        i = i + 1;
    }
    s
}

/// Sum of the secondary diagonal `90 − (a² mod 90)`.
pub fn compute_secondary_diagonal_sum() -> (s: u64)
    ensures
        s == secondary_sum_upto(24),
{
    let mut s: u64 = 0;
    let mut i: usize = 0;
    while i < U90_CARDINALITY
        invariant
            i <= 24,
            s == secondary_sum_upto(i as nat),
            s <= 90 * i,
        decreases 24 - i,
    {
        let a = RESIDUES_U90[i];
        assert(a <= 89);
        assert(a * a <= 7921) by (nonlinear_arith)
            requires
                a <= 89,
        ;
        let sq = (a * a) % MODULUS_U90;
        let entry = if sq == 0 {
            0
        } else {
            MODULUS_U90 - sq
        };
        s = s + entry;
        i = i + 1;
    }
    s
}

} // verus!
