//! The `576 = 24²` ordered factorization dyads of `U_30(90) × U_30(90)`.
//!
//! Dyad `(a, b)` carries the product `(a · b) mod 90`, which is again a
//! member of `U_30(90)`.
use crate::u30::{coprime30, lemma_u30_index, lemma_u30_value, u30_index, u30_value};
use crate::u90::{lemma_residues_u90, lemma_u90_closed, MODULUS_U90, RESIDUES_U90, U90_CARDINALITY};
use vstd::prelude::*;

verus! {

/// Number of ordered dyads: `24² = 576`.
pub const DYAD_COUNT: usize = 576;

/// Every residue of `U_30(90)` is the product of 24 dyads.
pub const FIBER_SIZE: usize = 24;

/// `FIBER_SIZE · U90_CARDINALITY = DYAD_COUNT`.
pub const CARDINALITY_IDENTITY: usize = 576;

/// Dyad number `k` in row-major order: `(a, b, (a · b) mod 90)` with
/// `a = RESIDUES_U90[k / 24]`, `b = RESIDUES_U90[k % 24]`.
pub open spec fn dyad(k: int) -> (u64, u64, u64) {
    let a = RESIDUES_U90[k / 24];
    let b = RESIDUES_U90[k % 24];
    (a, b, ((a * b) % 90) as u64)
}

/// All 576 ordered dyads, row by row.
pub fn compute_dyads_table() -> (out: [(u64, u64, u64); 576])
    ensures
        forall|k: int| 0 <= k < 576 ==> #[trigger] out[k] == dyad(k),
{
    let mut out = [(0u64, 0u64, 0u64); 576];
    let mut idx: usize = 0;
    let mut i: usize = 0;
    while i < U90_CARDINALITY
        invariant
            i <= 24,
            idx == i * 24,
            forall|k: int| 0 <= k < idx ==> #[trigger] out[k] == dyad(k),
        decreases 24 - i,
    {
        let a = RESIDUES_U90[i];
        assert(a <= 89);
        let mut j: usize = 0;
        while j < U90_CARDINALITY
            invariant
                i < 24,
                j <= 24,
                a == RESIDUES_U90[i as int],
                idx == i * 24 + j,
                forall|k: int| 0 <= k < idx ==> #[trigger] out[k] == dyad(k),
            decreases 24 - j,
        {
            let b = RESIDUES_U90[j];
            assert(b <= 89);
            assert(a * b <= 7921) by (nonlinear_arith)
                requires
                    a <= 89,
                    b <= 89,
            ;
            let prod = (a * b) % MODULUS_U90;
            proof {
                assert((idx as int) / 24 == i && (idx as int) % 24 == j) by {
                    vstd::arithmetic::div_mod::lemma_fundamental_div_mod_converse(
                        idx as int,
                        24,
                        i as int,
                        j as int,
                    );
                }
            }
            out[idx] = (a, b, prod);
            idx = idx + 1;
            j = j + 1;
        }
        i = i + 1;
    }
    out
}

/// Index of `r` within [`RESIDUES_U90`], or `usize::MAX` if absent.
pub fn u90_position(r: u64) -> (p: usize)
    ensures
        p < 24 ==> RESIDUES_U90[p as int] == r,
        p == usize::MAX <==> forall|k: int| 0 <= k < 24 ==> RESIDUES_U90[k] != r,
        p < 24 || p == usize::MAX,
{
    let mut i: usize = 0;
    while i < U90_CARDINALITY
        invariant
            i <= 24,
            forall|k: int| 0 <= k < i ==> RESIDUES_U90[k] != r,
        decreases 24 - i,
    {
        if RESIDUES_U90[i] == r {
            return i;
        }
        i = i + 1;
    }
    usize::MAX
}

/// The 24 diagonal dyads `(a, a, a² mod 90)`.
pub fn compute_diagonal_dyads() -> (out: [(u64, u64, u64); 24])
    ensures
        forall|i: int|
            0 <= i < 24 ==> #[trigger] out[i] == (
                RESIDUES_U90[i],
                RESIDUES_U90[i],
                ((RESIDUES_U90[i] * RESIDUES_U90[i]) % 90) as u64,
            ),
{
    let mut out = [(0u64, 0u64, 0u64); 24];
    let mut i: usize = 0;
    while i < U90_CARDINALITY
        invariant
            i <= 24,
            forall|k: int|
                0 <= k < i ==> #[trigger] out[k] == (
                    RESIDUES_U90[k],
                    RESIDUES_U90[k],
                    ((RESIDUES_U90[k] * RESIDUES_U90[k]) % 90) as u64,
                ),
        decreases 24 - i,
    {
        let a = RESIDUES_U90[i];
        assert(a <= 89);
        assert(a * a <= 7921) by (nonlinear_arith)
            requires
                a <= 89,
        ;
        out[i] = (a, a, (a * a) % MODULUS_U90);
        i = i + 1;
    }
    out
}

/// Every dyad's product is again a member of `U_30(90)`: it sits at
/// position `u30_index(product)` of [`RESIDUES_U90`].
pub proof fn lemma_dyad_product_in_u90(k: int)
    requires
        0 <= k < 576,
    ensures
        0 <= u30_index(dyad(k).2 as int) < 24,
        RESIDUES_U90[u30_index(dyad(k).2 as int)] == dyad(k).2,
{
    lemma_residues_u90();
    let a = RESIDUES_U90[k / 24];
    let b = RESIDUES_U90[k % 24];
    lemma_u90_closed(a as int, b as int);
    let p = ((a * b) % 90) as int;
    lemma_u30_index(p);
    let i = u30_index(p);
    if i >= 24 {
        lemma_u30_value_ge(i);
    }
}

/// Positions from 24 on hold values of at least 91.
proof fn lemma_u30_value_ge(i: int)
    requires
        i >= 24,
    ensures
        u30_value(i) >= 91,
{
    lemma_u30_value(i);
}

} // verus!
