//! Period-24 digital-root sequences across `U_30(90)`: row `i` of the
//! table is `k ↦ dr((RESIDUES_U90[i] · RESIDUES_U90[k]) mod 90)`.
use crate::digital_root::{digital_root, spec_dr};
use crate::u90::{
    lemma_dr_of_coprime30, lemma_residues_u90, lemma_u90_closed, DR_CYCLE, MODULUS_U90,
    RESIDUES_U90, U90_CARDINALITY,
};
use vstd::prelude::*;

verus! {

/// Every row (and every column) of the table sums to `108 = 4 · 27`.
pub const DR_ROW_SUM: u64 = 108;

/// Total of the table: `24 · 108 = 2592 = 6 · 432`.
pub const DR_TABLE_TOTAL: u64 = 24 * DR_ROW_SUM;

/// Entry `(i, k)` of the table.
pub open spec fn dr_sequence_entry(i: int, k: int) -> u64 {
    spec_dr(((RESIDUES_U90[i] * RESIDUES_U90[k]) % 90) as nat) as u64
}

/// `d` is a unit of `Z/9Z`, as a digital root.
pub open spec fn is_unit_dr(d: u64) -> bool {
    d == 1 || d == 2 || d == 4 || d == 5 || d == 7 || d == 8
}

/// Every entry of the table is a unit of `Z/9Z`.
pub proof fn lemma_entries_are_units(i: int, k: int)
    requires
        0 <= i < 24,
        0 <= k < 24,
    ensures
        is_unit_dr(dr_sequence_entry(i, k)),
{
    lemma_residues_u90();
    let a = RESIDUES_U90[i] as int;
    let b = RESIDUES_U90[k] as int;
    lemma_u90_closed(a, b);
    lemma_dr_of_coprime30((a * b) % 90);
}

/// The 24 × 24 table of digital roots of mod-90 products.
pub fn compute_dr_sequences() -> (out: [[u64; 24]; 24])
    ensures
        forall|i: int, k: int|
            0 <= i < 24 && 0 <= k < 24 ==> #[trigger] out[i][k] == dr_sequence_entry(i, k),
        forall|i: int, k: int| 0 <= i < 24 && 0 <= k < 24 ==> is_unit_dr(#[trigger] out[i][k]),
        forall|k: int| 0 <= k < 24 ==> #[trigger] out[0][k] == DR_CYCLE[k],
{
    let mut out = [[0u64; 24]; 24];
    let mut i: usize = 0;
    while i < U90_CARDINALITY
        invariant
            i <= 24,
            forall|x: int, k: int|
                0 <= x < i && 0 <= k < 24 ==> #[trigger] out[x][k] == dr_sequence_entry(x, k),
        decreases 24 - i,
    {
        let r = RESIDUES_U90[i];
        assert(r <= 89);
        let mut row = [0u64; 24];
        let mut k: usize = 0;
        while k < U90_CARDINALITY
            invariant
                i < 24,
                k <= 24,
                r == RESIDUES_U90[i as int],
                r <= 89,
                forall|y: int| 0 <= y < k ==> #[trigger] row[y] == dr_sequence_entry(i as int, y),
            decreases 24 - k,
        {
            let a = RESIDUES_U90[k];
            assert(a <= 89);
            assert(r * a <= 7921) by (nonlinear_arith)
                requires
                    r <= 89,
                    a <= 89,
            ;
            let prod = (r * a) % MODULUS_U90;
            row[k] = digital_root(prod);
            k = k + 1;
        }
        out[i] = row;
        i = i + 1;
    }
    proof {
        lemma_residues_u90();
        assert forall|i: int, k: int| 0 <= i < 24 && 0 <= k < 24 implies is_unit_dr(
            #[trigger] out[i][k],
        ) by {
            lemma_entries_are_units(i, k);
        }
        assert forall|k: int| 0 <= k < 24 implies #[trigger] out[0][k] == DR_CYCLE[k] by {
            assert(RESIDUES_U90[0] == 1);
            assert(out[0][k] == dr_sequence_entry(0, k));
            vstd::arithmetic::div_mod::lemma_small_mod(RESIDUES_U90[k] as nat, 90);
        }
    }
    out
}

} // verus!
