//! The 576 dyads of `U_30(90)²` grouped by their digital-root pair
//! `(dr(a), dr(b)) ∈ (Z/9Z)* × (Z/9Z)*`: 36 classes.
use crate::digital_root::{digital_root, spec_dr};
use crate::u90::{lemma_dr_of_coprime30, lemma_residues_u90, RESIDUES_U90, U90_CARDINALITY};
use crate::units_z9::{UNITS_Z9, UNITS_Z9_CARDINALITY};
use vstd::prelude::*;

verus! {

/// Number of classes: `|(Z/9Z)*|² = 36`.
pub const CLASS_COUNT: usize = UNITS_Z9_CARDINALITY * UNITS_Z9_CARDINALITY;

/// Members per class: `4² = 16`.
pub const CLASS_SIZE: usize = 16;

/// Position of `v` in [`UNITS_Z9`] = `[1, 2, 4, 5, 7, 8]`, or `-1`.
pub open spec fn unit_position(v: int) -> int {
    if v == 1 {
        0
    } else if v == 2 {
        1
    } else if v == 4 {
        2
    } else if v == 5 {
        3
    } else if v == 7 {
        4
    } else if v == 8 {
        5
    } else {
        -1
    }
}

/// Lexicographic position of `(d1, d2)` in `(Z/9Z)* × (Z/9Z)*`, or `-1`
/// when either coordinate is not a unit.
pub open spec fn spec_class_index(d1: int, d2: int) -> int {
    if unit_position(d1) >= 0 && unit_position(d2) >= 0 {
        unit_position(d1) * 6 + unit_position(d2)
    } else {
        -1
    }
}

/// Class of dyad number `t` (row-major over `U_30(90)²`).
pub open spec fn dyad_class(t: int) -> int {
    spec_class_index(
        spec_dr(RESIDUES_U90[t / 24] as nat) as int,
        spec_dr(RESIDUES_U90[t % 24] as nat) as int,
    )
}

/// Number of dyads among the first `n` that fall in class `k`.
pub open spec fn class_hits(k: int, n: nat) -> nat
    decreases n,
{
    if n == 0 {
        0
    } else {
        class_hits(k, (n - 1) as nat) + if dyad_class(n - 1) == k {
            1nat
        } else {
            0nat
        }
    }
}

/// Position of `(dr1, dr2)` in the lexicographic enumeration of
/// `(Z/9Z)* × (Z/9Z)*`; `usize::MAX` if either is not a unit.
pub fn class_index(dr1: u64, dr2: u64) -> (r: usize)
    ensures
        spec_class_index(dr1 as int, dr2 as int) >= 0 ==> r == spec_class_index(
            dr1 as int,
            dr2 as int,
        ),
        spec_class_index(dr1 as int, dr2 as int) < 0 ==> r == usize::MAX,
{
    let mut i: usize = 0;
    let mut p1: usize = usize::MAX;
    let mut p2: usize = usize::MAX;
    while i < UNITS_Z9_CARDINALITY
        invariant
            i <= 6,
            p1 == usize::MAX || (p1 < i && unit_position(dr1 as int) == p1),
            p1 == usize::MAX ==> forall|k: int| 0 <= k < i ==> UNITS_Z9[k] != dr1,
            p2 == usize::MAX || (p2 < i && unit_position(dr2 as int) == p2),
            p2 == usize::MAX ==> forall|k: int| 0 <= k < i ==> UNITS_Z9[k] != dr2,
        decreases 6 - i,
    {
        if UNITS_Z9[i] == dr1 {
            p1 = i;
        }
        if UNITS_Z9[i] == dr2 {
            p2 = i;
        }
        i = i + 1;
    }
    if p1 == usize::MAX || p2 == usize::MAX {
        return usize::MAX;
    }
    p1 * UNITS_Z9_CARDINALITY + p2
}

/// Every dyad of `U_30(90)²` lies in one of the 36 classes.
pub proof fn lemma_dyad_class_valid(t: int)
    requires
        0 <= t < 576,
    ensures
        0 <= dyad_class(t) < 36,
{
    lemma_residues_u90();
    lemma_dr_of_coprime30(RESIDUES_U90[t / 24] as int);
    lemma_dr_of_coprime30(RESIDUES_U90[t % 24] as int);
}

/// `CLASS_COUNTS[k]`: the number of dyads of `U_30(90)²` in class `k`.
pub fn compute_class_counts() -> (out: [usize; 36])
    ensures
        forall|k: int| 0 <= k < 36 ==> #[trigger] out[k] == class_hits(k, 576),
{
    let mut out = [0usize; 36];
    let mut i: usize = 0;
    while i < U90_CARDINALITY
        invariant
            i <= 24,
            forall|k: int| 0 <= k < 36 ==> #[trigger] out[k] == class_hits(k, (i * 24) as nat),
            forall|k: int| 0 <= k < 36 ==> #[trigger] out[k] <= i * 24,
        decreases 24 - i,
    {
        let dr1 = digital_root(RESIDUES_U90[i]);
        let mut j: usize = 0;
        while j < U90_CARDINALITY
            invariant
                i < 24,
                j <= 24,
                dr1 == spec_dr(RESIDUES_U90[i as int] as nat),
                forall|k: int|
                    0 <= k < 36 ==> #[trigger] out[k] == class_hits(k, (i * 24 + j) as nat),
                forall|k: int| 0 <= k < 36 ==> #[trigger] out[k] <= i * 24 + j,
            decreases 24 - j,
        {
            let dr2 = digital_root(RESIDUES_U90[j]);
            let t: usize = i * 24 + j;
            proof {
                assert((t as int) / 24 == i && (t as int) % 24 == j) by {
                    vstd::arithmetic::div_mod::lemma_fundamental_div_mod_converse(
                        t as int,
                        24,
                        i as int,
                        j as int,
                    );
                }
                lemma_dyad_class_valid(t as int);
            }
            let k = class_index(dr1, dr2);
            out[k] = out[k] + 1;
            j = j + 1;
        }
        i = i + 1;
    }
    out
}

} // verus!
