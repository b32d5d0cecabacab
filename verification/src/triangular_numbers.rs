//! Triangular numbers and the algebraic identities at the `U_30(∞)`
//! anchors `89 = nth_u30_member(24)` and `109 = nth_u30_member(30)`.
use crate::parameters::MODULUS_R;
use vstd::prelude::*;

verus! {

/// `k(n) = n · (n + 1) / 2`.
pub open spec fn spec_triangular(n: nat) -> nat {
    n * (n + 1) / 2
}

/// Triangular number `k(n) = n · (n + 1) / 2`, for every `n` whose result
/// fits in `u64` (all `n ≤ 6,074,000,999`).
pub fn triangular(n: u64) -> (r: u64)
    requires
        spec_triangular(n as nat) <= u64::MAX,
    ensures
        r == spec_triangular(n as nat),
{
    let wide: u128 = n as u128;
    assert(wide * (wide + 1) <= u128::MAX) by (nonlinear_arith)
        requires
            wide <= u64::MAX,
    ;
    let t: u128 = wide * (wide + 1) / 2;
    t as u64
}

/// `89`, the 24th positive integer coprime to 30.
pub const ANCHOR_24: u64 = 89;

/// `109`, the 30th positive integer coprime to 30.
pub const ANCHOR_30: u64 = 109;

/// `k(89) = 4,005`.
pub const TRIANGULAR_AT_24TH: u64 = 4_005;

/// `k(109) = 5,995`.
pub const TRIANGULAR_AT_30TH: u64 = 5_995;

/// `k(7919) = 31,359,240`; `7919` is the 1000th prime.
pub const TRIANGULAR_AT_THOUSANDTH_PRIME: u64 = 31_359_240;

/// `89² − 1 = 7,920 = 22 · MODULUS_R`.
pub const SQUARE_MINUS_ONE_AT_24: u64 = ANCHOR_24 * ANCHOR_24 - 1;

/// `109² − 89² = 3,960 = 11 · MODULUS_R`.
pub const SQUARE_DIFFERENCE_30_24: u64 = ANCHOR_30 * ANCHOR_30 - ANCHOR_24 * ANCHOR_24;

/// `2112 · (109² − 89²) = 8,363,520`.
pub const PYRAMID_PRODUCT: u64 = 2_112 * SQUARE_DIFFERENCE_30_24;

/// The anchor identities, checked by the prover.
pub proof fn lemma_anchor_identities()
    ensures
        spec_triangular(ANCHOR_24 as nat) == TRIANGULAR_AT_24TH,
        spec_triangular(ANCHOR_30 as nat) == TRIANGULAR_AT_30TH,
        spec_triangular(7919) == TRIANGULAR_AT_THOUSANDTH_PRIME,
        SQUARE_MINUS_ONE_AT_24 == 22 * MODULUS_R,
        SQUARE_DIFFERENCE_30_24 == 11 * MODULUS_R,
        PYRAMID_PRODUCT == 2_112 * 11 * MODULUS_R,
{
}

} // verus!
