//! Sophie Germain residue constraints modulo 30.
//!
//! For a Sophie Germain prime `p > 5` (with `2p + 1` also prime) both `p`
//! and `2p + 1` are coprime to 30, which leaves `p mod 30 ∈ {11, 23, 29}`.
use crate::arithmetic::gcd;
use crate::parameters::MODULUS_U;
use crate::primes::{is_prime, lemma_not_coprime30_not_prime};
use crate::u30::{
    coprime30, lemma_coprime30_mod, lemma_filter_prefix, lemma_gcd30, RESIDUES, U30_CARDINALITY,
};
use vstd::prelude::*;

verus! {

/// The residues `r` of `U(30)` with `2r + 1` coprime to 30.
pub const SOPHIE_GERMAIN_LOWER_RESIDUES: [u64; 3] = [11, 23, 29];

/// The residues of `U(30)` with `2r + 1` divisible by 3 or 5.
pub const SG_ISOLATED_RESIDUES: [u64; 5] = [1, 7, 13, 17, 19];

/// Sophie Germain residue pairs `(r, (2r + 1) mod 30)`.
pub const SG_RESIDUE_PAIRS: [(u64, u64); 3] = [(11, 23), (23, 17), (29, 29)];

/// The two sets partition `U(30)`: `3 + 5 = 8`.
pub const SG_PARTITION_CHECK: usize = 3 + 5;

/// `2r + 1` is coprime to 30.
pub open spec fn safe_successor_coprime(r: u64) -> bool {
    coprime30(((2 * r + 1) % 30) as int)
}

/// The residues of `U(30)`, in order, with `2r + 1` coprime to 30.
pub open spec fn sg_lower_spec() -> Seq<u64> {
    RESIDUES@.filter(|r: u64| safe_successor_coprime(r))
}

/// The residues of `U(30)`, in order, with `2r + 1` not coprime to 30.
pub open spec fn sg_isolated_spec() -> Seq<u64> {
    RESIDUES@.filter(|r: u64| !safe_successor_coprime(r))
}

/// The two filters of `U(30)` evaluate to the stated constants.
pub proof fn lemma_sg_filters()
    ensures
        sg_lower_spec() == SOPHIE_GERMAIN_LOWER_RESIDUES@,
        sg_isolated_spec() == SG_ISOLATED_RESIDUES@,
{
    reveal_with_fuel(Seq::filter, 9);
    assert(RESIDUES@ =~= seq![1u64, 7, 11, 13, 17, 19, 23, 29]);
    assert(sg_lower_spec() =~= SOPHIE_GERMAIN_LOWER_RESIDUES@);
    assert(sg_isolated_spec() =~= SG_ISOLATED_RESIDUES@);
}

/// The residues `r ∈ U(30)` with `gcd((2r + 1) mod 30, 30) = 1`, in order.
pub fn compute_sg_lower() -> (out: [u64; 3])
    ensures
        out@ == sg_lower_spec(),
{
    let mut out = [0u64; 3];
    let mut idx = 0usize;
    let mut i = 0usize;
    let ghost pred = |r: u64| safe_successor_coprime(r);
    proof {
        lemma_sg_filters();
        assert(RESIDUES@.take(0).filter(pred) =~= Seq::<u64>::empty()) by {
            reveal(Seq::filter);
        }
    }
    while i < U30_CARDINALITY
        invariant
            0 <= i <= 8,
            idx == RESIDUES@.take(i as int).filter(pred).len(),
            RESIDUES@.filter(pred).len() == 3,
            forall|j: int| 0 <= j < idx ==> out[j] == RESIDUES@.take(i as int).filter(pred)[j],
            pred == (|r: u64| safe_successor_coprime(r)),
        decreases 8 - i,
    {
        let r = RESIDUES[i];
        let s = (2 * r + 1) % MODULUS_U;
        proof {
            lemma_filter_prefix(RESIDUES@, pred, i as int);
            lemma_gcd30(s as nat);
        }
        if gcd(s, MODULUS_U) == 1 {
            out[idx] = r;
            idx += 1;
        }
        i += 1;
    }
    proof {
        assert(RESIDUES@.take(8) =~= RESIDUES@);
        assert(out@ =~= sg_lower_spec());
    }
    out
}

/// The residues `r ∈ U(30)` with `gcd((2r + 1) mod 30, 30) > 1`, in order.
pub fn compute_sg_isolated() -> (out: [u64; 5])
    ensures
        out@ == sg_isolated_spec(),
{
    let mut out = [0u64; 5];
    let mut idx = 0usize;
    let mut i = 0usize;
    let ghost pred = |r: u64| !safe_successor_coprime(r);
    proof {
        lemma_sg_filters();
        assert(RESIDUES@.take(0).filter(pred) =~= Seq::<u64>::empty()) by {
            reveal(Seq::filter);
        }
    }
    while i < U30_CARDINALITY
        invariant
            0 <= i <= 8,
            idx == RESIDUES@.take(i as int).filter(pred).len(),
            RESIDUES@.filter(pred).len() == 5,
            forall|j: int| 0 <= j < idx ==> out[j] == RESIDUES@.take(i as int).filter(pred)[j],
            pred == (|r: u64| !safe_successor_coprime(r)),
        decreases 8 - i,
    {
        let r = RESIDUES[i];
        let s = (2 * r + 1) % MODULUS_U;
        proof {
            lemma_filter_prefix(RESIDUES@, pred, i as int);
            lemma_gcd30(s as nat);
            crate::arithmetic::lemma_gcd_zero(s as nat, 30);
        }
        if gcd(s, MODULUS_U) > 1 {
            out[idx] = r;
            idx += 1;
        }
        i += 1;
    }
    proof {
        assert(RESIDUES@.take(8) =~= RESIDUES@);
        assert(out@ =~= sg_isolated_spec());
    }
    out
}

/// The pairs `(r, (2r + 1) mod 30)` for the Sophie Germain lower residues.
pub fn compute_sg_pairs() -> (out: [(u64, u64); 3])
    ensures
        forall|i: int|
            0 <= i < 3 ==> out[i] == (SOPHIE_GERMAIN_LOWER_RESIDUES[i], ((2
                * SOPHIE_GERMAIN_LOWER_RESIDUES[i] + 1) % 30) as u64),
{
    let mut out = [(0u64, 0u64); 3];
    let mut i = 0usize;
    while i < 3
        invariant
            0 <= i <= 3,
            forall|j: int|
                0 <= j < i ==> out[j] == (SOPHIE_GERMAIN_LOWER_RESIDUES[j], ((2
                    * SOPHIE_GERMAIN_LOWER_RESIDUES[j] + 1) % 30) as u64),
        decreases 3 - i,
    {
        let r = SOPHIE_GERMAIN_LOWER_RESIDUES[i];
        out[i] = (r, (2 * r + 1) % MODULUS_U);
        i += 1;
    }
    out
}

/// Predicate: `n mod 30 ∈ {11, 23, 29}` — the necessary residue condition
/// for `n` to be a Sophie Germain prime. Does not test primality.
pub fn is_sophie_germain_candidate(n: u64) -> (b: bool)
    ensures
        b == SOPHIE_GERMAIN_LOWER_RESIDUES@.contains(n % 30),
{
    let r = n % MODULUS_U;
    let mut i = 0usize;
    while i < 3
        invariant
            0 <= i <= 3,
            r == n % 30,
            forall|j: int| 0 <= j < i ==> SOPHIE_GERMAIN_LOWER_RESIDUES[j] != r,
        decreases 3 - i,
    {
        if SOPHIE_GERMAIN_LOWER_RESIDUES[i] == r {
            proof {
                assert(SOPHIE_GERMAIN_LOWER_RESIDUES@[i as int] == r);
            }
            return true;
        }
        i += 1;
    }
    false
}

/// **Necessary condition.** Every Sophie Germain prime `p > 5` (with
/// `2p + 1` prime) has `p mod 30 ∈ {11, 23, 29}`.
pub proof fn lemma_sophie_germain_primes_pass(p: int)
    requires
        p > 5,
        is_prime(p),
        is_prime(2 * p + 1),
    ensures
        SOPHIE_GERMAIN_LOWER_RESIDUES@.contains((p % 30) as u64),
{
    if !coprime30(p) {
        lemma_not_coprime30_not_prime(p);
    }
    if !coprime30(2 * p + 1) {
        lemma_not_coprime30_not_prime(2 * p + 1);
    }
    lemma_coprime30_mod(p);
    lemma_coprime30_mod(2 * p + 1);
    let r = p % 30;
    assert((2 * p + 1) % 30 == (2 * r + 1) % 30) by {
        vstd::arithmetic::div_mod::lemma_fundamental_div_mod(p, 30);
        vstd::arithmetic::div_mod::lemma_mod_multiples_vanish(2 * (p / 30), 2 * r + 1, 30);
    }
    assert(r == 11 || r == 23 || r == 29);
    if r == 11 {
        assert(SOPHIE_GERMAIN_LOWER_RESIDUES@[0] == 11);
    } else if r == 23 {
        assert(SOPHIE_GERMAIN_LOWER_RESIDUES@[1] == 23);
    } else {
        assert(SOPHIE_GERMAIN_LOWER_RESIDUES@[2] == 29);
    }
}

} // verus!
