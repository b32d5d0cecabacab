//! Twin-prime residue constraints modulo 30.
//!
//! For a twin pair `(p, p + 2)` with `p > 5`, both members are coprime to
//! 30, which leaves exactly three residues for `p mod 30`: `{11, 17, 29}`.
use crate::arithmetic::gcd;
use crate::parameters::MODULUS_U;
use crate::primes::{is_prime, lemma_not_coprime30_not_prime};
use crate::u30::{
    coprime30, lemma_coprime30_mod, lemma_filter_prefix, lemma_gcd30, RESIDUES, U30_CARDINALITY,
};
use vstd::prelude::*;

verus! {

/// The residues `r` of `U(30)` with `r + 2` coprime to 30.
pub const TWIN_PRIME_LOWER_RESIDUES: [u64; 3] = [11, 17, 29];

/// The residues of `U(30)` with `r + 2` divisible by 3 or 5.
pub const ISOLATED_LOWER_RESIDUES: [u64; 5] = [1, 7, 13, 19, 23];

/// Twin-prime residue pairs `(r, (r + 2) mod 30)`.
pub const TWIN_PRIME_RESIDUE_PAIRS: [(u64, u64); 3] = [(11, 13), (17, 19), (29, 1)];

/// `|TWIN_PRIME_LOWER_RESIDUES| + |ISOLATED_LOWER_RESIDUES| = 8`.
pub const PARTITION_CHECK: usize = 3 + 5;

/// `r + 2` is coprime to 30.
pub open spec fn twin_successor_coprime(r: u64) -> bool {
    coprime30(((r + 2) % 30) as int)
}

/// The residues of `U(30)`, in order, whose successor by 2 is coprime to 30.
pub open spec fn twin_lower_spec() -> Seq<u64> {
    RESIDUES@.filter(|r: u64| twin_successor_coprime(r))
}

/// The residues of `U(30)`, in order, whose successor by 2 is not coprime to
/// 30.
pub open spec fn isolated_lower_spec() -> Seq<u64> {
    RESIDUES@.filter(|r: u64| !twin_successor_coprime(r))
}

/// The two filters of `U(30)` evaluate to the stated constants.
pub proof fn lemma_twin_filters()
    ensures
        twin_lower_spec() == TWIN_PRIME_LOWER_RESIDUES@,
        isolated_lower_spec() == ISOLATED_LOWER_RESIDUES@,
{
    reveal_with_fuel(Seq::filter, 9);
    assert(RESIDUES@ =~= seq![1u64, 7, 11, 13, 17, 19, 23, 29]);
    assert(twin_lower_spec() =~= TWIN_PRIME_LOWER_RESIDUES@);
    assert(isolated_lower_spec() =~= ISOLATED_LOWER_RESIDUES@);
}

/// The residues `r ∈ U(30)` with `gcd((r + 2) mod 30, 30) = 1`, in order.
pub fn compute_twin_prime_lower() -> (out: [u64; 3])
    ensures
        out@ == twin_lower_spec(),
{
    let mut out = [0u64; 3];
    let mut idx = 0usize;
    let mut i = 0usize;
    let ghost pred = |r: u64| twin_successor_coprime(r);
    proof {
        lemma_twin_filters();
        assert(RESIDUES@.take(0).filter(pred) =~= Seq::<u64>::empty()) by {
            reveal(Seq::filter);
        }
    }
    while i < U30_CARDINALITY
        invariant
            0 <= i <= 8,
            idx == RESIDUES@.take(i as int).filter(pred).len(),
            RESIDUES@.filter(pred).len() == 3,
            forall|j: int| 0 <= j < idx ==> out[j] == RESIDUES@.take(i as int).filter(pred)[j],
            pred == (|r: u64| twin_successor_coprime(r)),
        decreases 8 - i,
    {
        let r = RESIDUES[i];
        let s = (r + 2) % MODULUS_U;
        proof {
            lemma_filter_prefix(RESIDUES@, pred, i as int);
            lemma_gcd30(s as nat);
        }
        if gcd(s, MODULUS_U) == 1 {
            out[idx] = r;
            idx += 1;
        }
        i += 1;
    }
    proof {
        assert(RESIDUES@.take(8) =~= RESIDUES@);
        assert(out@ =~= twin_lower_spec());
    }
    out
}

/// The residues `r ∈ U(30)` with `gcd((r + 2) mod 30, 30) > 1`, in order.
pub fn compute_isolated_lower() -> (out: [u64; 5])
    ensures
        out@ == isolated_lower_spec(),
{
    let mut out = [0u64; 5];
    let mut idx = 0usize;
    let mut i = 0usize;
    let ghost pred = |r: u64| !twin_successor_coprime(r);
    proof {
        lemma_twin_filters();
        assert(RESIDUES@.take(0).filter(pred) =~= Seq::<u64>::empty()) by {
            reveal(Seq::filter);
        }
    }
    while i < U30_CARDINALITY
        invariant
            0 <= i <= 8,
            idx == RESIDUES@.take(i as int).filter(pred).len(),
            RESIDUES@.filter(pred).len() == 5,
            forall|j: int| 0 <= j < idx ==> out[j] == RESIDUES@.take(i as int).filter(pred)[j],
            pred == (|r: u64| !twin_successor_coprime(r)),
        decreases 8 - i,
    {
        let r = RESIDUES[i];
        let s = (r + 2) % MODULUS_U;
        proof {
            lemma_filter_prefix(RESIDUES@, pred, i as int);
            lemma_gcd30(s as nat);
            crate::arithmetic::lemma_gcd_zero(s as nat, 30);
        }
        if gcd(s, MODULUS_U) > 1 {
            out[idx] = r;
            idx += 1;
        }
        i += 1;
    }
    proof {
        assert(RESIDUES@.take(8) =~= RESIDUES@);
        assert(out@ =~= isolated_lower_spec());
    }
    out
}

/// The pairs `(r, (r + 2) mod 30)` for the twin-prime lower residues.
pub fn compute_twin_pairs() -> (out: [(u64, u64); 3])
    ensures
        forall|i: int|
            0 <= i < 3 ==> out[i] == (TWIN_PRIME_LOWER_RESIDUES[i], ((TWIN_PRIME_LOWER_RESIDUES[i]
                + 2) % 30) as u64),
{
    let mut out = [(0u64, 0u64); 3];
    let mut i = 0usize;
    while i < 3
        invariant
            0 <= i <= 3,
            forall|j: int|
                0 <= j < i ==> out[j] == (TWIN_PRIME_LOWER_RESIDUES[j], ((
                TWIN_PRIME_LOWER_RESIDUES[j] + 2) % 30) as u64),
        decreases 3 - i,
    {
        let r = TWIN_PRIME_LOWER_RESIDUES[i];
        out[i] = (r, (r + 2) % MODULUS_U);
        i += 1;
    }
    out
}

/// Predicate: `n mod 30 ∈ {11, 17, 29}` — the necessary residue condition
/// for `n` to be the smaller member of a twin prime pair. Does not test
/// primality.
pub fn is_twin_prime_candidate_lower(n: u64) -> (b: bool)
    ensures
        b == TWIN_PRIME_LOWER_RESIDUES@.contains(n % 30),
{
    let r = n % MODULUS_U;
    let mut i = 0usize;
    while i < 3
        invariant
            0 <= i <= 3,
            r == n % 30,
            forall|j: int| 0 <= j < i ==> TWIN_PRIME_LOWER_RESIDUES[j] != r,
        decreases 3 - i,
    {
        if TWIN_PRIME_LOWER_RESIDUES[i] == r {
            proof {
                assert(TWIN_PRIME_LOWER_RESIDUES@[i as int] == r);
            }
            return true;
        }
        i += 1;
    }
    false
}

/// **Necessary condition.** The smaller member `p > 5` of every twin prime
/// pair `(p, p + 2)` has `p mod 30 ∈ {11, 17, 29}`.
pub proof fn lemma_twin_primes_pass(p: int)
    requires
        p > 5,
        is_prime(p),
        is_prime(p + 2),
    ensures
        TWIN_PRIME_LOWER_RESIDUES@.contains((p % 30) as u64),
{
    if !coprime30(p) {
        lemma_not_coprime30_not_prime(p);
    }
    if !coprime30(p + 2) {
        lemma_not_coprime30_not_prime(p + 2);
    }
    lemma_coprime30_mod(p);
    lemma_coprime30_mod(p + 2);
    let r = p % 30;
    assert((p + 2) % 30 == (r + 2) % 30) by {
        vstd::arithmetic::div_mod::lemma_add_mod_noop(p, 2, 30);
    }
    assert(r == 11 || r == 17 || r == 29);
    if r == 11 {
        assert(TWIN_PRIME_LOWER_RESIDUES@[0] == 11);
    } else if r == 17 {
        assert(TWIN_PRIME_LOWER_RESIDUES@[1] == 17);
    } else {
        assert(TWIN_PRIME_LOWER_RESIDUES@[2] == 29);
    }
}

} // verus!
