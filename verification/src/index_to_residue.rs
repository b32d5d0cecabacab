//! Bijection between `k ≥ 1` and the `k`-th positive integer coprime to 30.
use crate::arithmetic::gcd;
use crate::parameters::MODULUS_U;
use crate::sieve::{coprime30_count, lemma_coprime30_count, residues_upto};
use crate::u30::{
    coprime30, lemma_coprime30_mod, lemma_gcd30, lemma_pos_of_residue, lemma_residue_pos,
    lemma_u30_index, lemma_u30_value, residue_pos, u30_index, u30_value, RESIDUES,
    U30_CARDINALITY,
};
use vstd::arithmetic::div_mod::*;
use vstd::prelude::*;

verus! {

/// A member `v ≥ 1` of `U(30)` at 0-indexed position `i` is the `(i+1)`-th
/// positive integer coprime to 30.
pub proof fn lemma_index_is_count(v: int)
    requires
        v >= 1,
        coprime30(v),
    ensures
        u30_index(v) + 1 == coprime30_count(v as nat),
{
    lemma_coprime30_count(v as nat);
    let r = v % 30;
    lemma_coprime30_mod(v);
    lemma_residue_pos(r);
    reveal_with_fuel(residues_upto, 9);
}

/// **Forward map.** The `k`-th (1-indexed) positive integer coprime to 30;
/// `0` for `k = 0`:
/// `k → 30 · ⌊(k − 1) / 8⌋ + RESIDUES[(k − 1) mod 8]`.
pub fn nth_u30_member(k: u64) -> (r: u64)
    requires
        k == 0 || u30_value(k - 1) <= u64::MAX,
    ensures
        k == 0 ==> r == 0,
        k >= 1 ==> r == u30_value(k - 1),
        k >= 1 ==> coprime30(r as int) && r >= 1 && coprime30_count(r as nat) == k,
{
    if k == 0 {
        return 0;
    }
    let zero_idx = k - 1;
    let block = zero_idx / (U30_CARDINALITY as u64);
    let offset = zero_idx % (U30_CARDINALITY as u64);
    proof {
        lemma_u30_value(k - 1);
        lemma_index_is_count(u30_value(k - 1));
    }
    block * MODULUS_U + RESIDUES[offset as usize]
}

/// **Inverse map.** The 1-indexed position of `n` among the positive
/// integers coprime to 30, i.e. the number of such integers in `[1, n]`;
/// `0` if `n = 0` or `gcd(n, 30) ≠ 1`.
pub fn index_of_u30_member(n: u64) -> (r: u64)
    ensures
        (n == 0 || !coprime30(n as int)) ==> r == 0,
        n >= 1 && coprime30(n as int) ==> r == u30_index(n as int) + 1,
        n >= 1 && coprime30(n as int) ==> r == coprime30_count(n as nat),
{
    proof {
        lemma_gcd30(n as nat);
    }
    if n == 0 || gcd(n, MODULUS_U) != 1 {
        return 0;
    }
    let block = n / MODULUS_U;
    let offset = n % MODULUS_U;
    let mut pos = 0u64;
    let mut found = false;
    let mut i: usize = 0;
    proof {
        lemma_coprime30_mod(n as int);
        lemma_residue_pos(offset as int);
    }
    while i < U30_CARDINALITY
        invariant
            0 <= i <= 8,
            offset < 30,
            found ==> pos == residue_pos(offset as int),
            !found ==> forall|j: int| 0 <= j < i ==> RESIDUES[j] != offset,
            residue_pos(offset as int) >= 0,
            RESIDUES[residue_pos(offset as int)] == offset,
        decreases 8 - i,
    {
        if RESIDUES[i] == offset {
            proof {
                lemma_pos_of_residue(i as int);
            }
            pos = i as u64;
            found = true;
        }
        i += 1;
    }
    if !found {
        return 0;
    }
    proof {
        lemma_index_is_count(n as int);
    }
    block * (U30_CARDINALITY as u64) + pos + 1
}

/// **Round trip, forward then inverse.** `index_of(nth(k)) = k` for every
/// `k ≥ 1`.
pub proof fn lemma_index_of_nth(k: int)
    requires
        k >= 1,
    ensures
        coprime30(u30_value(k - 1)),
        u30_value(k - 1) >= 1,
        u30_index(u30_value(k - 1)) + 1 == k,
{
    lemma_u30_value(k - 1);
}

/// **Round trip, inverse then forward.** `nth(index_of(n)) = n` for every
/// `n ≥ 1` coprime to 30.
pub proof fn lemma_nth_of_index(n: int)
    requires
        n >= 1,
        coprime30(n),
    ensures
        u30_index(n) >= 0,
        u30_value((u30_index(n) + 1) - 1) == n,
{
    lemma_u30_index(n);
}

} // verus!
