//! Perfect squares of `U(30)` members modulo 30 and modulo 9.
//!
//! For every `n ∈ U(30)`, `n² mod 30 ∈ {1, 19}` and `dr(n²) ∈ {1, 4, 7}`.
use crate::digital_root::{digital_root, spec_dr};
use crate::parameters::MODULUS_U;
use crate::u30::{coprime30, lemma_coprime30_mod, lemma_square_mod30, RESIDUES, U30_CARDINALITY};
use vstd::arithmetic::div_mod::*;
use vstd::prelude::*;

verus! {

/// Distinct values of `n² mod 30` for `n ∈ U(30)`, ascending.
pub const SQUARE_MOD30_RESIDUES: [u64; 2] = [1, 19];

/// Distinct digital roots of `n²` for `n ∈ U(30)`, ascending.
pub const SQUARE_DR_VALUES: [u64; 3] = [1, 4, 7];

/// The squares of `(Z/9Z)*`, as digital roots.
pub const SQUARE_DR_COSET: [u64; 3] = [1, 4, 7];

/// The non-square units of `(Z/9Z)*`, as digital roots.
pub const NON_SQUARE_UNIT_DR_COSET: [u64; 3] = [2, 5, 8];

/// The non-units (multiples of 3), as digital roots.
pub const NON_UNIT_DR_COSET: [u64; 3] = [3, 6, 9];

/// Each value of [`SQUARE_MOD30_RESIDUES`] is hit by 4 of the 8 residues.
pub const SQUARE_MOD30_MULTIPLICITY: u64 = 4;

/// `RESIDUES[j]² mod 30`.
pub open spec fn residue_square_mod30(j: int) -> u64 {
    ((RESIDUES[j] * RESIDUES[j]) % 30) as u64
}

/// `dr(RESIDUES[j]²)`.
pub open spec fn residue_square_dr(j: int) -> u64 {
    spec_dr((RESIDUES[j] * RESIDUES[j]) as nat) as u64
}

/// `v` occurs among the first `len` entries of `s`.
pub open spec fn appears(s: Seq<u64>, len: int, v: u64) -> bool {
    exists|k: int| 0 <= k < len && s[k] == v
}

/// The set `{ (r · r) mod 30 : r ∈ U(30) }`.
pub open spec fn square_mod30_values() -> Set<u64> {
    Set::new(|v: u64| exists|j: int| 0 <= j < 8 && v == residue_square_mod30(j))
}

/// The set `{ dr(r · r) : r ∈ U(30) }`.
pub open spec fn square_dr_values() -> Set<u64> {
    Set::new(|v: u64| exists|j: int| 0 <= j < 8 && v == residue_square_dr(j))
}

/// The square of every residue of `U(30)` is `1` or `19` modulo 30, and
/// its digital root is `1`, `4` or `7`.
/// `x² = r²` once `x = r`.
proof fn lemma_square_of(x: int, r: int)
    by (nonlinear_arith)
    requires
        x == r,
    ensures
        x * x == r * r,
{
}


/// The squares of the residues of `U(30)`: their values modulo 30 and
/// their digital roots.
proof fn lemma_residue_squares(j: int)
    requires
        0 <= j < 8,
    ensures
        residue_square_mod30(j) == 1 || residue_square_mod30(j) == 19,
        residue_square_dr(j) == 1 || residue_square_dr(j) == 4 || residue_square_dr(j) == 7,
        RESIDUES[j] * RESIDUES[j] <= 841,
        j == 0 ==> RESIDUES[j] * RESIDUES[j] == 1,
        j == 1 ==> RESIDUES[j] * RESIDUES[j] == 49,
        j == 3 ==> RESIDUES[j] * RESIDUES[j] == 169,
        (RESIDUES[j] * RESIDUES[j]) % 30 == 1 || (RESIDUES[j] * RESIDUES[j]) % 30 == 19,
        spec_dr((RESIDUES[j] * RESIDUES[j]) as nat) == 1 || spec_dr(
            (RESIDUES[j] * RESIDUES[j]) as nat,
        ) == 4 || spec_dr((RESIDUES[j] * RESIDUES[j]) as nat) == 7,
{
    lemma_square_of(RESIDUES[j] as int, RESIDUES[j] as int);
    let r = RESIDUES[j] as int;
    assert(r == 1 || r == 7 || r == 11 || r == 13 || r == 17 || r == 19 || r == 23 || r == 29);
    lemma_square_of(r, r);
    if r == 1 {
        lemma_square_of(r, 1);
        assert((r * r) % 30 == 1);
    } else if r == 7 {
        lemma_square_of(r, 7);
        assert((r * r) % 30 == 19);
    } else if r == 11 {
        lemma_square_of(r, 11);
        assert((r * r) % 30 == 1);
    } else if r == 13 {
        lemma_square_of(r, 13);
        assert((r * r) % 30 == 19);
    } else if r == 17 {
        lemma_square_of(r, 17);
        assert((r * r) % 30 == 19);
    } else if r == 19 {
        lemma_square_of(r, 19);
        assert((r * r) % 30 == 1);
    } else if r == 23 {
        lemma_square_of(r, 23);
        assert((r * r) % 30 == 19);
    } else {
        lemma_square_of(r, 29);
        assert((r * r) % 30 == 1);
    }
}

/// The distinct values of `n² mod 30` over `U(30)`, ascending.
pub fn compute_square_mod30() -> (out: [u64; 2])
    ensures
        out[0] < out[1],
        Set::empty().insert(out[0]).insert(out[1]) == square_mod30_values(),
{
    let mut out = [0u64; 2];
    let mut idx = 0usize;
    let mut i = 0usize;
    while i < U30_CARDINALITY
        invariant
            0 <= i <= 8,
            0 <= idx <= 2,
            idx <= i,
            forall|k: int| 0 <= k < idx ==> out[k] == 1 || out[k] == 19,
            idx == 2 ==> out[0] != out[1],
            forall|j: int| 0 <= j < i ==> appears(out@, idx as int, #[trigger] residue_square_mod30(j)),
        decreases 8 - i,
    {
        proof {
            lemma_residue_squares(i as int);
        }
        let sq = (RESIDUES[i] * RESIDUES[i]) % MODULUS_U;
        // Insert if not already present (small dedup).
        let mut seen = false;
        let mut j = 0usize;
        while j < idx
            invariant
                0 <= j <= idx,
                idx <= 2,
                seen == exists|k: int| 0 <= k < j && out[k] == sq,
            decreases idx - j,
        {
            if out[j] == sq {
                seen = true;
            }
            j += 1;
        }
        let ghost out0 = out@;
        let ghost idx0 = idx;
        if !seen {
            if idx < 2 {
                out[idx] = sq;
                idx += 1;
            }
        }
        proof {
            if !seen {
                assert(idx <= 2);
            }
            assert forall|jj: int| 0 <= jj < i + 1 implies appears(out@, idx as int, #[trigger] residue_square_mod30(jj)) by {
                if jj == i as int {
                    if seen {
                        let k = choose|k: int| 0 <= k < idx && out[k] == sq;
                        assert(out@[k] == sq);
                    } else {
                        assert(out@[idx - 1] == sq);
                    }
                } else {
                    assert(appears(out0, idx0 as int, residue_square_mod30(jj)));
                    let k = choose|k: int| 0 <= k < idx0 && out0[k] == residue_square_mod30(jj);
                    assert(out@[k] == out0[k]);
                }
            }
        }
        i += 1;
    }
    proof {
        lemma_residue_squares(0);
        lemma_residue_squares(1);
        assert(residue_square_mod30(0) == 1);
        assert(residue_square_mod30(1) == 19);
        assert(appears(out@, idx as int, residue_square_mod30(0)));
        let k0 = choose|k: int| 0 <= k < idx && out@[k] == residue_square_mod30(0);
        assert(appears(out@, idx as int, residue_square_mod30(1)));
        let k1 = choose|k: int| 0 <= k < idx && out@[k] == residue_square_mod30(1);
        assert(idx == 2);
    }
    // Sort the two values ascending.
    if out[0] > out[1] {
        let t = out[0];
        out[0] = out[1];
        out[1] = t;
    }
    proof {
        assert forall|v: u64| square_mod30_values().contains(v) implies (v == out[0] || v
            == out[1]) by {
            let j = choose|j: int| 0 <= j < 8 && v == residue_square_mod30(j);
            lemma_residue_squares(j);
        }
        assert(square_mod30_values().contains(1u64)) by {
            assert(1u64 == residue_square_mod30(0));
        }
        assert(square_mod30_values().contains(19u64)) by {
            assert(19u64 == residue_square_mod30(1));
        }
        assert(Set::empty().insert(out[0]).insert(out[1]) =~= square_mod30_values());
    }
    out
}

/// The distinct digital roots of `n²` over `U(30)`, ascending.
pub fn compute_square_dr() -> (out: [u64; 3])
    ensures
        out[0] < out[1] < out[2],
        Set::empty().insert(out[0]).insert(out[1]).insert(out[2]) == square_dr_values(),
{
    let mut out = [0u64; 3];
    let mut idx = 0usize;
    let mut i = 0usize;
    while i < U30_CARDINALITY
        invariant
            0 <= i <= 8,
            0 <= idx <= 3,
            forall|k: int| 0 <= k < idx ==> out[k] == 1 || out[k] == 4 || out[k] == 7,
            forall|k1: int, k2: int| 0 <= k1 < k2 < idx ==> out[k1] != out[k2],
            forall|j: int| 0 <= j < i ==> appears(out@, idx as int, #[trigger] residue_square_dr(j)),
        decreases 8 - i,
    {
        proof {
            lemma_residue_squares(i as int);
        }
        let sq = RESIDUES[i] * RESIDUES[i];
        let dr = digital_root(sq);
        // Dedup.
        let mut seen = false;
        let mut j = 0usize;
        while j < idx
            invariant
                0 <= j <= idx,
                idx <= 3,
                seen == exists|k: int| 0 <= k < j && out[k] == dr,
            decreases idx - j,
        {
            if out[j] == dr {
                seen = true;
            }
            j += 1;
        }
        let ghost out0 = out@;
        let ghost idx0 = idx;
        if !seen {
            if idx < 3 {
                out[idx] = dr;
                idx += 1;
            }
        }
        proof {
            if !seen && idx == 3 {
                // Three distinct values among {1, 4, 7} already cover dr.
                assert(out[0] == dr || out[1] == dr || out[2] == dr);
            }
            assert forall|jj: int| 0 <= jj < i + 1 implies appears(out@, idx as int, #[trigger] residue_square_dr(jj)) by {
                if jj == i as int {
                    if seen {
                        let k = choose|k: int| 0 <= k < idx && out[k] == dr;
                        assert(out@[k] == dr);
                    } else {
                        assert(out@[idx - 1] == dr);
                    }
                } else {
                    assert(appears(out0, idx0 as int, residue_square_dr(jj)));
                    let k = choose|k: int| 0 <= k < idx0 && out0[k] == residue_square_dr(jj);
                    assert(out@[k] == out0[k]);
                }
            }
        }
        i += 1;
    }
    proof {
        lemma_residue_squares(0);
        lemma_residue_squares(1);
        lemma_residue_squares(3);
        assert(residue_square_dr(0) == 1);
        assert(residue_square_dr(1) == 4);
        assert(residue_square_dr(3) == 7);
        assert(appears(out@, idx as int, residue_square_dr(0)));
        let k0 = choose|k: int| 0 <= k < idx && out@[k] == residue_square_dr(0);
        assert(appears(out@, idx as int, residue_square_dr(1)));
        let k1 = choose|k: int| 0 <= k < idx && out@[k] == residue_square_dr(1);
        assert(appears(out@, idx as int, residue_square_dr(3)));
        let k3 = choose|k: int| 0 <= k < idx && out@[k] == residue_square_dr(3);
        assert(idx == 3);
    }
    let ghost members = Set::empty().insert(out[0]).insert(out[1]).insert(out[2]);
    // Sort ascending.
    let mut a = 0usize;
    while a < 3
        invariant
            0 <= a <= 3,
            Set::empty().insert(out[0]).insert(out[1]).insert(out[2]) == members,
            out[0] != out[1] && out[0] != out[2] && out[1] != out[2],
            forall|x: int, y: int| 0 <= x < a && x < y < 3 ==> out[x] < out[y],
        decreases 3 - a,
    {
        let mut b = a + 1;
        while b < 3
            invariant
                0 <= a < 3,
                a + 1 <= b <= 3,
                Set::empty().insert(out[0]).insert(out[1]).insert(out[2]) == members,
                out[0] != out[1] && out[0] != out[2] && out[1] != out[2],
                forall|x: int, y: int| 0 <= x < a && x < y < 3 ==> out[x] < out[y],
                forall|y: int| a < y < b ==> out[a as int] < out[y],
            decreases 3 - b,
        {
            if out[a] > out[b] {
                let t = out[a];
                out[a] = out[b];
                out[b] = t;
                proof {
                    assert(Set::empty().insert(out[0]).insert(out[1]).insert(out[2]) =~= members);
                }
            }
            b += 1;
        }
        a += 1;
    }
    proof {
        assert forall|v: u64| square_dr_values().contains(v) implies members.contains(v) by {
            let j = choose|j: int|
                0 <= j < 8 && v == residue_square_dr(j);
            lemma_residue_squares(j);
        }
        assert(square_dr_values().contains(1u64)) by {
            assert(1u64 == residue_square_dr(0));
        }
        assert(square_dr_values().contains(4u64)) by {
            assert(4u64 == residue_square_dr(1));
        }
        assert(square_dr_values().contains(7u64)) by {
            assert(7u64 == residue_square_dr(3));
        }
        assert(members =~= square_dr_values());
    }
    out
}

/// Predicate: `n mod 30 ∈ {1, 19}`. A necessary condition for `n` to be
/// the square of a `U(30)` member.
pub fn is_square_residue_mod30(n: u64) -> (b: bool)
    ensures
        b == (n % 30 == 1 || n % 30 == 19),
{
    let r = n % MODULUS_U;
    r == 1 || r == 19
}

/// Predicate: `dr(n) ∈ {1, 4, 7}`. A necessary condition for `n` to be the
/// square of a `U(30)` member.
pub fn has_square_dr(n: u64) -> (b: bool)
    ensures
        b == (spec_dr(n as nat) == 1 || spec_dr(n as nat) == 4 || spec_dr(n as nat) == 7),
{
    let d = digital_root(n);
    d == 1 || d == 4 || d == 7
}

/// **Squares of numbers coprime to 30.** For every `n` coprime to 30,
/// `n² mod 30 ∈ {1, 19}` and `dr(n²) ∈ {1, 4, 7}`; in particular this holds
/// for every prime `p > 5`.
pub proof fn lemma_coprime_square_residues(n: int)
    requires
        n >= 1,
        coprime30(n),
    ensures
        (n * n) % 30 == 1 || (n * n) % 30 == 19,
        spec_dr((n * n) as nat) == 1 || spec_dr((n * n) as nat) == 4 || spec_dr((n * n) as nat)
            == 7,
{
    lemma_square_mod30(n);
    lemma_coprime30_mod(n);
    let r = n % 30;
    assert(0 <= r < 30);
    assert(n * n >= 1) by (nonlinear_arith)
        requires
            n >= 1,
    ;
    assert((n * n) % 9 == ((n % 9) * (n % 9)) % 9) by {
        lemma_mul_mod_noop_general(n, n, 9);
    }
    assert(n % 3 != 0);
    assert((n % 9) % 3 == n % 3) by {
        lemma_mod_mod(n, 3, 3);
    }
    let t = n % 9;
    lemma_small_square_table9(t);
    assert((r * r) % 30 == 1 || (r * r) % 30 == 19) by {
        lemma_small_square_table(r);
    }
}

/// `r² mod 30 ∈ {1, 19}` for each residue `r < 30` coprime to 30.
proof fn lemma_small_square_table(r: int)
    requires
        0 <= r < 30,
        coprime30(r),
    ensures
        (r * r) % 30 == 1 || (r * r) % 30 == 19,
{
    if r == 1 {
        lemma_square_of(r, 1);
        assert((r * r) % 30 == 1);
    } else if r == 7 {
        lemma_square_of(r, 7);
        assert((r * r) % 30 == 19);
    } else if r == 11 {
        lemma_square_of(r, 11);
        assert((r * r) % 30 == 1);
    } else if r == 13 {
        lemma_square_of(r, 13);
        assert((r * r) % 30 == 19);
    } else if r == 17 {
        lemma_square_of(r, 17);
        assert((r * r) % 30 == 19);
    } else if r == 19 {
        lemma_square_of(r, 19);
        assert((r * r) % 30 == 1);
    } else if r == 23 {
        lemma_square_of(r, 23);
        assert((r * r) % 30 == 19);
    } else {
        assert(r == 29);
        lemma_square_of(r, 29);
        assert((r * r) % 30 == 1);
    }
}

/// `t² mod 9 ∈ {1, 4, 7}` for each `t < 9` not divisible by 3.
proof fn lemma_small_square_table9(t: int)
    requires
        0 <= t < 9,
        t % 3 != 0,
    ensures
        (t * t) % 9 == 1 || (t * t) % 9 == 4 || (t * t) % 9 == 7,
{
    if t == 1 {
        lemma_square_of(t, 1);
        assert((t * t) % 9 == 1);
    } else if t == 2 {
        lemma_square_of(t, 2);
        assert((t * t) % 9 == 4);
    } else if t == 4 {
        lemma_square_of(t, 4);
        assert((t * t) % 9 == 7);
    } else if t == 5 {
        lemma_square_of(t, 5);
        assert((t * t) % 9 == 7);
    } else if t == 7 {
        lemma_square_of(t, 7);
        assert((t * t) % 9 == 4);
    } else {
        assert(t == 8);
        lemma_square_of(t, 8);
        assert((t * t) % 9 == 1);
    }
}

} // verus!
