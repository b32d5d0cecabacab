//! `R(360)`: the 96 integers in `[1, 360]` coprime to 30 (equivalently,
//! to 360), ascending.
use crate::u30::{coprime30, lemma_u30_index, lemma_u30_value, u30_index, u30_value, RESIDUES};
use vstd::prelude::*;

verus! {

/// The 96 members of `R(360)`, ascending.
pub const ELEMENTS: [u32; 96] = [
    1, 7, 11, 13, 17, 19, 23, 29, 31, 37, 41, 43,
    47, 49, 53, 59, 61, 67, 71, 73, 77, 79, 83, 89,
    91, 97, 101, 103, 107, 109, 113, 119, 121, 127, 131, 133,
    137, 139, 143, 149, 151, 157, 161, 163, 167, 169, 173, 179,
    181, 187, 191, 193, 197, 199, 203, 209, 211, 217, 221, 223,
    227, 229, 233, 239, 241, 247, 251, 253, 257, 259, 263, 269,
    271, 277, 281, 283, 287, 289, 293, 299, 301, 307, 311, 313,
    317, 319, 323, 329, 331, 337, 341, 343, 347, 349, 353, 359,
];

/// `ELEMENTS` lists the first 96 positive integers coprime to 30.
pub proof fn lemma_elements()
    ensures
        forall|i: int| 0 <= i < 96 ==> #[trigger] ELEMENTS[i] as int == u30_value(i),
{
    assert forall|i: int| 0 <= i < 96 implies #[trigger] ELEMENTS[i] as int == u30_value(i) by {
        assert(RESIDUES[0] == 1 && RESIDUES[1] == 7 && RESIDUES[2] == 11 && RESIDUES[3] == 13);
        assert(RESIDUES[4] == 17 && RESIDUES[5] == 19 && RESIDUES[6] == 23 && RESIDUES[7] == 29);
    }
}

/// `n` is a member of `R(360)`.
pub open spec fn in_r360(n: int) -> bool {
    1 <= n <= 360 && coprime30(n)
}

/// Membership in `R(360)` is membership in [`ELEMENTS`], at position
/// `u30_index(n)`.
pub proof fn lemma_r360_membership(n: int)
    ensures
        in_r360(n) ==> 0 <= u30_index(n) < 96 && ELEMENTS[u30_index(n)] as int == n,
        (exists|i: int| 0 <= i < 96 && ELEMENTS[i] as int == n) ==> in_r360(n),
{
    lemma_elements();
    if in_r360(n) {
        lemma_u30_index(n);
        let i = u30_index(n);
        if i >= 96 {
            lemma_u30_value(i);
        }
    }
    if exists|i: int| 0 <= i < 96 && ELEMENTS[i] as int == n {
        let i = choose|i: int| 0 <= i < 96 && ELEMENTS[i] as int == n;
        lemma_u30_value(i);
        if i < 95 {
            lemma_u30_value(95);
            lemma_u30_increasing(i, 95);
        }
    }
}

/// Splits a member `n` of `R(360)` as `n = 30·k + u`, with `u ∈ U(30)`
/// its residue and `k ∈ Z/12` its layer; `None` outside `R(360)`.
pub fn decompose(n: u32) -> (r: Option<(u32, u32)>)
    ensures
        r is Some <==> in_r360(n as int),
        r matches Some((u, k)) ==> u as int == n % 30 && k as int == n / 30,
{
    if 1 <= n && n <= 360 && n % 2 != 0 && n % 3 != 0 && n % 5 != 0 {
        Some((n % 30, n / 30))
    } else {
        None
    }
}

/// `u` is a residue of `U(30)`: below 30 and coprime to it.
pub open spec fn is_u30_residue(u: int) -> bool {
    0 <= u < 30 && coprime30(u)
}

/// Rebuilds `30·k + u` from a residue `u ∈ U(30)` and a layer `k < 12`;
/// `None` for any other pair.
pub fn compose(u: u32, k: u32) -> (r: Option<u32>)
    ensures
        r is Some <==> is_u30_residue(u as int) && k < 12,
        r matches Some(n) ==> n as int == 30 * k + u && in_r360(n as int),
{
    if u < 30 && u % 2 != 0 && u % 3 != 0 && u % 5 != 0 && k < 12 {
        let n = 30 * k + u;
        assert(n % 2 == u % 2 && n % 3 == u % 3 && n % 5 == u % 5) by (nonlinear_arith)
            requires
                n == 30 * k + u,
        ;
        Some(n)
    } else {
        None
    }
}

/// `compose` undoes `decompose` on `R(360)`, and `decompose` undoes
/// `compose` on `U(30) × Z/12`.
pub proof fn lemma_split_round_trip(n: int, u: int, k: int)
    ensures
        in_r360(n) ==> is_u30_residue(n % 30) && 0 <= n / 30 < 12 && 30 * (n / 30) + n % 30 == n,
        is_u30_residue(u) && 0 <= k < 12 ==> in_r360(30 * k + u) && (30 * k + u) % 30 == u
            && (30 * k + u) / 30 == k,
{
    if in_r360(n) {
        assert((n % 30) % 2 == n % 2 && (n % 30) % 3 == n % 3 && (n % 30) % 5 == n % 5)
            by (nonlinear_arith)
            requires
                n >= 0,
        ;
    }
    if is_u30_residue(u) && 0 <= k < 12 {
        let m = 30 * k + u;
        assert(m % 2 == u % 2 && m % 3 == u % 3 && m % 5 == u % 5 && m % 30 == u && m / 30 == k)
            by (nonlinear_arith)
            requires
                m == 30 * k + u,
                0 <= u < 30,
                0 <= k,
        ;
    }
}

/// `u30_value` is increasing.
pub proof fn lemma_u30_increasing(i: int, j: int)
    requires
        0 <= i <= j,
    ensures
        u30_value(i) <= u30_value(j),
    decreases j - i,
{
    if i < j {
        lemma_u30_increasing(i, j - 1);
        lemma_u30_value(j - 1);
    }
}

} // verus!
