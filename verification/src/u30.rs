//! `U(30)` — the eight residues coprime to 30 — and the ascending
//! enumeration of the positive integers coprime to 30.
use crate::arithmetic::spec_gcd;
use vstd::prelude::*;

verus! {

/// The eight residues of `U(30)`, ascending.
pub const RESIDUES: [u64; 8] = [1, 7, 11, 13, 17, 19, 23, 29];

/// The residues of `U(30)` as published in the reference tables.
pub const GARY_STATED_RESIDUES: [u64; 8] = [1, 7, 11, 13, 17, 19, 23, 29];

/// Cardinality of `U(30)`.
pub const U30_CARDINALITY: usize = 8;

/// `x` has no prime factor among `2, 3, 5`.
pub open spec fn coprime30(x: int) -> bool {
    x % 2 != 0 && x % 3 != 0 && x % 5 != 0
}

/// Position of `r` within [`RESIDUES`], or `-1` if `r` is not there.
pub open spec fn residue_pos(r: int) -> int {
    if r == 1 {
        0
    } else if r == 7 {
        1
    } else if r == 11 {
        2
    } else if r == 13 {
        3
    } else if r == 17 {
        4
    } else if r == 19 {
        5
    } else if r == 23 {
        6
    } else if r == 29 {
        7
    } else {
        -1
    }
}

/// The `i`-th (0-indexed) positive integer coprime to 30.
pub open spec fn u30_value(i: int) -> int {
    (i / 8) * 30 + RESIDUES[i % 8] as int
}

/// The 0-indexed position of a positive integer coprime to 30.
pub open spec fn u30_index(v: int) -> int {
    (v / 30) * 8 + residue_pos(v % 30)
}

/// `gcd(x, 30) = 1` exactly when `x` has no factor `2`, `3` or `5`.
pub proof fn lemma_gcd30(x: nat)
    ensures
        (spec_gcd(x, 30) == 1) == coprime30(x as int),
{
    let r = x % 30;
    assert(spec_gcd(x, 30) == spec_gcd(30, r));
    assert(x % 2 == r % 2 && x % 3 == r % 3 && x % 5 == r % 5) by {
        vstd::arithmetic::div_mod::lemma_fundamental_div_mod(x as int, 30);
    }
    lemma_gcd30_small(r);
}

/// `gcd(30, r)` for each residue `r < 30`.
proof fn lemma_gcd30_small(r: nat)
    requires
        r < 30,
    ensures
        (spec_gcd(30, r) == 1) == coprime30(r as int),
{
    if r == 0 {
        assert(spec_gcd(30, 0) == 30);
    } else if r == 1 {
        assert(spec_gcd(1, 0) == 1);
        assert(spec_gcd(30, 1) == 1);
    } else if r == 2 {
        assert(spec_gcd(2, 0) == 2);
        assert(spec_gcd(30, 2) == 2);
    } else if r == 3 {
        assert(spec_gcd(3, 0) == 3);
        assert(spec_gcd(30, 3) == 3);
    } else if r == 4 {
        assert(spec_gcd(2, 0) == 2);
        assert(spec_gcd(4, 2) == 2);
        assert(spec_gcd(30, 4) == 2);
    } else if r == 5 {
        assert(spec_gcd(5, 0) == 5);
        assert(spec_gcd(30, 5) == 5);
    } else if r == 6 {
        assert(spec_gcd(6, 0) == 6);
        assert(spec_gcd(30, 6) == 6);
    } else if r == 7 {
        assert(spec_gcd(1, 0) == 1);
        assert(spec_gcd(2, 1) == 1);
        assert(spec_gcd(7, 2) == 1);
        assert(spec_gcd(30, 7) == 1);
    } else if r == 8 {
        assert(spec_gcd(2, 0) == 2);
        assert(spec_gcd(6, 2) == 2);
        assert(spec_gcd(8, 6) == 2);
        assert(spec_gcd(30, 8) == 2);
    } else if r == 9 {
        assert(spec_gcd(3, 0) == 3);
        assert(spec_gcd(9, 3) == 3);
        assert(spec_gcd(30, 9) == 3);
    } else if r == 10 {
        assert(spec_gcd(10, 0) == 10);
        assert(spec_gcd(30, 10) == 10);
    } else if r == 11 {
        assert(spec_gcd(1, 0) == 1);
        assert(spec_gcd(2, 1) == 1);
        assert(spec_gcd(3, 2) == 1);
        assert(spec_gcd(8, 3) == 1);
        assert(spec_gcd(11, 8) == 1);
        assert(spec_gcd(30, 11) == 1);
    } else if r == 12 {
        assert(spec_gcd(6, 0) == 6);
        assert(spec_gcd(12, 6) == 6);
        assert(spec_gcd(30, 12) == 6);
    } else if r == 13 {
        assert(spec_gcd(1, 0) == 1);
        assert(spec_gcd(4, 1) == 1);
        assert(spec_gcd(13, 4) == 1);
        assert(spec_gcd(30, 13) == 1);
    } else if r == 14 {
        assert(spec_gcd(2, 0) == 2);
        assert(spec_gcd(14, 2) == 2);
        assert(spec_gcd(30, 14) == 2);
    } else if r == 15 {
        assert(spec_gcd(15, 0) == 15);
        assert(spec_gcd(30, 15) == 15);
    } else if r == 16 {
        assert(spec_gcd(2, 0) == 2);
        assert(spec_gcd(14, 2) == 2);
        assert(spec_gcd(16, 14) == 2);
        assert(spec_gcd(30, 16) == 2);
    } else if r == 17 {
        assert(spec_gcd(1, 0) == 1);
        assert(spec_gcd(4, 1) == 1);
        assert(spec_gcd(13, 4) == 1);
        assert(spec_gcd(17, 13) == 1);
        assert(spec_gcd(30, 17) == 1);
    } else if r == 18 {
        assert(spec_gcd(6, 0) == 6);
        assert(spec_gcd(12, 6) == 6);
        assert(spec_gcd(18, 12) == 6);
        assert(spec_gcd(30, 18) == 6);
    } else if r == 19 {
        assert(spec_gcd(1, 0) == 1);
        assert(spec_gcd(2, 1) == 1);
        assert(spec_gcd(3, 2) == 1);
        assert(spec_gcd(8, 3) == 1);
        assert(spec_gcd(11, 8) == 1);
        assert(spec_gcd(19, 11) == 1);
        assert(spec_gcd(30, 19) == 1);
    } else if r == 20 {
        assert(spec_gcd(10, 0) == 10);
        assert(spec_gcd(20, 10) == 10);
        assert(spec_gcd(30, 20) == 10);
    } else if r == 21 {
        assert(spec_gcd(3, 0) == 3);
        assert(spec_gcd(9, 3) == 3);
        assert(spec_gcd(21, 9) == 3);
        assert(spec_gcd(30, 21) == 3);
    } else if r == 22 {
        assert(spec_gcd(2, 0) == 2);
        assert(spec_gcd(6, 2) == 2);
        assert(spec_gcd(8, 6) == 2);
        assert(spec_gcd(22, 8) == 2);
        assert(spec_gcd(30, 22) == 2);
    } else if r == 23 {
        assert(spec_gcd(1, 0) == 1);
        assert(spec_gcd(2, 1) == 1);
        assert(spec_gcd(7, 2) == 1);
        assert(spec_gcd(23, 7) == 1);
        assert(spec_gcd(30, 23) == 1);
    } else if r == 24 {
        assert(spec_gcd(6, 0) == 6);
        assert(spec_gcd(24, 6) == 6);
        assert(spec_gcd(30, 24) == 6);
    } else if r == 25 {
        assert(spec_gcd(5, 0) == 5);
        assert(spec_gcd(25, 5) == 5);
        assert(spec_gcd(30, 25) == 5);
    } else if r == 26 {
        assert(spec_gcd(2, 0) == 2);
        assert(spec_gcd(4, 2) == 2);
        assert(spec_gcd(26, 4) == 2);
        assert(spec_gcd(30, 26) == 2);
    } else if r == 27 {
        assert(spec_gcd(3, 0) == 3);
        assert(spec_gcd(27, 3) == 3);
        assert(spec_gcd(30, 27) == 3);
    } else if r == 28 {
        assert(spec_gcd(2, 0) == 2);
        assert(spec_gcd(28, 2) == 2);
        assert(spec_gcd(30, 28) == 2);
    } else if r == 29 {
        assert(spec_gcd(1, 0) == 1);
        assert(spec_gcd(29, 1) == 1);
        assert(spec_gcd(30, 29) == 1);
    }
}

/// A residue below 30 is coprime to 30 exactly when it is listed in
/// [`RESIDUES`], at position `residue_pos`.
pub proof fn lemma_residue_pos(r: int)
    requires
        0 <= r < 30,
    ensures
        coprime30(r) == (residue_pos(r) >= 0),
        residue_pos(r) >= 0 ==> residue_pos(r) < 8 && RESIDUES[residue_pos(r)] as int == r,
        residue_pos(r) < 8,
{
}

/// Each listed residue sits at its own position.
pub proof fn lemma_pos_of_residue(j: int)
    requires
        0 <= j < 8,
    ensures
        residue_pos(RESIDUES[j] as int) == j,
        coprime30(RESIDUES[j] as int),
{
}

/// `x mod 30` keeps the factors `2`, `3`, `5`.
pub proof fn lemma_coprime30_mod(x: int)
    requires
        x >= 0,
    ensures
        coprime30(x) == coprime30(x % 30),
{
    vstd::arithmetic::div_mod::lemma_fundamental_div_mod(x, 30);
}

/// Facts about the enumeration `u30_value`: its members are coprime to 30,
/// it is strictly increasing, and nothing coprime to 30 lies strictly
/// between two consecutive members.
pub proof fn lemma_u30_value(i: int)
    requires
        i >= 0,
    ensures
        coprime30(u30_value(i)),
        u30_value(i) >= 1,
        u30_value(i) < u30_value(i + 1),
        u30_value(i + 1) - u30_value(i) <= 6,
        u30_value(i) >= 30 * (i / 8) + 1,
        u30_value(i) <= 30 * (i / 8) + 29,
        u30_index(u30_value(i)) == i,
        forall|k: int| u30_value(i) < k < u30_value(i + 1) ==> !coprime30(k),
{
    let b = i / 8;
    let j = i % 8;
    let v = u30_value(i);
    assert(v == b * 30 + RESIDUES[j] as int);
    assert(v % 30 == RESIDUES[j] as int && v / 30 == b) by {
        vstd::arithmetic::div_mod::lemma_fundamental_div_mod_converse(
            v,
            30,
            b,
            RESIDUES[j] as int,
        );
    }
    lemma_pos_of_residue(j);
    lemma_coprime30_mod(v);
    if j < 7 {
        assert((i + 1) / 8 == b && (i + 1) % 8 == j + 1);
    } else {
        assert((i + 1) / 8 == b + 1 && (i + 1) % 8 == 0);
    }
    assert forall|k: int| u30_value(i) < k < u30_value(i + 1) implies !coprime30(k) by {
        let r = k - b * 30;
        assert(k % 2 == r % 2 && k % 3 == r % 3 && k % 5 == r % 5) by {
            vstd::arithmetic::div_mod::lemma_mod_multiples_vanish(b, r, 2);
            vstd::arithmetic::div_mod::lemma_mod_multiples_vanish(b * 15, r, 2);
            vstd::arithmetic::div_mod::lemma_mod_multiples_vanish(b * 10, r, 3);
            vstd::arithmetic::div_mod::lemma_mod_multiples_vanish(b * 6, r, 5);
        }
    }
}

/// Every positive integer coprime to 30 is enumerated, at position
/// `u30_index`.
pub proof fn lemma_u30_index(v: int)
    requires
        v >= 1,
        coprime30(v),
    ensures
        u30_index(v) >= 0,
        u30_value(u30_index(v)) == v,
{
    let b = v / 30;
    let r = v % 30;
    lemma_coprime30_mod(v);
    lemma_residue_pos(r);
    let i = u30_index(v);
    assert(i / 8 == b && i % 8 == residue_pos(r)) by {
        vstd::arithmetic::div_mod::lemma_fundamental_div_mod_converse(
            i,
            8,
            b,
            residue_pos(r),
        );
    }
    vstd::arithmetic::div_mod::lemma_fundamental_div_mod(v, 30);
}

} // verus!

verus! {

/// Filtering a prefix one element further either appends that element or
/// keeps the filtered prefix, and never outgrows the whole filter.
pub proof fn lemma_filter_prefix(s: Seq<u64>, p: spec_fn(u64) -> bool, i: int)
    requires
        0 <= i < s.len(),
    ensures
        s.take(i + 1).filter(p) == (if p(s[i]) {
            s.take(i).filter(p).push(s[i])
        } else {
            s.take(i).filter(p)
        }),
        s.take(i + 1).filter(p).len() <= s.filter(p).len(),
{
    reveal(Seq::filter);
    assert(s.take(i + 1).drop_last() =~= s.take(i));
    assert(s =~= s.take(i + 1) + s.skip(i + 1));
    Seq::filter_distributes_over_add(s.take(i + 1), s.skip(i + 1), p);
}

/// Index of `n mod 30` arithmetic: the square of `n` modulo 30 depends only
/// on `n mod 30`.
pub proof fn lemma_square_mod30(n: int)
    requires
        n >= 0,
    ensures
        (n * n) % 30 == ((n % 30) * (n % 30)) % 30,
{
    vstd::arithmetic::div_mod::lemma_mul_mod_noop_general(n, n, 30);
}

} // verus!
