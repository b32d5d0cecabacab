//! The 96-row table of `R(360)`: each `n` with its digital root `dr(n)`
//! and the digital root of its Fibonacci number `dr(F_n)`.
use crate::arithmetic::gcd;
use crate::digital_root::{dr, spec_dr};
use crate::fibonacci::{dr_fib, spec_fib};
use crate::index_to_residue::lemma_index_is_count;
use crate::parameters::{MODULUS_R, MODULUS_U};
use crate::r360::{lemma_elements, ELEMENTS};
use crate::sieve::{coprime30_count, lemma_coprime30_count, residues_upto};
use crate::u30::{lemma_gcd30, lemma_u30_index};
use vstd::prelude::*;

verus! {

/// The table as transcribed from the reference document.
pub const FIXED_PDF_VERIFICATION: [(u32, u8, u8); 96] = [
    (1, 1, 1),
    (7, 7, 4),
    (11, 2, 8),
    (13, 4, 8),
    (17, 8, 4),
    (19, 1, 5),
    (23, 5, 1),
    (29, 2, 5),
    (31, 4, 4),
    (37, 1, 8),
    (41, 5, 4),
    (43, 7, 5),
    (47, 2, 1),
    (49, 4, 1),
    (53, 8, 5),
    (59, 5, 8),
    (61, 7, 8),
    (67, 4, 5),
    (71, 8, 1),
    (73, 1, 1),
    (77, 5, 5),
    (79, 7, 4),
    (83, 2, 8),
    (89, 8, 4),
    (91, 1, 5),
    (97, 7, 1),
    (101, 2, 5),
    (103, 4, 4),
    (107, 8, 8),
    (109, 1, 8),
    (113, 5, 4),
    (119, 2, 1),
    (121, 4, 1),
    (127, 1, 4),
    (131, 5, 8),
    (133, 7, 8),
    (137, 2, 4),
    (139, 4, 5),
    (143, 8, 1),
    (149, 5, 5),
    (151, 7, 4),
    (157, 4, 8),
    (161, 8, 4),
    (163, 1, 5),
    (167, 5, 1),
    (169, 7, 1),
    (173, 2, 5),
    (179, 8, 8),
    (181, 1, 8),
    (187, 7, 5),
    (191, 2, 1),
    (193, 4, 1),
    (197, 8, 5),
    (199, 1, 4),
    (203, 5, 8),
    (209, 2, 4),
    (211, 4, 5),
    (217, 1, 1),
    (221, 5, 5),
    (223, 7, 4),
    (227, 2, 8),
    (229, 4, 8),
    (233, 8, 4),
    (239, 5, 1),
    (241, 7, 1),
    (247, 4, 4),
    (251, 8, 8),
    (253, 1, 8),
    (257, 5, 4),
    (259, 7, 5),
    (263, 2, 1),
    (269, 8, 5),
    (271, 1, 4),
    (277, 7, 8),
    (281, 2, 4),
    (283, 4, 5),
    (287, 8, 1),
    (289, 1, 1),
    (293, 5, 5),
    (299, 2, 8),
    (301, 4, 8),
    (307, 1, 5),
    (311, 5, 1),
    (313, 7, 1),
    (317, 2, 5),
    (319, 4, 4),
    (323, 8, 8),
    (329, 5, 4),
    (331, 7, 5),
    (337, 4, 1),
    (341, 8, 5),
    (343, 1, 4),
    (347, 5, 8),
    (349, 7, 8),
    (353, 2, 4),
    (359, 8, 1),
];

/// `Σ dr(n)` over the 96 rows.
pub const SUM_DR: u32 = 432;

/// `Σ dr(F_n)` over the 96 rows.
pub const SUM_FIBO_DR: u32 = 432;

/// The stated total of the `dr(n)` column.
pub const GARY_STATED_TOTAL_DR: u32 = 432;

/// The stated total of the `dr(F_n)` column.
pub const GARY_STATED_TOTAL_FIBO_DR: u32 = 432;

/// Row `k`: `(n, dr(n), dr(F_n))` for the `k`-th member `n` of `R(360)`.
pub open spec fn row_at(k: int) -> (u32, u8, u8) {
    let n = ELEMENTS[k];
    (n, spec_dr(n as nat) as u8, spec_dr(spec_fib(n as nat)) as u8)
}

/// `Σ_{k < len} dr(n_k)`.
pub open spec fn dr_column_sum(len: nat) -> nat
    decreases len,
{
    if len == 0 {
        0
    } else {
        dr_column_sum((len - 1) as nat) + spec_dr(ELEMENTS[len - 1] as nat)
    }
}

/// `Σ_{k < len} dr(F_{n_k})`.
pub open spec fn fibo_dr_column_sum(len: nat) -> nat
    decreases len,
{
    if len == 0 {
        0
    } else {
        fibo_dr_column_sum((len - 1) as nat) + spec_dr(spec_fib(ELEMENTS[len - 1] as nat))
    }
}

/// At most 96 integers in `[1, n]`, `n ≤ 360`, are coprime to 30.
proof fn lemma_count_below_360(n: nat)
    requires
        n <= 360,
    ensures
        coprime30_count(n) <= 96,
        n == 360 ==> coprime30_count(n) == 96,
{
    lemma_coprime30_count(n);
    reveal_with_fuel(residues_upto, 9);
    assert(residues_upto((n % 30) as int, 8) <= 8);
}

/// The 96 rows, by enumerating `[1, MODULUS_R]` and keeping the integers
/// coprime to 30.
pub fn compute_rows() -> (out: [(u32, u8, u8); 96])
    ensures
        forall|k: int| 0 <= k < 96 ==> #[trigger] out[k] == row_at(k),
{
    let mut out = [(0u32, 0u8, 0u8); 96];
    let mut idx: usize = 0;
    let mut n: u64 = 1;
    proof {
        lemma_elements();
    }
    while n <= MODULUS_R
        invariant
            1 <= n <= 361,
            idx == coprime30_count((n - 1) as nat),
            idx <= 96,
            forall|k: int| 0 <= k < 96 ==> #[trigger] ELEMENTS[k] as int == crate::u30::u30_value(k),
            forall|k: int| 0 <= k < idx ==> #[trigger] out[k] == row_at(k),
        decreases 361 - n,
    {
        proof {
            lemma_gcd30(n as nat);
            assert(coprime30_count(n as nat) == coprime30_count((n - 1) as nat) + if crate::u30::coprime30(
                n as int,
            ) {
                1nat
            } else {
                0nat
            });
        }
        if gcd(n, MODULUS_U) == 1 {
            proof {
                lemma_index_is_count(n as int);
                lemma_u30_index(n as int);
                lemma_count_below_360(n as nat);
            }
            let n_u32 = n as u32;
            out[idx] = (n_u32, dr(n), dr_fib(n));
            idx = idx + 1;
        }
        n = n + 1;
    }
    proof {
        lemma_count_below_360(360);
    }
    out
}

/// `Σ dr(n)` over the 96 rows.
pub fn sum_dr_column() -> (s: u32)
    ensures
        s == dr_column_sum(96),
{
    let rows = compute_rows();
    let mut s: u32 = 0;
    let mut i: usize = 0;
    while i < 96
        invariant
            i <= 96,
            forall|k: int| 0 <= k < 96 ==> #[trigger] rows[k] == row_at(k),
            s == dr_column_sum(i as nat),
            s <= 9 * i,
        decreases 96 - i,
    {
        s = s + rows[i].1 as u32;
        i = i + 1;
    }
    s
}

/// `Σ dr(F_n)` over the 96 rows.
pub fn sum_fibo_dr_column() -> (s: u32)
    ensures
        s == fibo_dr_column_sum(96),
{
    let rows = compute_rows();
    let mut s: u32 = 0;
    let mut i: usize = 0;
    while i < 96
        invariant
            i <= 96,
            forall|k: int| 0 <= k < 96 ==> #[trigger] rows[k] == row_at(k),
            s == fibo_dr_column_sum(i as nat),
            s <= 9 * i,
        decreases 96 - i,
    {
        s = s + rows[i].2 as u32;
        i = i + 1;
    }
    s
}

} // verus!
