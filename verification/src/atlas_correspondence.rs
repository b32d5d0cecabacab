//! The vertex correspondence `R(360) ↔ Atlas-96`.
//!
//! An Atlas vertex label is a 6-tuple `(e1, e2, e3, d45, e6, e7)` with
//! binary `e1, e2, e3, e6, e7` and ternary `d45 ∈ {−1, 0, +1}`: 96 labels.
//! In canonical order `d45` cycles fastest, then `e7`, `e6`, `e3`, `e2`
//! and `e1`. The `i`-th member of `R(360)` corresponds to the `i`-th label.
use crate::r360::{in_r360, lemma_elements, lemma_r360_membership, ELEMENTS};
use crate::u30::u30_index;
use vstd::prelude::*;

verus! {

/// An Atlas vertex label.
#[derive(Debug, Clone, Copy, PartialEq, Eq, Structural, Hash)]
pub struct AtlasLabel {
    /// `e1 ∈ {0, 1}`.
    pub e1: u8,
    /// `e2 ∈ {0, 1}`.
    pub e2: u8,
    /// `e3 ∈ {0, 1}`.
    pub e3: u8,
    /// `d45 ∈ {−1, 0, +1}`, the ternary difference `e4 − e5`.
    pub d45: i8,
    /// `e6 ∈ {0, 1}`.
    pub e6: u8,
    /// `e7 ∈ {0, 1}`, flipped by the mirror symmetry.
    pub e7: u8,
}

impl AtlasLabel {
    /// Every coordinate lies in its range.
    pub open spec fn well_formed(self) -> bool {
        &&& self.e1 <= 1
        &&& self.e2 <= 1
        &&& self.e3 <= 1
        &&& self.e6 <= 1
        &&& self.e7 <= 1
        &&& -1 <= self.d45 <= 1
    }

    /// The label with `e7` flipped.
    pub open spec fn mirrored(self) -> AtlasLabel {
        AtlasLabel {
            e1: self.e1,
            e2: self.e2,
            e3: self.e3,
            d45: self.d45,
            e6: self.e6,
            e7: (1 - self.e7) as u8,
        }
    }

    /// Builds a label from coordinates within their ranges.
    pub fn new(e1: u8, e2: u8, e3: u8, d45: i8, e6: u8, e7: u8) -> (l: Self)
        requires
            e1 <= 1,
            e2 <= 1,
            e3 <= 1,
            e6 <= 1,
            e7 <= 1,
            -1 <= d45 <= 1,
        ensures
            l == (AtlasLabel { e1, e2, e3, d45, e6, e7 }),
            l.well_formed(),
    {
        AtlasLabel { e1, e2, e3, d45, e6, e7 }
    }

    /// The mirror symmetry τ: flips `e7`.
    pub fn mirror(self) -> (m: Self)
        requires
            self.e7 <= 1,
        ensures
            m == self.mirrored(),
    {
        AtlasLabel {
            e1: self.e1,
            e2: self.e2,
            e3: self.e3,
            d45: self.d45,
            e6: self.e6,
            e7: 1 - self.e7,
        }
    }
}

/// The label at position `i` of the canonical order.
pub open spec fn label_at(i: int) -> AtlasLabel {
    let q3 = i / 3;
    let q6 = q3 / 2;
    let q12 = q6 / 2;
    let q24 = q12 / 2;
    let q48 = q24 / 2;
    AtlasLabel {
        e1: (q48 % 2) as u8,
        e2: (q24 % 2) as u8,
        e3: (q12 % 2) as u8,
        d45: (i % 3 - 1) as i8,
        e6: (q6 % 2) as u8,
        e7: (q3 % 2) as u8,
    }
}

/// Position of a label in the canonical order.
pub open spec fn atlas_index(l: AtlasLabel) -> int {
    l.e1 * 48 + l.e2 * 24 + l.e3 * 12 + l.e6 * 6 + l.e7 * 3 + l.d45 + 1
}

/// Each of the 96 positions carries a well-formed label, whose position
/// is that position again.
pub proof fn lemma_label_at(i: int)
    requires
        0 <= i < 96,
    ensures
        label_at(i).well_formed(),
        atlas_index(label_at(i)) == i,
{
    let q3 = i / 3;
    let q6 = q3 / 2;
    let q12 = q6 / 2;
    let q24 = q12 / 2;
    let q48 = q24 / 2;
    vstd::arithmetic::div_mod::lemma_fundamental_div_mod(i, 3);
    vstd::arithmetic::div_mod::lemma_fundamental_div_mod(q3, 2);
    vstd::arithmetic::div_mod::lemma_fundamental_div_mod(q6, 2);
    vstd::arithmetic::div_mod::lemma_fundamental_div_mod(q12, 2);
    vstd::arithmetic::div_mod::lemma_fundamental_div_mod(q24, 2);
    vstd::arithmetic::div_mod::lemma_fundamental_div_mod(q48, 2);
}

/// Every well-formed label sits at one of the 96 positions.
pub proof fn lemma_atlas_index(l: AtlasLabel)
    requires
        l.well_formed(),
    ensures
        0 <= atlas_index(l) < 96,
        label_at(atlas_index(l)) == l,
{
    let i = atlas_index(l);
    let q3 = l.e1 * 16 + l.e2 * 8 + l.e3 * 4 + l.e6 * 2 + l.e7;
    let q6 = l.e1 * 8 + l.e2 * 4 + l.e3 * 2 + l.e6;
    let q12 = l.e1 * 4 + l.e2 * 2 + l.e3;
    let q24 = l.e1 * 2 + l.e2;
    let q48 = l.e1 as int;
    vstd::arithmetic::div_mod::lemma_fundamental_div_mod_converse(i, 3, q3, l.d45 + 1);
    vstd::arithmetic::div_mod::lemma_fundamental_div_mod_converse(q3, 2, q6, l.e7 as int);
    vstd::arithmetic::div_mod::lemma_fundamental_div_mod_converse(q6, 2, q12, l.e6 as int);
    vstd::arithmetic::div_mod::lemma_fundamental_div_mod_converse(q12, 2, q24, l.e3 as int);
    vstd::arithmetic::div_mod::lemma_fundamental_div_mod_converse(q24, 2, q48, l.e2 as int);
    vstd::arithmetic::div_mod::lemma_fundamental_div_mod_converse(q48, 2, 0, l.e1 as int);
}

/// The 96 labels in canonical order.
pub fn compute_atlas_labels() -> (out: [AtlasLabel; 96])
    ensures
        forall|i: int| 0 <= i < 96 ==> #[trigger] out[i] == label_at(i),
{
    let seed = AtlasLabel::new(0, 0, 0, -1, 0, 0);
    let mut out = [seed; 96];
    let mut idx: usize = 0;
    let mut e1: u8 = 0;
    while e1 <= 1
        invariant
            e1 <= 2,
            idx == e1 * 48,
            forall|k: int| 0 <= k < idx ==> #[trigger] out[k] == label_at(k),
        decreases 2 - e1,
    {
        let mut e2: u8 = 0;
        while e2 <= 1
            invariant
                e1 <= 1,
                e2 <= 2,
                idx == e1 * 48 + e2 * 24,
                forall|k: int| 0 <= k < idx ==> #[trigger] out[k] == label_at(k),
            decreases 2 - e2,
        {
            let mut e3: u8 = 0;
            while e3 <= 1
                invariant
                    e1 <= 1,
                    e2 <= 1,
                    e3 <= 2,
                    idx == e1 * 48 + e2 * 24 + e3 * 12,
                    forall|k: int| 0 <= k < idx ==> #[trigger] out[k] == label_at(k),
                decreases 2 - e3,
            {
                let mut e6: u8 = 0;
                while e6 <= 1
                    invariant
                        e1 <= 1,
                        e2 <= 1,
                        e3 <= 1,
                        e6 <= 2,
                        idx == e1 * 48 + e2 * 24 + e3 * 12 + e6 * 6,
                        forall|k: int| 0 <= k < idx ==> #[trigger] out[k] == label_at(k),
                    decreases 2 - e6,
                {
                    let mut e7: u8 = 0;
                    while e7 <= 1
                        invariant
                            e1 <= 1,
                            e2 <= 1,
                            e3 <= 1,
                            e6 <= 1,
                            e7 <= 2,
                            idx == e1 * 48 + e2 * 24 + e3 * 12 + e6 * 6 + e7 * 3,
                            forall|k: int| 0 <= k < idx ==> #[trigger] out[k] == label_at(k),
                        decreases 2 - e7,
                    {
                        let mut d45_idx: u8 = 0;
                        while d45_idx <= 2
                            invariant
                                e1 <= 1,
                                e2 <= 1,
                                e3 <= 1,
                                e6 <= 1,
                                e7 <= 1,
                                d45_idx <= 3,
                                idx == e1 * 48 + e2 * 24 + e3 * 12 + e6 * 6 + e7 * 3 + d45_idx,
                                forall|k: int| 0 <= k < idx ==> #[trigger] out[k] == label_at(k),
                            decreases 3 - d45_idx,
                        {
                            let d45: i8 = (d45_idx as i8) - 1;
                            let label = AtlasLabel::new(e1, e2, e3, d45, e6, e7);
                            proof {
                                lemma_atlas_index(label);
                            }
                            out[idx] = label;
                            idx = idx + 1;
                            d45_idx = d45_idx + 1;
                        }
                        e7 = e7 + 1;
                    }
                    e6 = e6 + 1;
                }
                e3 = e3 + 1;
            }
            e2 = e2 + 1;
        }
        e1 = e1 + 1;
    }
    out
}

/// Permutation `R(360)`-index → Atlas index: the identity.
pub const R_TO_ATLAS_INDEX: [usize; 96] = [
    0, 1, 2, 3, 4, 5, 6, 7, 8, 9, 10, 11, 12, 13, 14, 15, 16, 17, 18, 19, 20, 21, 22, 23, 24, 25, 26, 27, 28, 29, 30, 31, 32, 33, 34, 35, 36, 37, 38, 39, 40, 41, 42, 43, 44, 45, 46, 47, 48, 49, 50, 51, 52, 53, 54, 55, 56, 57, 58, 59, 60, 61, 62, 63, 64, 65, 66, 67, 68, 69, 70, 71, 72, 73, 74, 75, 76, 77, 78, 79, 80, 81, 82, 83, 84, 85, 86, 87, 88, 89, 90, 91, 92, 93, 94, 95
];

/// Inverse permutation Atlas index → `R(360)`-index: the identity.
pub const ATLAS_TO_R_INDEX: [usize; 96] = [
    0, 1, 2, 3, 4, 5, 6, 7, 8, 9, 10, 11, 12, 13, 14, 15, 16, 17, 18, 19, 20, 21, 22, 23, 24, 25, 26, 27, 28, 29, 30, 31, 32, 33, 34, 35, 36, 37, 38, 39, 40, 41, 42, 43, 44, 45, 46, 47, 48, 49, 50, 51, 52, 53, 54, 55, 56, 57, 58, 59, 60, 61, 62, 63, 64, 65, 66, 67, 68, 69, 70, 71, 72, 73, 74, 75, 76, 77, 78, 79, 80, 81, 82, 83, 84, 85, 86, 87, 88, 89, 90, 91, 92, 93, 94, 95
];

/// The two index permutations are the identity, hence mutual inverses.
pub proof fn lemma_index_permutations()
    ensures
        forall|i: int| 0 <= i < 96 ==> #[trigger] R_TO_ATLAS_INDEX[i] == i,
        forall|i: int| 0 <= i < 96 ==> #[trigger] ATLAS_TO_R_INDEX[i] == i,
        forall|i: int|
            0 <= i < 96 ==> #[trigger] ATLAS_TO_R_INDEX[R_TO_ATLAS_INDEX[i] as int] == i,
        forall|j: int|
            0 <= j < 96 ==> #[trigger] R_TO_ATLAS_INDEX[ATLAS_TO_R_INDEX[j] as int] == j,
{
}

/// The label of `n ∈ R(360)`; `None` outside `R(360)`.
pub open spec fn spec_n_to_atlas_label(n: int) -> Option<AtlasLabel> {
    if in_r360(n) {
        Some(label_at(u30_index(n)))
    } else {
        None
    }
}

/// The member of `R(360)` of a well-formed label; `None` otherwise.
pub open spec fn spec_atlas_label_to_n(l: AtlasLabel) -> Option<u32> {
    if l.well_formed() {
        Some(ELEMENTS[atlas_index(l)])
    } else {
        None
    }
}

/// Position of `n` in [`ELEMENTS`], if present.
fn find_r_index(n: u32) -> (r: Option<usize>)
    ensures
        r matches Some(i) ==> i < 96 && ELEMENTS[i as int] == n,
        r is None ==> forall|k: int| 0 <= k < 96 ==> ELEMENTS[k] != n,
{
    let mut i: usize = 0;
    while i < 96
        invariant
            i <= 96,
            forall|k: int| 0 <= k < i ==> ELEMENTS[k] != n,
        decreases 96 - i,
    {
        if ELEMENTS[i] == n {
            return Some(i);
        }
        i = i + 1;
    }
    None
}

/// Position of `label` in the canonical order, if it is one of the 96.
fn find_atlas_index(label: AtlasLabel) -> (r: Option<usize>)
    ensures
        r matches Some(i) ==> i < 96 && label_at(i as int) == label,
        r is None ==> forall|k: int| 0 <= k < 96 ==> label_at(k) != label,
{
    let labels = compute_atlas_labels();
    let mut i: usize = 0;
    while i < 96
        invariant
            i <= 96,
            forall|k: int| 0 <= k < 96 ==> #[trigger] labels[k] == label_at(k),
            forall|k: int| 0 <= k < i ==> label_at(k) != label,
        decreases 96 - i,
    {
        let l = labels[i];
        if l.e1 == label.e1 && l.e2 == label.e2 && l.e3 == label.e3 && l.d45 == label.d45 && l.e6
            == label.e6 && l.e7 == label.e7 {
            return Some(i);
        }
        i = i + 1;
    }
    None
}

/// Forward map: `n ∈ R(360)` to its Atlas label; `None` outside `R(360)`.
pub fn n_to_atlas_label(n: u32) -> (r: Option<AtlasLabel>)
    ensures
        r == spec_n_to_atlas_label(n as int),
{
    proof {
        lemma_r360_membership(n as int);
        lemma_index_permutations();
    }
    let r_idx = match find_r_index(n) {
        Some(i) => i,
        None => {
            return None;
        },
    };
    proof {
        lemma_elements();
        crate::u30::lemma_u30_value(r_idx as int);
    }
    let atlas_idx = R_TO_ATLAS_INDEX[r_idx];
    let labels = compute_atlas_labels();
    Some(labels[atlas_idx])
}

/// Inverse map: a well-formed label to its member of `R(360)`; `None`
/// for any other label.
pub fn atlas_label_to_n(label: AtlasLabel) -> (r: Option<u32>)
    ensures
        r == spec_atlas_label_to_n(label),
{
    proof {
        lemma_index_permutations();
        if label.well_formed() {
            lemma_atlas_index(label);
        }
    }
    let atlas_idx = match find_atlas_index(label) {
        Some(i) => i,
        None => {
            return None;
        },
    };
    proof {
        lemma_label_at(atlas_idx as int);
    }
    let r_idx = ATLAS_TO_R_INDEX[atlas_idx];
    Some(ELEMENTS[r_idx])
}

/// Round trip `n → label → n` is the identity on `R(360)`: for `n` in
/// `R(360)`, `atlas_label_to_n(n_to_atlas_label(n).unwrap()) == Some(n)`
/// (both maps' `ensures` are these spec functions).
pub proof fn lemma_n_label_round_trip(n: int)
    requires
        in_r360(n),
    ensures
        spec_n_to_atlas_label(n) matches Some(l) && spec_atlas_label_to_n(l) == Some(n as u32),
{
    lemma_r360_membership(n);
    lemma_label_at(u30_index(n));
}

/// Round trip `label → n → label` is the identity on the 96 labels: for a
/// well-formed `l` (one of the 96), `n_to_atlas_label(atlas_label_to_n(l).unwrap())
/// == Some(l)`.
pub proof fn lemma_label_n_round_trip(l: AtlasLabel)
    requires
        l.well_formed(),
    ensures
        spec_atlas_label_to_n(l) matches Some(n) && spec_n_to_atlas_label(n as int) == Some(l),
{
    lemma_atlas_index(l);
    let i = atlas_index(l);
    lemma_elements();
    crate::u30::lemma_u30_value(i);
    let n = ELEMENTS[i] as int;
    lemma_r360_membership(n);
    crate::u30::lemma_u30_value(i);
}

/// Integers outside `R(360)` have no label.
pub proof fn lemma_non_members_rejected(n: int)
    requires
        !in_r360(n),
    ensures
        spec_n_to_atlas_label(n) is None,
{
}

/// The 96 labels are pairwise distinct.
pub proof fn lemma_labels_distinct(i: int, j: int)
    requires
        0 <= i < j < 96,
    ensures
        label_at(i) != label_at(j),
{
    lemma_label_at(i);
    lemma_label_at(j);
}

/// The mirror symmetry is an involution.
pub proof fn lemma_mirror_involution(l: AtlasLabel)
    requires
        l.e7 <= 1,
    ensures
        l.mirrored().e7 <= 1,
        l.mirrored().mirrored() == l,
{
}

/// The mirror symmetry maps the 96 labels onto themselves: the mirror of
/// a canonical label is again canonical, at index `atlas_index` of it.
pub proof fn lemma_mirror_permutes_labels(l: AtlasLabel)
    requires
        l.well_formed(),
    ensures
        l.mirrored().well_formed(),
        0 <= atlas_index(l.mirrored()) < 96,
        label_at(atlas_index(l.mirrored())) == l.mirrored(),
{
    lemma_atlas_index(l.mirrored());
}

} // verus!
