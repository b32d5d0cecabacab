//! Reference values of `π(N)` and `round(Li(N) − π(N))` at decimal powers,
//! and the three tabulated claims of the Master-Clock comparison.
use vstd::prelude::*;

verus! {

/// One row of the literature table at `N = 10^n_log10`.
#[derive(Debug, Clone, Copy, PartialEq, Eq, Structural)]
pub struct ReferenceRow {
    /// `log₁₀(N)`.
    pub n_log10: u32,
    /// `π(N)`.
    pub pi_n: u64,
    /// `round(Li(N) − π(N))`.
    pub li_minus_pi_literature: i64,
}

/// One row of the claimed Master-Clock table.
#[derive(Debug, Clone, Copy, PartialEq, Eq)]
pub struct GaryClaimRow {
    /// `log₁₀(N)`.
    pub n_log10: u32,
    /// Claimed `Li(N)` absolute error.
    pub li_minus_pi_gary: i64,
    /// Claimed Master-Clock residual.
    pub master_clock_delta_gary: i64,
    /// Annotation attached to the row.
    pub mechanical_state: &'static str,
}

/// Comparison of the claimed and literature `Li(N) − π(N)` at one `N`.
#[derive(Debug, Clone, Copy, PartialEq, Eq, Structural)]
pub struct LiAgreement {
    /// `log₁₀(N)`.
    pub n_log10: u32,
    /// Literature value.
    pub literature: i64,
    /// Claimed value.
    pub gary: i64,
    /// Whether the two agree.
    pub agrees: bool,
}

/// The literature table, `N = 10⁴ … 10¹²`.
pub open spec fn spec_reference_table() -> Seq<ReferenceRow> {
    seq![
        ReferenceRow { n_log10: 4, pi_n: 1_229, li_minus_pi_literature: 17 },
        ReferenceRow { n_log10: 5, pi_n: 9_592, li_minus_pi_literature: 38 },
        ReferenceRow { n_log10: 6, pi_n: 78_498, li_minus_pi_literature: 130 },
        ReferenceRow { n_log10: 7, pi_n: 664_579, li_minus_pi_literature: 339 },
        ReferenceRow { n_log10: 8, pi_n: 5_761_455, li_minus_pi_literature: 754 },
        ReferenceRow { n_log10: 9, pi_n: 50_847_534, li_minus_pi_literature: 1_701 },
        ReferenceRow { n_log10: 10, pi_n: 455_052_511, li_minus_pi_literature: 3_104 },
        ReferenceRow { n_log10: 11, pi_n: 4_118_054_813, li_minus_pi_literature: 11_588 },
        ReferenceRow { n_log10: 12, pi_n: 37_607_912_018, li_minus_pi_literature: 38_263 },
    ]
}

/// The claimed table, `N = 10¹⁰, 10¹¹, 10¹²`.
pub open spec fn spec_gary_claims() -> Seq<GaryClaimRow> {
    seq![
        GaryClaimRow {
            n_log10: 10,
            li_minus_pi_gary: 3_104,
            master_clock_delta_gary: 112,
            mechanical_state: "Post-F49 Stabilization",
        },
        GaryClaimRow {
            n_log10: 11,
            li_minus_pi_gary: 11_588,
            master_clock_delta_gary: 432,
            mechanical_state: "Resonant Mid-Point",
        },
        GaryClaimRow {
            n_log10: 12,
            li_minus_pi_gary: 38_263,
            master_clock_delta_gary: 96,
            mechanical_state: "Secondary Ratchet Engage",
        },
    ]
}

/// The literature table.
pub fn reference_table() -> (t: [ReferenceRow; 9])
    ensures
        t@ == spec_reference_table(),
{
    let t = [
        ReferenceRow { n_log10: 4, pi_n: 1_229, li_minus_pi_literature: 17 },
        ReferenceRow { n_log10: 5, pi_n: 9_592, li_minus_pi_literature: 38 },
        ReferenceRow { n_log10: 6, pi_n: 78_498, li_minus_pi_literature: 130 },
        ReferenceRow { n_log10: 7, pi_n: 664_579, li_minus_pi_literature: 339 },
        ReferenceRow { n_log10: 8, pi_n: 5_761_455, li_minus_pi_literature: 754 },
        ReferenceRow { n_log10: 9, pi_n: 50_847_534, li_minus_pi_literature: 1_701 },
        ReferenceRow { n_log10: 10, pi_n: 455_052_511, li_minus_pi_literature: 3_104 },
        ReferenceRow { n_log10: 11, pi_n: 4_118_054_813, li_minus_pi_literature: 11_588 },
        ReferenceRow { n_log10: 12, pi_n: 37_607_912_018, li_minus_pi_literature: 38_263 },
    ];
    assert(t@ =~= spec_reference_table());
    t
}

/// The claimed table.
pub fn gary_claims() -> (t: [GaryClaimRow; 3])
    ensures
        t@ == spec_gary_claims(),
{
    let t = [
        GaryClaimRow {
            n_log10: 10,
            li_minus_pi_gary: 3_104,
            master_clock_delta_gary: 112,
            mechanical_state: "Post-F49 Stabilization",
        },
        GaryClaimRow {
            n_log10: 11,
            li_minus_pi_gary: 11_588,
            master_clock_delta_gary: 432,
            mechanical_state: "Resonant Mid-Point",
        },
        GaryClaimRow {
            n_log10: 12,
            li_minus_pi_gary: 38_263,
            master_clock_delta_gary: 96,
            mechanical_state: "Secondary Ratchet Engage",
        },
    ];
    assert(t@ =~= spec_gary_claims());
    t
}

/// The literature row at `n_log10`, if tabulated.
pub open spec fn spec_lookup_reference(n_log10: u32) -> Option<ReferenceRow> {
    if 4 <= n_log10 <= 12 {
        Some(spec_reference_table()[n_log10 - 4])
    } else {
        None
    }
}

/// The claimed row at `n_log10`, if tabulated.
pub open spec fn spec_lookup_gary_claim(n_log10: u32) -> Option<GaryClaimRow> {
    if 10 <= n_log10 <= 12 {
        Some(spec_gary_claims()[n_log10 - 10])
    } else {
        None
    }
}

/// The comparison at `n_log10`, where both tables have a row.
pub open spec fn spec_compare_li(n_log10: u32) -> Option<LiAgreement> {
    if 10 <= n_log10 <= 12 {
        let lit = spec_reference_table()[n_log10 - 4].li_minus_pi_literature;
        let gar = spec_gary_claims()[n_log10 - 10].li_minus_pi_gary;
        Some(LiAgreement { n_log10, literature: lit, gary: gar, agrees: lit == gar })
    } else {
        None
    }
}

/// Looks up the literature row for `n_log10 = log₁₀(N)`.
pub fn lookup_reference(n_log10: u32) -> (r: Option<ReferenceRow>)
    ensures
        r == spec_lookup_reference(n_log10),
{
    let table = reference_table();
    let mut i: usize = 0;
    while i < 9
        invariant
            i <= 9,
            table@ == spec_reference_table(),
            forall|k: int| 0 <= k < i ==> table[k].n_log10 != n_log10,
        decreases 9 - i,
    {
        if table[i].n_log10 == n_log10 {
            return Some(table[i]);
        }
        i = i + 1;
    }
    None
}

/// Looks up the claimed row for `n_log10`.
pub fn lookup_gary_claim(n_log10: u32) -> (r: Option<GaryClaimRow>)
    ensures
        r == spec_lookup_gary_claim(n_log10),
{
    let table = gary_claims();
    let mut i: usize = 0;
    while i < 3
        invariant
            i <= 3,
            table@ == spec_gary_claims(),
            forall|k: int| 0 <= k < i ==> table[k].n_log10 != n_log10,
        decreases 3 - i,
    {
        if table[i].n_log10 == n_log10 {
            return Some(table[i]);
        }
        i = i + 1;
    }
    None
}

/// Compares the claimed `Li(N) − π(N)` with the literature at `n_log10`;
/// `None` unless both tables have a row there.
pub fn compare_li(n_log10: u32) -> (r: Option<LiAgreement>)
    ensures
        r == spec_compare_li(n_log10),
{
    let lit = match lookup_reference(n_log10) {
        Some(r) => r,
        None => {
            return None;
        },
    };
    let gar = match lookup_gary_claim(n_log10) {
        Some(g) => g,
        None => {
            return None;
        },
    };
    Some(
        LiAgreement {
            n_log10,
            literature: lit.li_minus_pi_literature,
            gary: gar.li_minus_pi_gary,
            agrees: lit.li_minus_pi_literature == gar.li_minus_pi_gary,
        },
    )
}

/// Every claimed row has a literature row at the same `N`.
pub proof fn lemma_claims_covered(n_log10: u32)
    requires
        spec_lookup_gary_claim(n_log10) is Some,
    ensures
        spec_lookup_reference(n_log10) is Some,
        spec_lookup_reference(n_log10).unwrap().n_log10 == n_log10,
        spec_lookup_gary_claim(n_log10).unwrap().n_log10 == n_log10,
{
}

} // verus!
