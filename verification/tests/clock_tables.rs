use toroidal_prime_clock::arithmetic::gcd;
use toroidal_prime_clock::harness::{
    baseline_against_unimplemented, comparison_row, evaluate, pow10, ComparisonRow, Outcome,
};
use toroidal_prime_clock::li::{
    compare_li, gary_claims, lookup_gary_claim, lookup_reference, reference_table, LiAgreement,
    ReferenceRow,
};
use toroidal_prime_clock::master_clock::{
    LatticeTally, RationalApprox, ResonantRedundancy, SpecGap, TensionForce,
    UnimplementedMasterClock, CHI_DERIVED, CHI_FITTED, CHI_RESIDUAL, F49, OMEGA,
};
use toroidal_prime_clock::parameters::{LATTICE_LAYERS, R_CARDINALITY};

const SUM_DR: u64 = 432;

// ─── literature tables ───────────────────────────────────────────────

#[test]
fn pi_at_10_4_equals_1229() {
    let r = lookup_reference(4).unwrap();
    assert_eq!(r.pi_n, 1_229);
}

#[test]
fn pi_at_10_9_equals_50_847_534() {
    let r = lookup_reference(9).unwrap();
    assert_eq!(r.pi_n, 50_847_534);
}

#[test]
fn pi_at_10_12_equals_37_607_912_018() {
    let r = lookup_reference(12).unwrap();
    assert_eq!(r.pi_n, 37_607_912_018);
}

#[test]
fn gary_li_errors_match_literature_at_every_tabulated_n() {
    for g in &gary_claims() {
        let cmp = compare_li(g.n_log10).unwrap();
        assert!(
            cmp.agrees,
            "Gary's Li(10^{}) error {} does not match literature {}",
            g.n_log10, cmp.gary, cmp.literature
        );
    }
}

#[test]
fn gary_predicts_master_clock_delta_112_at_10_10() {
    let g = lookup_gary_claim(10).unwrap();
    assert_eq!(g.master_clock_delta_gary, 112);
    assert_eq!(g.mechanical_state, "Post-F49 Stabilization");
}

#[test]
fn gary_predicts_master_clock_delta_432_at_10_11() {
    let g = lookup_gary_claim(11).unwrap();
    assert_eq!(g.master_clock_delta_gary, 432);
    assert_eq!(g.mechanical_state, "Resonant Mid-Point");
}

#[test]
fn gary_predicts_master_clock_delta_96_at_10_12() {
    let g = lookup_gary_claim(12).unwrap();
    assert_eq!(g.master_clock_delta_gary, 96);
    assert_eq!(g.mechanical_state, "Secondary Ratchet Engage");
}

#[test]
fn gary_master_clock_deltas_align_with_phase_1_invariants() {
    let at_11 = lookup_gary_claim(11).unwrap();
    assert_eq!(at_11.master_clock_delta_gary, SUM_DR as i64);
    let at_12 = lookup_gary_claim(12).unwrap();
    assert_eq!(at_12.master_clock_delta_gary, R_CARDINALITY as i64);
}

#[test]
fn pi_is_monotone_in_table() {
    for window in reference_table().windows(2) {
        assert!(window[0].pi_n < window[1].pi_n, "π not monotone at log10 = {}", window[0].n_log10);
    }
}

#[test]
fn pi_sweep_across_all_nine_decimal_powers() {
    let expected: [(u32, u64); 9] = [
        (4, 1_229),
        (5, 9_592),
        (6, 78_498),
        (7, 664_579),
        (8, 5_761_455),
        (9, 50_847_534),
        (10, 455_052_511),
        (11, 4_118_054_813),
        (12, 37_607_912_018),
    ];
    for (n_log10, pi_expected) in expected {
        let row = lookup_reference(n_log10).unwrap();
        assert_eq!(row.pi_n, pi_expected, "π(10^{n_log10}) drift");
    }
}

#[test]
fn li_minus_pi_sweep_across_all_nine_decimal_powers() {
    let expected: [(u32, i64); 9] = [
        (4, 17),
        (5, 38),
        (6, 130),
        (7, 339),
        (8, 754),
        (9, 1_701),
        (10, 3_104),
        (11, 11_588),
        (12, 38_263),
    ];
    for (n_log10, li_err_expected) in expected {
        let row = lookup_reference(n_log10).unwrap();
        assert_eq!(row.li_minus_pi_literature, li_err_expected, "Li(10^{n_log10}) − π drift");
    }
    for window in reference_table().windows(2) {
        assert!(window[0].li_minus_pi_literature > 0);
        assert!(window[0].li_minus_pi_literature < window[1].li_minus_pi_literature);
    }
}

#[test]
fn full_validation_surface() {
    for g in &gary_claims() {
        let lit = lookup_reference(g.n_log10).unwrap();
        assert_eq!(g.li_minus_pi_gary, lit.li_minus_pi_literature);
        assert!(g.master_clock_delta_gary > 0);
        match g.n_log10 {
            11 => assert_eq!(g.master_clock_delta_gary, SUM_DR as i64),
            12 => assert_eq!(g.master_clock_delta_gary, R_CARDINALITY as i64),
            _ => {}
        }
    }
}

#[test]
fn lookups_outside_the_tables_are_none() {
    assert_eq!(lookup_reference(3), None);
    assert_eq!(lookup_reference(13), None);
    assert!(lookup_gary_claim(9).is_none());
    assert_eq!(compare_li(9), None);
    assert_eq!(
        compare_li(11),
        Some(LiAgreement { n_log10: 11, literature: 11_588, gary: 11_588, agrees: true })
    );
}

// ─── master clock ────────────────────────────────────────────────────

#[test]
fn chi_derived_is_five_halves() {
    assert_eq!(CHI_DERIVED, (5, 2));
}

#[test]
fn chi_fitted_is_gary_stated() {
    assert_eq!(CHI_FITTED, (24_184, 10_000));
}

#[test]
fn omega_is_lattice_layers_times_chi_fitted() {
    assert_eq!(OMEGA.0, LATTICE_LAYERS * CHI_FITTED.0);
    assert_eq!(OMEGA.1, CHI_FITTED.1);
    assert_eq!(OMEGA, (290_208, 10_000));
}

#[test]
fn chi_residual_is_consistent() {
    let (n_d, d_d) = CHI_DERIVED;
    let (n_f, d_f) = CHI_FITTED;
    let num = (n_d as i64) * (d_f as i64) - (n_f as i64) * (d_d as i64);
    let den = d_d * d_f;
    let g = gcd(num.unsigned_abs(), den);
    let reduced_num = num / (g as i64);
    let reduced_den = den / g;
    assert_eq!((reduced_num, reduced_den), CHI_RESIDUAL);
}

#[test]
fn f49_is_consistent_with_fibonacci_module() {
    assert_eq!(F49, 7_778_742_049);
    assert_eq!(F49, toroidal_prime_clock::fibonacci::F49);
}

#[test]
fn unimplemented_clock_returns_typed_gaps() {
    assert_eq!(UnimplementedMasterClock::d(100), Err(SpecGap::DNeedsDefinition));
    assert_eq!(UnimplementedMasterClock::tf(100), Err(SpecGap::TfNeedsDefinition));
    assert_eq!(UnimplementedMasterClock::rf(1_000_000), Err(SpecGap::RfDecayConstantMissing));
    assert_eq!(UnimplementedMasterClock::rf(F49), Err(SpecGap::ExponentialEncodingPending));
    assert_eq!(UnimplementedMasterClock::rf(F49 + 1), Err(SpecGap::ExponentialEncodingPending));
}

// ─── harness ─────────────────────────────────────────────────────────

#[test]
fn unimplemented_at_10_10_returns_specgap_with_populated_columns() {
    let row = evaluate::<UnimplementedMasterClock>(10).unwrap();
    assert_eq!(row.n_log10, 10);
    assert_eq!(row.pi_true, 455_052_511);
    assert_eq!(row.li_minus_pi_literature, 3_104);
    assert_eq!(row.master_clock_delta_gary, 112);
    assert!(matches!(row.outcome, Outcome::SpecGap(_)));
    assert!(row.observed_delta.is_none());
    assert!(!row.matches_gary);
}

#[test]
fn unimplemented_at_10_12_returns_specgap_with_populated_columns() {
    let row = evaluate::<UnimplementedMasterClock>(12).unwrap();
    assert_eq!(row.n_log10, 12);
    assert_eq!(row.pi_true, 37_607_912_018);
    assert_eq!(row.li_minus_pi_literature, 38_263);
    assert_eq!(row.master_clock_delta_gary, 96);
    assert!(matches!(row.outcome, Outcome::SpecGap(_)));
}

#[test]
fn baseline_returns_three_rows_all_specgap() {
    let rows = baseline_against_unimplemented();
    assert_eq!(rows.len(), 3);
    let log10s: [u32; 3] = [rows[0].n_log10, rows[1].n_log10, rows[2].n_log10];
    assert_eq!(log10s, [10, 11, 12]);
    for row in &rows {
        assert!(matches!(row.outcome, Outcome::SpecGap(_)));
        assert!(!row.matches_gary);
    }
}

#[test]
fn pow10_at_12_is_one_trillion() {
    assert_eq!(pow10(12), 1_000_000_000_000);
}

#[test]
fn pow10_at_zero_is_one() {
    assert_eq!(pow10(0), 1);
}

/// A clock whose components all evaluate.
struct ConstantClock;

impl LatticeTally for ConstantClock {
    fn d(_n: u64) -> Result<RationalApprox, SpecGap> {
        Ok(RationalApprox::empty())
    }
}

impl TensionForce for ConstantClock {
    fn tf(_n: u64) -> Result<RationalApprox, SpecGap> {
        Ok(RationalApprox::empty())
    }
}

impl ResonantRedundancy for ConstantClock {
    fn rf(_n: u64) -> Result<RationalApprox, SpecGap> {
        Ok(RationalApprox::empty())
    }
}

#[test]
fn evaluating_clock_predicts_three() {
    let row = evaluate::<ConstantClock>(10).unwrap();
    assert_eq!(row.outcome, Outcome::Predicted(3));
    assert_eq!(row.observed_delta, Some(3 - 455_052_511));
    assert!(!row.matches_gary);
    assert!(evaluate::<ConstantClock>(9).is_none());
    assert!(evaluate::<UnimplementedMasterClock>(13).is_none());
}

#[test]
fn comparison_row_matches_sign_agnostically() {
    let lit = ReferenceRow { n_log10: 12, pi_n: 100, li_minus_pi_literature: 5 };
    let gary = lookup_gary_claim(12).unwrap();
    let row: ComparisonRow = comparison_row(12, lit, gary, Outcome::Predicted(4));
    assert_eq!(row.observed_delta, Some(-96));
    assert!(row.matches_gary);
    let row = comparison_row(12, lit, gary, Outcome::Predicted(196));
    assert!(row.matches_gary);
    let row = comparison_row(12, lit, gary, Outcome::Predicted(197));
    assert!(!row.matches_gary);
    let row = comparison_row(12, lit, gary, Outcome::SpecGap(SpecGap::TfNeedsDefinition));
    assert_eq!(row.observed_delta, None);
    assert!(!row.matches_gary);
}
