use toroidal_prime_clock::appendix_a::{
    compute_rows, sum_dr_column, sum_fibo_dr_column, FIXED_PDF_VERIFICATION,
    GARY_STATED_TOTAL_DR, GARY_STATED_TOTAL_FIBO_DR, SUM_DR, SUM_FIBO_DR,
};
use toroidal_prime_clock::arithmetic::gcd;
use toroidal_prime_clock::atlas_correspondence::{
    atlas_label_to_n, compute_atlas_labels, n_to_atlas_label, ATLAS_TO_R_INDEX, R_TO_ATLAS_INDEX,
};
use toroidal_prime_clock::digital_root::dr;
use toroidal_prime_clock::fibonacci::{dr_fib, fib, fib_mod_dr, F49};
use toroidal_prime_clock::li::{lookup_reference, reference_table};
use toroidal_prime_clock::parameters::{
    LATTICE_LAYERS, MODULUS_R, MODULUS_U, NUMERAL_BASE, PISANO_PERIOD_MOD_DR, R_CARDINALITY,
    U30_CARDINALITY,
};
use toroidal_prime_clock::pi_function::{identity_holds, pi_additive, pi_structural};
use toroidal_prime_clock::r360::{compose, decompose, ELEMENTS};
use toroidal_prime_clock::sieve::pi_via_u30_sieve;
use toroidal_prime_clock::twin_prime_residues::{
    is_twin_prime_candidate_lower, ISOLATED_LOWER_RESIDUES, TWIN_PRIME_LOWER_RESIDUES,
    TWIN_PRIME_RESIDUE_PAIRS,
};
use toroidal_prime_clock::u30::{GARY_STATED_RESIDUES, RESIDUES};
use toroidal_prime_clock::u90::{
    compute_diagonal_sum, compute_dr_cycle, compute_linear_sum, compute_residues_u90,
    compute_secondary_diagonal_sum, compute_u90_cardinality, compute_uniformity, DIAGONAL_PAIR_SUM,
    DIAGONAL_SUM, DR_CYCLE, DR_CYCLE_UNIFORMITY, GARY_STATED_DR_CYCLE, GARY_STATED_U90_RESIDUES,
    MODULUS_U90, RESIDUES_U90, ROW_SUM_LINEAR, SECONDARY_DIAGONAL_SUM, SQUARE_RESIDUE_VALUES,
    TILES_INTO_R360, U90_CARDINALITY,
};
use toroidal_prime_clock::units_z9::{
    MULT_TABLE_TOTAL_SUM, MULT_TABLE_Z9, POWERS_OF_2_MOD_9, UNITS_Z9, UNITS_Z9_CARDINALITY,
    UNITS_Z9_SUM,
};

#[test]
fn phase1_two_parameters_only() {
    assert_eq!(MODULUS_U, 30);
    assert_eq!(NUMERAL_BASE, 10);
    assert_eq!(PISANO_PERIOD_MOD_DR, 24);
    assert_eq!(U30_CARDINALITY, 8);
    assert_eq!(LATTICE_LAYERS, 12);
    assert_eq!(MODULUS_R, 360);
    assert_eq!(R_CARDINALITY, 96);
}

#[test]
fn phase1_u30_residues() {
    assert_eq!(RESIDUES.len(), 8);
    assert_eq!(RESIDUES, GARY_STATED_RESIDUES);
    assert_eq!(RESIDUES, [1, 7, 11, 13, 17, 19, 23, 29]);
}

#[test]
fn phase1_r360_cardinality_and_well_formed() {
    assert_eq!(ELEMENTS.len(), 96);
    assert_eq!(R_CARDINALITY, 96);
    for &n in &ELEMENTS {
        assert!(n >= 1 && u64::from(n) <= MODULUS_R);
        assert_eq!(gcd(u64::from(n), MODULUS_U), 1);
    }
}

#[test]
fn phase1_r360_bijection_round_trips() {
    for &n in &ELEMENTS {
        let (u, k) = decompose(n).expect("R(360) element must decompose");
        let recomposed = compose(u, k).expect("decomposed pair must recompose");
        assert_eq!(n, recomposed, "round-trip failure at n = {n}");
    }
}

#[test]
fn r360_split_rejects_outside_values() {
    assert_eq!(decompose(0), None);
    assert_eq!(decompose(2), None);
    assert_eq!(decompose(361), None);
    assert_eq!(decompose(367), None);
    assert_eq!(decompose(359), Some((29, 11)));
    assert_eq!(compose(29, 11), Some(359));
    assert_eq!(compose(29, 12), None);
    assert_eq!(compose(3, 0), None);
    assert_eq!(compose(31, 0), None);
}

#[test]
fn phase1_pisano_period_24_minimal() {
    assert_eq!(fib_mod_dr(PISANO_PERIOD_MOD_DR), 0);
    assert_eq!(fib_mod_dr(PISANO_PERIOD_MOD_DR + 1), 1);
    for p in 1..PISANO_PERIOD_MOD_DR {
        let closes = fib_mod_dr(p) == 0 && fib_mod_dr(p + 1) == 1;
        assert!(!closes, "Pisano(9) closes earlier at p = {p}");
    }
}

#[test]
fn phase1_f49_from_recurrence() {
    assert_eq!(F49, 7_778_742_049);
    assert_eq!(F49, fib(49));
}

#[test]
fn phase1_appendix_a_matches_pdf() {
    let rows = compute_rows();
    assert_eq!(rows.len(), 96);
    assert_eq!(FIXED_PDF_VERIFICATION.len(), 96);
    for (i, (computed, stated)) in rows.iter().zip(FIXED_PDF_VERIFICATION.iter()).enumerate() {
        assert_eq!(computed, stated, "row {i} disagrees: {computed:?} vs {stated:?}");
    }
}

#[test]
fn phase1_sum_dr_equals_432() {
    assert_eq!(SUM_DR, 432);
    assert_eq!(SUM_DR, GARY_STATED_TOTAL_DR);
}

#[test]
fn phase1_sum_fibo_dr_equals_432_structural() {
    assert_eq!(SUM_FIBO_DR, 432);
    assert_eq!(SUM_FIBO_DR, GARY_STATED_TOTAL_FIBO_DR);
    assert_eq!(u64::from(SUM_FIBO_DR), LATTICE_LAYERS * 36);
}

#[test]
fn appendix_a_column_sums_are_computed_as_432() {
    assert_eq!(sum_dr_column(), 432);
    assert_eq!(sum_fibo_dr_column(), 432);
    assert_eq!(sum_dr_column(), SUM_DR);
    assert_eq!(sum_fibo_dr_column(), SUM_FIBO_DR);
}

#[test]
fn appendix_a_first_and_last_rows() {
    let rows = compute_rows();
    assert_eq!(rows[0], (1, 1, 1));
    assert_eq!(rows[1], (7, 7, 4));
    assert_eq!(rows[95].0, 359);
    assert_eq!(u64::from(rows[95].1), u64::from(dr(359)));
}

#[test]
fn phase1_atlas_mirror_involution() {
    assert_eq!(compute_atlas_labels().len(), 96);
    for i in 0..R_CARDINALITY {
        assert_eq!(ATLAS_TO_R_INDEX[R_TO_ATLAS_INDEX[i]], i);
        assert_eq!(R_TO_ATLAS_INDEX[ATLAS_TO_R_INDEX[i]], i);
    }
}

#[test]
fn phase1_atlas_round_trip() {
    for &n in &ELEMENTS {
        let label = n_to_atlas_label(n).expect("R(360) element must label");
        let back = atlas_label_to_n(label).expect("label must decode");
        assert_eq!(n, back, "atlas round-trip failure at n = {n}");
    }
}

#[test]
fn phase1_dr_fib_agrees_with_dr_of_fib() {
    for k in 1u64..=29 {
        assert_eq!(dr_fib(k), dr(fib(k)));
    }
}

#[test]
fn phase15_u90_cardinality() {
    assert_eq!(U90_CARDINALITY, 24);
    assert_eq!(MODULUS_U90, 90);
    assert_eq!(MODULUS_U90, 3 * MODULUS_U);
}

#[test]
fn phase15_u90_residues_match_reference() {
    assert_eq!(RESIDUES_U90, GARY_STATED_U90_RESIDUES);
}

#[test]
fn phase15_dr_cycle_matches_pdf() {
    assert_eq!(DR_CYCLE, GARY_STATED_DR_CYCLE);
}

#[test]
fn phase15_dr_cycle_4_uniform() {
    for u in [1u64, 2, 4, 5, 7, 8] {
        let count = DR_CYCLE.iter().filter(|&&v| v == u).count();
        assert_eq!(count, 4, "dr value {u} appears {count} times, expected 4");
    }
    for v in [3u64, 6, 9] {
        let count = DR_CYCLE.iter().filter(|&&x| x == v).count();
        assert_eq!(count, 0, "dr value {v} should not appear");
    }
}

#[test]
fn phase15_units_z9_cyclic_generator_2() {
    assert_eq!(UNITS_Z9, [1, 2, 4, 5, 7, 8]);
    assert_eq!(UNITS_Z9_CARDINALITY, 6);
    assert_eq!(POWERS_OF_2_MOD_9, [2, 4, 8, 7, 5, 1]);
    let mut seen = [false; 6];
    for &p in &POWERS_OF_2_MOD_9 {
        for (i, &u) in UNITS_Z9.iter().enumerate() {
            if u == p {
                seen[i] = true;
            }
        }
    }
    for s in &seen {
        assert!(*s, "2 fails to generate (Z/9Z)*");
    }
}

#[test]
fn phase15_mult_table_z9_invariants() {
    assert_eq!(UNITS_Z9_SUM, 27);
    assert_eq!(MULT_TABLE_TOTAL_SUM, 162);
    for i in 0..UNITS_Z9_CARDINALITY {
        let row_sum: u64 = MULT_TABLE_Z9[i].iter().sum();
        assert_eq!(row_sum, 27);
        let col_sum: u64 = (0..UNITS_Z9_CARDINALITY).map(|j| MULT_TABLE_Z9[j][i]).sum();
        assert_eq!(col_sum, 27);
        for &v in &MULT_TABLE_Z9[i] {
            assert!(UNITS_Z9.contains(&v), "table entry escapes (Z/9Z)*");
        }
    }
}

#[test]
fn phase15_u90_linear_sum_1080() {
    assert_eq!(ROW_SUM_LINEAR, 1080);
    assert_eq!(ROW_SUM_LINEAR, 3 * MODULUS_R);
}

#[test]
fn phase15_u90_diagonal_960() {
    assert_eq!(SQUARE_RESIDUE_VALUES, [1, 19, 31, 49, 61, 79]);
    assert_eq!(DIAGONAL_SUM, 960);
    assert_eq!(DIAGONAL_SUM, 4 * 240);
}

#[test]
fn phase15_u90_tiles_into_r360() {
    assert_eq!(TILES_INTO_R360, R_CARDINALITY as u64);
    assert_eq!(TILES_INTO_R360, 96);
}

#[test]
fn u90_tables_are_computed_from_the_modulus() {
    assert_eq!(compute_u90_cardinality(), U90_CARDINALITY);
    assert_eq!(compute_residues_u90(), RESIDUES_U90);
    assert_eq!(compute_dr_cycle(), DR_CYCLE);
    assert_eq!(compute_uniformity(), DR_CYCLE_UNIFORMITY);
    assert_eq!(compute_diagonal_sum(), DIAGONAL_SUM);
    assert_eq!(compute_linear_sum(), ROW_SUM_LINEAR);
    assert_eq!(compute_secondary_diagonal_sum(), SECONDARY_DIAGONAL_SUM);
    assert_eq!(SECONDARY_DIAGONAL_SUM, 1200);
    assert_eq!(DIAGONAL_SUM + SECONDARY_DIAGONAL_SUM, DIAGONAL_PAIR_SUM);
    assert_eq!(DR_CYCLE_UNIFORMITY[0], (1, 4));
    assert_eq!(DR_CYCLE_UNIFORMITY[2], (3, 0));
}

#[test]
fn phase3_twin_prime_lower_residues_canonical() {
    assert_eq!(TWIN_PRIME_LOWER_RESIDUES, [11, 17, 29]);
}

#[test]
fn phase3_isolated_lower_residues_canonical() {
    assert_eq!(ISOLATED_LOWER_RESIDUES, [1, 7, 13, 19, 23]);
}

#[test]
fn phase3_partition_covers_u30() {
    assert_eq!(
        TWIN_PRIME_LOWER_RESIDUES.len() + ISOLATED_LOWER_RESIDUES.len(),
        U30_CARDINALITY
    );
    for &r in &TWIN_PRIME_LOWER_RESIDUES {
        assert!(!ISOLATED_LOWER_RESIDUES.contains(&r));
    }
}

#[test]
fn phase3_twin_prime_residue_pairs() {
    assert_eq!(TWIN_PRIME_RESIDUE_PAIRS, [(11, 13), (17, 19), (29, 1)]);
}

#[test]
fn phase3_predicate_holds_on_known_twin_primes() {
    let known: &[(u64, u64)] = &[
        (11, 13),
        (17, 19),
        (29, 31),
        (41, 43),
        (59, 61),
        (71, 73),
        (101, 103),
        (107, 109),
        (137, 139),
        (149, 151),
        (179, 181),
    ];
    for &(p, q) in known {
        assert_eq!(q, p + 2);
        assert!(is_twin_prime_candidate_lower(p));
    }
}

#[test]
fn phase2_pi_at_10_4() {
    assert_eq!(pi_via_u30_sieve(10_000), 1_229);
    assert_eq!(pi_via_u30_sieve(10_000), lookup_reference(4).unwrap().pi_n);
}

#[test]
fn phase2_pi_at_10_5() {
    assert_eq!(pi_via_u30_sieve(100_000), 9_592);
    assert_eq!(pi_via_u30_sieve(100_000), lookup_reference(5).unwrap().pi_n);
}

#[test]
fn phase2_pi_at_10_6() {
    assert_eq!(pi_via_u30_sieve(1_000_000), 78_498);
    assert_eq!(pi_via_u30_sieve(1_000_000), lookup_reference(6).unwrap().pi_n);
}

#[test]
fn phase2_pi_at_10_7() {
    assert_eq!(pi_via_u30_sieve(10_000_000), 664_579);
    assert_eq!(pi_via_u30_sieve(10_000_000), lookup_reference(7).unwrap().pi_n);
}

#[test]
fn phase2_pi_at_10_8() {
    assert_eq!(pi_via_u30_sieve(100_000_000), 5_761_455);
    assert_eq!(pi_via_u30_sieve(100_000_000), lookup_reference(8).unwrap().pi_n);
}

#[test]
fn phase2_structural_identity_below_1000() {
    for n in 0u64..1_000 {
        assert!(
            identity_holds(n),
            "structural identity broke at N={n}: additive={}, structural={}",
            pi_additive(n),
            pi_structural(n)
        );
    }
}

#[test]
fn reference_pi_sweep_across_decimal_powers() {
    let expected: [(u32, u64); 9] = [
        (4, 1_229),
        (5, 9_592),
        (6, 78_498),
        (7, 664_579),
        (8, 5_761_455),
        (9, 50_847_534),
        (10, 455_052_511),
        (11, 4_118_054_813),
        (12, 37_607_912_018),
    ];
    for (n_log10, expected_pi) in expected {
        let row = lookup_reference(n_log10).unwrap();
        assert_eq!(row.pi_n, expected_pi, "π drift at 10^{n_log10}");
    }
}

#[test]
fn reference_li_minus_pi_sweep() {
    let table = reference_table();
    for window in table.windows(2) {
        assert!(window[0].li_minus_pi_literature > 0);
        assert!(window[0].li_minus_pi_literature < window[1].li_minus_pi_literature);
    }
}
