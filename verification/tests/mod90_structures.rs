use std::collections::{BTreeMap, BTreeSet};
use toroidal_prime_clock::digital_root::digital_root;
use toroidal_prime_clock::dyad_classes::{
    class_index, compute_class_counts, CLASS_COUNT, CLASS_SIZE,
};
use toroidal_prime_clock::factorization_dyads::{
    compute_diagonal_dyads, compute_dyads_table, u90_position, CARDINALITY_IDENTITY,
    DYAD_COUNT, FIBER_SIZE,
};
use toroidal_prime_clock::period24_dr_sequences::{compute_dr_sequences, DR_TABLE_TOTAL};
use toroidal_prime_clock::u90::{
    DR_CYCLE, DR_CYCLE_UNIFORMITY, GARY_STATED_DR_CYCLE, GARY_STATED_U90_RESIDUES,
    MODULUS_U90, RESIDUES_U90, SQUARE_RESIDUE_VALUES, U90_CARDINALITY,
};
use toroidal_prime_clock::units_z9::UNITS_Z9_CARDINALITY;

// ─── factorization dyads ─────────────────────────────────────────────

#[test]
fn dyad_count_576() {
    let table = compute_dyads_table();
    assert_eq!(DYAD_COUNT, 576);
    assert_eq!(table.len(), 576);
}

#[test]
fn every_product_in_u90() {
    for &(_, _, p) in &compute_dyads_table() {
        assert!(RESIDUES_U90.contains(&p), "product {p} escapes U_30(90)");
    }
}

#[test]
fn fiber_size_24() {
    assert_eq!(FIBER_SIZE, 24);
    let mut counts = BTreeMap::<u64, usize>::new();
    for &(_, _, p) in &compute_dyads_table() {
        *counts.entry(p).or_insert(0) += 1;
    }
    assert_eq!(counts.len(), U90_CARDINALITY);
    for &c in counts.values() {
        assert_eq!(c, FIBER_SIZE);
    }
}

#[test]
fn cardinality_identity_holds() {
    assert_eq!(CARDINALITY_IDENTITY, DYAD_COUNT);
    assert_eq!(U90_CARDINALITY * U90_CARDINALITY, 576);
}

#[test]
fn diagonal_has_24_entries_squared() {
    let diag = compute_diagonal_dyads();
    assert_eq!(diag.len(), 24);
    for &(a, b, p) in &diag {
        assert_eq!(a, b);
        assert_eq!(p, (a * a) % MODULUS_U90);
    }
}

#[test]
fn diagonal_residues_match_square_set() {
    let mut seen = BTreeSet::new();
    for &(_, _, p) in &compute_diagonal_dyads() {
        seen.insert(p);
    }
    let expected: BTreeSet<u64> = SQUARE_RESIDUE_VALUES.iter().copied().collect();
    assert_eq!(seen, expected);
}

#[test]
fn dyad_table_is_row_major() {
    let table = compute_dyads_table();
    assert_eq!(table[0], (1, 1, 1));
    assert_eq!(table[1], (1, 7, 7));
    assert_eq!(table[25], (7, 7, 49));
    assert_eq!(table[575], (89, 89, 1));
}

#[test]
fn u90_position_finds_members_only() {
    for (i, &r) in RESIDUES_U90.iter().enumerate() {
        assert_eq!(u90_position(r), i);
    }
    assert_eq!(u90_position(0), usize::MAX);
    assert_eq!(u90_position(9), usize::MAX);
    assert_eq!(u90_position(91), usize::MAX);
}

// ─── dyad classes ────────────────────────────────────────────────────

#[test]
fn class_count_36() {
    assert_eq!(CLASS_COUNT, 36);
    assert_eq!(CLASS_COUNT, UNITS_Z9_CARDINALITY * UNITS_Z9_CARDINALITY);
}

#[test]
fn class_size_16() {
    assert_eq!(CLASS_SIZE, 16);
    assert_eq!(CLASS_SIZE, 4 * 4);
}

#[test]
fn partition_arithmetic_576() {
    assert_eq!(CLASS_COUNT * CLASS_SIZE, 576);
    assert_eq!(CLASS_COUNT * CLASS_SIZE, U90_CARDINALITY * U90_CARDINALITY);
}

#[test]
fn every_class_has_size_16() {
    for &c in &compute_class_counts() {
        assert_eq!(c, CLASS_SIZE);
    }
}

#[test]
fn class_index_matches_lex_order() {
    assert_eq!(class_index(1, 1), 0);
    assert_eq!(class_index(1, 2), 1);
    assert_eq!(class_index(2, 1), UNITS_Z9_CARDINALITY);
    assert_eq!(class_index(8, 8), CLASS_COUNT - 1);
}

#[test]
fn class_index_rejects_non_units() {
    assert_eq!(class_index(0, 1), usize::MAX);
    assert_eq!(class_index(1, 3), usize::MAX);
    assert_eq!(class_index(6, 6), usize::MAX);
}

#[test]
fn triality_of_576_via_dyad_classes() {
    assert_eq!(U90_CARDINALITY * U90_CARDINALITY, 576);
    assert_eq!(CLASS_COUNT * CLASS_SIZE, 576);
    assert_eq!(DYAD_COUNT, 576);
}

#[test]
fn class_counts_total_576() {
    let total: usize = compute_class_counts().iter().sum();
    assert_eq!(total, 576);
    assert_eq!(class_index(5, 7), 3 * 6 + 4);
    assert_eq!(class_index(9, 9), usize::MAX);
}

// ─── period-24 dr sequences ──────────────────────────────────────────

#[test]
fn row_sums_all_108() {
    for row in &compute_dr_sequences() {
        let s: u64 = row.iter().sum();
        assert_eq!(s, 108);
    }
}

#[test]
fn column_sums_all_108() {
    let table = compute_dr_sequences();
    for k in 0..24 {
        let s: u64 = (0..24).map(|i| table[i][k]).sum();
        assert_eq!(s, 108);
    }
}

#[test]
fn total_2592() {
    let total: u64 = compute_dr_sequences().iter().flatten().sum();
    assert_eq!(total, 2592);
    assert_eq!(total, 6 * 432);
    assert_eq!(DR_TABLE_TOTAL, 2592);
}

#[test]
fn every_entry_in_units_z9() {
    for row in &compute_dr_sequences() {
        for &v in row {
            assert!(matches!(v, 1 | 2 | 4 | 5 | 7 | 8));
        }
    }
}

#[test]
fn first_row_matches_dr_cycle() {
    assert_eq!(compute_dr_sequences()[0], DR_CYCLE);
}

#[test]
fn every_row_is_permutation_of_dr_cycle() {
    let mut canonical = DR_CYCLE.to_vec();
    canonical.sort();
    for row in &compute_dr_sequences() {
        let mut sorted = row.to_vec();
        sorted.sort();
        assert_eq!(sorted, canonical);
    }
}

// ─── U_30(90) ────────────────────────────────────────────────────────

#[test]
fn u90_tables_match_reference_and_definition() {
    assert_eq!(RESIDUES_U90, GARY_STATED_U90_RESIDUES);
    assert_eq!(DR_CYCLE, GARY_STATED_DR_CYCLE);
    let derived: Vec<u64> = (1..=MODULUS_U90)
        .filter(|&n| toroidal_prime_clock::arithmetic::gcd(n, 30) == 1)
        .collect();
    assert_eq!(derived, RESIDUES_U90.to_vec());
    for (i, &n) in RESIDUES_U90.iter().enumerate() {
        assert_eq!(DR_CYCLE[i], digital_root(n));
    }
    for &(v, c) in &DR_CYCLE_UNIFORMITY {
        assert_eq!(DR_CYCLE.iter().filter(|&&d| d == v).count() as u64, c);
    }
}
