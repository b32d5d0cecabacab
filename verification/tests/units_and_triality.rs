use toroidal_prime_clock::digital_root::{digital_root, dr};
use toroidal_prime_clock::perfect_squares_mod30::{
    NON_SQUARE_UNIT_DR_COSET, NON_UNIT_DR_COSET, SQUARE_DR_COSET,
};
use toroidal_prime_clock::units_z9::{
    compute_mult_table_z9, compute_powers_of_2_mod_9, compute_units_z9, compute_units_z9_sum,
    ADDITIVE_INVERSE_PAIRS, MULTIPLICATIVE_INVERSE_PAIRS, MULT_TABLE_Z9, POWERS_OF_2_MOD_9,
    UNITS_Z9, UNITS_Z9_CARDINALITY, UNITS_Z9_SUM,
};

#[test]
fn units_z9_is_canonical() {
    assert_eq!(UNITS_Z9, [1, 2, 4, 5, 7, 8]);
}

#[test]
fn two_generates_units_z9() {
    let mut seen = [false; UNITS_Z9_CARDINALITY];
    for &p in &POWERS_OF_2_MOD_9 {
        for (i, &u) in UNITS_Z9.iter().enumerate() {
            if u == p {
                seen[i] = true;
            }
        }
    }
    for s in &seen {
        assert!(*s, "2 fails to generate (Z/9Z)*");
    }
}

#[test]
fn mult_table_row_col_sums_27() {
    for i in 0..UNITS_Z9_CARDINALITY {
        let row_sum: u64 = MULT_TABLE_Z9[i].iter().sum();
        assert_eq!(row_sum, 27);
        let col_sum: u64 = (0..UNITS_Z9_CARDINALITY).map(|j| MULT_TABLE_Z9[j][i]).sum();
        assert_eq!(col_sum, 27);
    }
}

#[test]
fn mult_table_total_162() {
    let total: u64 = (0..UNITS_Z9_CARDINALITY)
        .flat_map(|i| (0..UNITS_Z9_CARDINALITY).map(move |j| MULT_TABLE_Z9[i][j]))
        .sum();
    assert_eq!(total, 162);
}

#[test]
fn additive_inverse_pairs_sum_to_9() {
    for &(a, b) in &ADDITIVE_INVERSE_PAIRS {
        assert_eq!(a + b, 9);
    }
}

#[test]
fn multiplicative_inverse_pairs_product_1_mod_9() {
    for &(a, b) in &MULTIPLICATIVE_INVERSE_PAIRS {
        assert_eq!((a * b) % 9, 1);
    }
}

#[test]
fn units_tables_are_recomputed_exactly() {
    assert_eq!(compute_units_z9(), UNITS_Z9);
    assert_eq!(compute_powers_of_2_mod_9(), POWERS_OF_2_MOD_9);
    assert_eq!(compute_mult_table_z9(), MULT_TABLE_Z9);
    assert_eq!(compute_units_z9_sum(), UNITS_Z9_SUM);
    assert_eq!(UNITS_Z9_SUM, 27);
}

#[test]
fn library_cosets_match_the_witness_cosets() {
    assert_eq!(SQUARE_DR_COSET, [1, 4, 7]);
    assert_eq!(NON_SQUARE_UNIT_DR_COSET, [2, 5, 8]);
    assert_eq!(NON_UNIT_DR_COSET, [3, 6, 9]);
}

#[test]
fn digital_root_spot_values() {
    assert_eq!(digital_root(0), 0);
    assert_eq!(digital_root(9), 9);
    assert_eq!(digital_root(18), 9);
    assert_eq!(digital_root(89), 8);
    assert_eq!(digital_root(7_919), 8);
    assert_eq!(dr(360), 9);
    assert_eq!(dr(u64::MAX), 6);
}
