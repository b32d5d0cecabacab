use toroidal_prime_clock::appendix_a::{SUM_DR, SUM_FIBO_DR};
use toroidal_prime_clock::factorization_dyads::{DYAD_COUNT, FIBER_SIZE};
use toroidal_prime_clock::parameters::{
    LATTICE_LAYERS, MODULUS_R, PISANO_PERIOD_MOD_DR, R_CARDINALITY, U30_CARDINALITY,
};
use toroidal_prime_clock::period24_dr_sequences::{DR_ROW_SUM, DR_TABLE_TOTAL};
use toroidal_prime_clock::r360::ELEMENTS;
use toroidal_prime_clock::u30::RESIDUES;
use toroidal_prime_clock::u90::{DIAGONAL_PAIR_SUM, ROW_SUM_LINEAR, U90_CARDINALITY};
use toroidal_prime_clock::units_z9::{
    MULT_TABLE_ROW_SUM, MULT_TABLE_TOTAL_SUM, UNITS_Z9_CARDINALITY, UNITS_Z9_SUM,
};

#[test]
fn convergence_at_432_three_paths() {
    let path_1 = u64::from(SUM_DR);
    let path_2 = u64::from(SUM_FIBO_DR);
    let path_3 = LATTICE_LAYERS * 36;
    assert_eq!(path_1, 432);
    assert_eq!(path_2, 432);
    assert_eq!(path_3, 432);
    assert_eq!(path_1, path_2);
    assert_eq!(path_2, path_3);
}

#[test]
fn convergence_at_432_phase5_paths() {
    let path_4 = DR_TABLE_TOTAL / 6;
    let path_5 = 4 * DR_ROW_SUM;
    assert_eq!(path_4, 432);
    assert_eq!(path_5, 432);
    assert_eq!(path_4, u64::from(SUM_DR));
    assert_eq!(path_5, u64::from(SUM_DR));
}

#[test]
fn convergence_at_96_three_paths() {
    let path_1 = R_CARDINALITY;
    let path_2 = U30_CARDINALITY * LATTICE_LAYERS as usize;
    let path_3 = ELEMENTS.len();
    assert_eq!(path_1, 96);
    assert_eq!(path_2, 96);
    assert_eq!(path_3, 96);
    assert_eq!(path_1, path_2);
    assert_eq!(path_2, path_3);
}

#[test]
fn convergence_at_96_phase15_path() {
    let path_4 = U90_CARDINALITY * 4;
    assert_eq!(path_4, 96);
    assert_eq!(path_4, R_CARDINALITY);
}

#[test]
fn convergence_at_24_three_paths() {
    let path_1 = PISANO_PERIOD_MOD_DR;
    let path_2 = U90_CARDINALITY as u64;
    let path_3 = FIBER_SIZE as u64;
    assert_eq!(path_1, 24);
    assert_eq!(path_2, 24);
    assert_eq!(path_3, 24);
    assert_eq!(path_1, path_2);
    assert_eq!(path_2, path_3);
}

#[test]
fn convergence_at_24_supplementary_paths() {
    let path_4 = LATTICE_LAYERS * 2;
    let path_5 = U30_CARDINALITY as u64 * 3;
    assert_eq!(path_4, 24);
    assert_eq!(path_5, 24);
    assert_eq!(path_4, PISANO_PERIOD_MOD_DR);
    assert_eq!(path_5, PISANO_PERIOD_MOD_DR);
}

#[test]
fn triality_of_1080() {
    let path_1 = ROW_SUM_LINEAR;
    let path_2 = 3 * MODULUS_R;
    assert_eq!(path_1, 1080);
    assert_eq!(path_2, 1080);
    assert_eq!(path_1, path_2);
}

#[test]
fn triality_of_2160() {
    let path_1 = DIAGONAL_PAIR_SUM;
    let path_2 = 6 * MODULUS_R;
    let path_3 = 5 * u64::from(SUM_DR);
    assert_eq!(path_1, 2160);
    assert_eq!(path_2, 2160);
    assert_eq!(path_3, 2160);
    assert_eq!(path_1, path_2);
    assert_eq!(path_2, path_3);
}

#[test]
fn triality_of_576() {
    let path_1 = DYAD_COUNT;
    let path_2 = U90_CARDINALITY * U90_CARDINALITY;
    let path_3 = FIBER_SIZE * U90_CARDINALITY;
    assert_eq!(path_1, 576);
    assert_eq!(path_2, 576);
    assert_eq!(path_3, 576);
    assert_eq!(path_1, path_2);
    assert_eq!(path_2, path_3);
}

#[test]
fn convergence_at_8_eight_residues() {
    let path_1 = U30_CARDINALITY;
    let path_2 = RESIDUES.len();
    assert_eq!(path_1, 8);
    assert_eq!(path_2, 8);
    assert_eq!(path_1, path_2);
}

#[test]
fn convergence_at_108_three_paths() {
    let path_1 = DR_ROW_SUM;
    let path_2 = 4 * UNITS_Z9_SUM;
    let path_3 = u64::from(SUM_DR) / 4;
    assert_eq!(path_1, 108);
    assert_eq!(path_2, 108);
    assert_eq!(path_3, 108);
    assert_eq!(path_1, path_2);
    assert_eq!(path_2, path_3);
}

#[test]
fn convergence_at_27_three_paths() {
    let path_1 = UNITS_Z9_SUM;
    let path_2 = MULT_TABLE_ROW_SUM;
    let path_3 = MULT_TABLE_TOTAL_SUM / UNITS_Z9_CARDINALITY as u64;
    assert_eq!(path_1, 27);
    assert_eq!(path_2, 27);
    assert_eq!(path_3, 27);
    assert_eq!(path_1, path_2);
    assert_eq!(path_2, path_3);
}

#[test]
fn convergence_at_36_three_paths() {
    let path_1 = u64::from(SUM_FIBO_DR) / LATTICE_LAYERS;
    let path_2 = u64::from(SUM_DR) / LATTICE_LAYERS;
    let z3_factor = 3u64;
    let path_3 = (LATTICE_LAYERS / z3_factor) * 9;
    assert_eq!(path_1, 36);
    assert_eq!(path_2, 36);
    assert_eq!(path_3, 36);
    assert_eq!(path_1, path_2);
    assert_eq!(path_2, path_3);
}
