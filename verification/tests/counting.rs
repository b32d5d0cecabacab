use toroidal_prime_clock::arithmetic::gcd;
use toroidal_prime_clock::index_to_residue::{index_of_u30_member, nth_u30_member};
use toroidal_prime_clock::parameters::{MODULUS_R, MODULUS_U, U30_CARDINALITY};
use toroidal_prime_clock::pi_function::{c30, identity_holds, pi_additive, pi_structural};
use toroidal_prime_clock::sieve::{
    d30, is_prime_oracle, isqrt, pi_via_u30_sieve, primes_in_u30, residue_index,
};
use toroidal_prime_clock::triangular_numbers::{
    triangular, ANCHOR_24, ANCHOR_30, PYRAMID_PRODUCT, SQUARE_DIFFERENCE_30_24,
    SQUARE_MINUS_ONE_AT_24, TRIANGULAR_AT_24TH, TRIANGULAR_AT_30TH,
    TRIANGULAR_AT_THOUSANDTH_PRIME,
};
use toroidal_prime_clock::u30::RESIDUES;

// ─── index ↔ residue ─────────────────────────────────────────────────

#[test]
fn forward_map_first_eight_is_residues() {
    for k in 1..=U30_CARDINALITY as u64 {
        assert_eq!(nth_u30_member(k), RESIDUES[(k - 1) as usize], "k={k}");
    }
}

#[test]
fn forward_map_anchors() {
    assert_eq!(nth_u30_member(24), 89);
    assert_eq!(nth_u30_member(2112), 7919);
}

#[test]
fn inverse_map_anchors() {
    assert_eq!(index_of_u30_member(89), 24);
    assert_eq!(index_of_u30_member(7919), 2112);
}

#[test]
fn inverse_rejects_non_coprime() {
    assert_eq!(index_of_u30_member(2), 0);
    assert_eq!(index_of_u30_member(15), 0);
    assert_eq!(index_of_u30_member(30), 0);
    assert_eq!(index_of_u30_member(0), 0);
}

#[test]
fn round_trip_first_thousand_indices() {
    for k in 1u64..=1000 {
        let n = nth_u30_member(k);
        assert_eq!(index_of_u30_member(n), k);
        assert_eq!(gcd(n, MODULUS_U), 1);
    }
}

#[test]
fn round_trip_first_thousand_coprime_integers() {
    let mut count = 0u64;
    for n in 1u64..=10_000 {
        if gcd(n, MODULUS_U) == 1 {
            count += 1;
            let k = index_of_u30_member(n);
            assert_eq!(k, count);
            assert_eq!(nth_u30_member(k), n);
        }
    }
}

#[test]
fn nth_member_of_zero_is_zero() {
    assert_eq!(nth_u30_member(0), 0);
    assert_eq!(nth_u30_member(9), 31);
}

// ─── sieve ───────────────────────────────────────────────────────────

#[test]
fn isqrt_spot_checks() {
    assert_eq!(isqrt(0), 0);
    assert_eq!(isqrt(1), 1);
    assert_eq!(isqrt(2), 1);
    assert_eq!(isqrt(99), 9);
    assert_eq!(isqrt(100), 10);
    assert_eq!(isqrt(10_000), 100);
    assert_eq!(isqrt(1_000_000_000), 31_622);
}

#[test]
fn d30_at_30_equals_8() {
    assert_eq!(d30(30), 8);
}

#[test]
fn d30_at_300_equals_80() {
    assert_eq!(d30(300), 80);
}

#[test]
fn d30_at_10000_counts_the_coprime_integers() {
    let direct = (1u64..=10_000).filter(|&n| gcd(n, MODULUS_U) == 1).count() as u64;
    assert_eq!(direct, 2_666);
    assert_eq!(d30(10_000), direct);
}

#[test]
fn pi_at_100_equals_25() {
    assert_eq!(pi_via_u30_sieve(100), 25);
}

#[test]
fn pi_at_1000_equals_168() {
    assert_eq!(pi_via_u30_sieve(1_000), 168);
}

#[test]
fn pi_at_7919_equals_1000() {
    assert_eq!(pi_via_u30_sieve(7_919), 1_000);
}

#[test]
fn pi_at_10000_equals_1229() {
    assert_eq!(pi_via_u30_sieve(10_000), 1_229);
}

#[test]
fn sieve_agrees_with_trial_division_below_3000() {
    let mut count = 0u64;
    for n in 0u64..3_000 {
        if is_prime_oracle(n) {
            count += 1;
        }
        assert_eq!(pi_via_u30_sieve(n), count, "n={n}");
    }
}

#[test]
fn small_inputs_of_the_sieve() {
    assert_eq!(pi_via_u30_sieve(0), 0);
    assert_eq!(pi_via_u30_sieve(1), 0);
    assert_eq!(pi_via_u30_sieve(2), 1);
    assert_eq!(pi_via_u30_sieve(5), 3);
    assert_eq!(pi_via_u30_sieve(6), 3);
    assert_eq!(pi_via_u30_sieve(7), 4);
    assert_eq!(primes_in_u30(6), 0);
    assert_eq!(primes_in_u30(7), 1);
    assert_eq!(primes_in_u30(100), 22);
}

#[test]
fn residue_index_positions() {
    for (i, &r) in RESIDUES.iter().enumerate() {
        assert_eq!(residue_index(r), i);
    }
    assert_eq!(residue_index(0), usize::MAX);
    assert_eq!(residue_index(15), usize::MAX);
}

#[test]
fn oracle_spot_values() {
    assert!(!is_prime_oracle(0));
    assert!(!is_prime_oracle(1));
    assert!(is_prime_oracle(2));
    assert!(is_prime_oracle(3));
    assert!(!is_prime_oracle(4));
    assert!(!is_prime_oracle(731));
    assert!(is_prime_oracle(7_919));
    assert!(!is_prime_oracle(7_921));
}

// ─── π(N) = D₃₀(N) − C₃₀(N) + 2 ───────────────────────────────────────

#[test]
fn structural_matches_additive_at_100() {
    assert!(identity_holds(100));
    assert_eq!(pi_structural(100), 25);
}

#[test]
fn structural_matches_additive_at_10000() {
    assert!(identity_holds(10_000));
    assert_eq!(pi_structural(10_000), 1_229);
}

#[test]
fn c30_at_30_equals_0() {
    assert_eq!(c30(30), 0);
}

#[test]
fn c30_at_100_counts_first_composites() {
    assert_eq!(c30(100), 3);
}

#[test]
fn identity_holds_at_every_n_below_1000() {
    for n in 0u64..1_000 {
        assert!(
            identity_holds(n),
            "structural identity broke at N={n}: additive={}, structural={}",
            pi_additive(n),
            pi_structural(n)
        );
    }
}

#[test]
fn additive_form_matches_sieve() {
    for n in [0u64, 1, 2, 3, 5, 6, 7, 100, 1_000] {
        assert_eq!(pi_additive(n), pi_via_u30_sieve(n));
    }
}

// ─── triangular numbers ──────────────────────────────────────────────

#[test]
fn triangular_small() {
    assert_eq!(triangular(0), 0);
    assert_eq!(triangular(1), 1);
    assert_eq!(triangular(2), 3);
    assert_eq!(triangular(3), 6);
    assert_eq!(triangular(10), 55);
}

#[test]
fn anchors_match_website() {
    assert_eq!(TRIANGULAR_AT_24TH, 4_005);
    assert_eq!(TRIANGULAR_AT_30TH, 5_995);
    assert_eq!(TRIANGULAR_AT_THOUSANDTH_PRIME, 31_359_240);
}

#[test]
fn square_difference_anchors_to_modulus_r() {
    assert_eq!(SQUARE_MINUS_ONE_AT_24, 22 * MODULUS_R);
    assert_eq!(SQUARE_DIFFERENCE_30_24, 11 * MODULUS_R);
}

#[test]
fn pyramid_product_factors_cleanly() {
    assert_eq!(PYRAMID_PRODUCT, 2_112 * 11 * MODULUS_R);
    assert_eq!(PYRAMID_PRODUCT, 8_363_520);
}

#[test]
fn anchors_are_enumeration_members() {
    assert_eq!(nth_u30_member(24), ANCHOR_24);
    assert_eq!(nth_u30_member(30), ANCHOR_30);
    assert_eq!(triangular(ANCHOR_24), TRIANGULAR_AT_24TH);
    assert_eq!(triangular(ANCHOR_30), TRIANGULAR_AT_30TH);
    assert_eq!(triangular(7_919), TRIANGULAR_AT_THOUSANDTH_PRIME);
    assert_eq!(triangular(4_294_967_295), 9_223_372_034_707_292_160);
}

#[test]
fn isqrt_covers_the_whole_u64_range() {
    assert_eq!(isqrt(u64::MAX), 4_294_967_295);
    assert_eq!(isqrt(u64::MAX - 1), 4_294_967_295);
    assert_eq!(isqrt(18_446_744_065_119_617_025), 4_294_967_295);
    assert_eq!(isqrt(18_446_744_065_119_617_024), 4_294_967_294);
    assert!(!is_prime_oracle(u64::MAX));
}

#[test]
fn triangular_at_the_documented_limit() {
    assert_eq!(triangular(6_074_000_999), 18_446_744_070_963_499_500);
    assert_eq!(triangular(0), 0);
    assert_eq!(triangular(10), 55);
}
