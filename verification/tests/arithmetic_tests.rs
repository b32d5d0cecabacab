use toroidal_prime_clock::arithmetic::{euler_phi, gcd, largest_power_below, lcm};
use toroidal_prime_clock::parameters::{
    LATTICE_LAYERS, MODULUS_DR, MODULUS_R, MODULUS_U, PISANO_PERIOD_MOD_DR, R_CARDINALITY,
    U30_CARDINALITY,
};

#[test]
fn gcd_basic_identities() {
    assert_eq!(gcd(0, 0), 0);
    assert_eq!(gcd(7, 0), 7);
    assert_eq!(gcd(12, 18), 6);
    assert_eq!(gcd(30, 360), 30);
}

#[test]
fn lcm_basic_identities() {
    assert_eq!(lcm(0, 5), 0);
    assert_eq!(lcm(4, 6), 12);
    assert_eq!(lcm(lcm(30, 9), 24), 360);
}

#[test]
fn euler_phi_small_cases() {
    assert_eq!(euler_phi(1), 1);
    assert_eq!(euler_phi(30), 8);
    assert_eq!(euler_phi(360), 96);
}

#[test]
fn largest_power_below_spot_checks() {
    assert_eq!(largest_power_below(10, 7_778_742_049), 1_000_000_000);
    assert_eq!(largest_power_below(10, 11), 10);
    assert_eq!(largest_power_below(2, 1000), 512);
}

#[test]
fn derivations_match_gary_stated_values() {
    assert_eq!(MODULUS_U, 30);
    assert_eq!(MODULUS_DR, 9);
    assert_eq!(PISANO_PERIOD_MOD_DR, 24);
    assert_eq!(U30_CARDINALITY, 8);
    assert_eq!(MODULUS_R, 360);
    assert_eq!(LATTICE_LAYERS, 12);
    assert_eq!(R_CARDINALITY, 96);
}

#[test]
fn gcd_is_symmetric_and_divides_both() {
    for a in 0u64..60 {
        for b in 0u64..60 {
            let g = gcd(a, b);
            assert_eq!(g, gcd(b, a));
            if g > 0 {
                assert_eq!(a % g, 0);
                assert_eq!(b % g, 0);
            }
        }
    }
}

#[test]
fn lcm_times_gcd_is_product() {
    for a in 1u64..40 {
        for b in 1u64..40 {
            assert_eq!(lcm(a, b) * gcd(a, b), a * b);
        }
    }
}

#[test]
fn euler_phi_of_primes_and_edge_cases() {
    assert_eq!(euler_phi(0), 0);
    assert_eq!(euler_phi(2), 1);
    assert_eq!(euler_phi(7), 6);
    assert_eq!(euler_phi(9), 6);
    assert_eq!(euler_phi(90), 24);
}

#[test]
fn largest_power_below_edge_cases() {
    assert_eq!(largest_power_below(1, 100), 1);
    assert_eq!(largest_power_below(10, 1), 1);
    assert_eq!(largest_power_below(10, 10), 1);
    assert_eq!(largest_power_below(3, 28), 27);
}
