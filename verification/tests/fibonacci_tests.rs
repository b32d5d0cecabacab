use toroidal_prime_clock::digital_root::dr;
use toroidal_prime_clock::fibonacci::{dr_fib, fib, fib_mod, fib_mod_dr, F49};
use toroidal_prime_clock::fibonacci_reciprocal::{
    partial_numerator, pow10_u128, tail_bound, tail_gap, PARTIAL_NUMERATOR_AT_10,
    RECIPROCAL_DENOMINATOR,
};
use toroidal_prime_clock::parameters::PISANO_PERIOD_MOD_DR;

#[test]
fn reciprocal_denominator_eq_89() {
    assert_eq!(RECIPROCAL_DENOMINATOR, 89);
}

#[test]
fn partial_numerator_at_10_anchor() {
    assert_eq!(partial_numerator(10), 1_123_595_495);
    assert_eq!(PARTIAL_NUMERATOR_AT_10, 1_123_595_495);
}

#[test]
fn tail_gap_strictly_positive_and_bounded() {
    for n in 1..=17u32 {
        let gap = tail_gap(n);
        let bound = tail_bound(n);
        assert!(gap > 0, "N={n}: gap must be positive");
        assert!(gap < bound, "N={n}: gap {gap} ≥ bound {bound}");
    }
}

#[test]
fn convergence_relative_gap_shrinks_per_step() {
    for n in 5..17u32 {
        let g0 = tail_gap(n);
        let g1 = tail_gap(n + 1);
        assert!(g1 < 10 * g0, "N={n}: gap not shrinking faster than 10×");
    }
}

#[test]
fn gap_is_the_fibonacci_tail() {
    for n in 0..=37u32 {
        let expected = 10 * fib(n as u64 + 1) as u128 + fib(n as u64) as u128;
        assert_eq!(tail_gap(n), expected, "N={n}");
        assert_eq!(89 * partial_numerator(n) + expected, pow10_u128(n + 1));
    }
    assert_eq!(partial_numerator(0), 0);
    assert_eq!(partial_numerator(1), 1);
    assert_eq!(partial_numerator(2), 11);
    assert_eq!(partial_numerator(39), 112_359_550_561_797_752_808_988_764_044_931_611_376);
}

#[test]
fn powers_of_ten() {
    assert_eq!(pow10_u128(0), 1);
    assert_eq!(pow10_u128(1), 10);
    assert_eq!(pow10_u128(38), 100_000_000_000_000_000_000_000_000_000_000_000_000);
}

#[test]
fn fib_matches_known_values() {
    let known = [
        0u64, 1, 1, 2, 3, 5, 8, 13, 21, 34, 55, 89, 144, 233, 377, 610, 987, 1597, 2584, 4181,
    ];
    for (k, &expected) in known.iter().enumerate() {
        assert_eq!(fib(k as u64), expected, "F_{k}");
    }
    assert_eq!(fib(93), 12_200_160_415_121_876_738);
}

#[test]
fn fib_mod_agrees_with_full_fib() {
    for k in 0..30u64 {
        for m in 1..30u64 {
            assert_eq!(fib_mod(k, m), fib(k) % m, "fib_mod({k}, {m}) ≠ fib({k}) mod {m}");
        }
    }
    assert_eq!(fib_mod(10, 0), 0);
}

#[test]
fn pisano_period_mod_dr_closes_at_24() {
    assert_eq!(fib_mod_dr(PISANO_PERIOD_MOD_DR), 0);
    assert_eq!(fib_mod_dr(PISANO_PERIOD_MOD_DR + 1), 1);
}

#[test]
fn pisano_period_mod_dr_is_minimal() {
    for p in 1..PISANO_PERIOD_MOD_DR {
        let f_p = fib_mod_dr(p);
        let f_p1 = fib_mod_dr(p + 1);
        assert!(!(f_p == 0 && f_p1 == 1), "period would be {p} < 24");
    }
}

#[test]
fn f49_equals_seven_billion() {
    assert_eq!(F49, 7_778_742_049);
    assert_eq!(fib(49), F49);
}

#[test]
fn dr_fib_range_over_one_period() {
    for k in 1..=PISANO_PERIOD_MOD_DR {
        let r = dr_fib(k);
        assert!((1..=9).contains(&r), "dr(F_{k}) = {r} out of [1, 9]");
    }
}

#[test]
fn dr_fib_agrees_with_dr_of_fib() {
    for k in 1u64..=29 {
        assert_eq!(dr_fib(k), dr(fib(k)), "dr_fib({k}) ≠ dr(F_{k})");
    }
    assert_eq!(dr_fib(0), 0);
}

#[test]
fn fib_mod_dr_repeats_with_period_24() {
    for k in 0u64..200 {
        assert_eq!(fib_mod_dr(k + 24), fib_mod_dr(k));
    }
}

#[test]
fn fib_mod_accepts_every_modulus() {
    assert_eq!(fib_mod(10, u64::MAX), 55);
    assert_eq!(fib_mod(93, u64::MAX), 12_200_160_415_121_876_738);
    assert_eq!(fib_mod(94, u64::MAX), 1_293_530_146_158_671_552);
    assert_eq!(fib_mod(12, 1 << 63), 144);
}
