use toroidal_prime_clock::arithmetic::gcd;
use toroidal_prime_clock::parameters::MODULUS_U;
use toroidal_prime_clock::replicant_factorization::{
    duplicate_factorization_count, replicant_count_distinct, replicant_products,
    total_factorization_pairs, unique_factorization_products, DUPLICATE_FACTORIZATIONS_AT_1000,
    DUPLICATE_FACTORIZATIONS_AT_10000, REPLICANTS_AT_1000,
};

#[test]
fn no_replicants_below_100() {
    assert_eq!(replicant_count_distinct(100), 0);
    assert_eq!(duplicate_factorization_count(100), 0);
}

#[test]
fn replicant_set_at_1000_canonical() {
    assert_eq!(replicant_products(1_000), REPLICANTS_AT_1000);
}

#[test]
fn distinct_count_at_1000_eq_5() {
    assert_eq!(replicant_count_distinct(1_000), 5);
}

#[test]
fn duplicate_count_at_1000_eq_5() {
    assert_eq!(duplicate_factorization_count(1_000), DUPLICATE_FACTORIZATIONS_AT_1000);
}

#[test]
fn duplicate_count_at_10000_eq_408() {
    assert_eq!(duplicate_factorization_count(10_000), DUPLICATE_FACTORIZATIONS_AT_10000);
}

#[test]
fn distinct_count_diverges_at_10000() {
    let distinct = replicant_count_distinct(10_000);
    let duplicates = duplicate_factorization_count(10_000);
    assert_eq!(distinct, 248);
    assert_eq!(duplicates, 408);
    assert!(duplicates > distinct);
}

#[test]
fn duplicate_equals_total_minus_unique() {
    for &n in &[100u64, 500, 1_000, 5_000, 10_000] {
        let total = total_factorization_pairs(n);
        let unique = unique_factorization_products(n);
        let duplicates = duplicate_factorization_count(n);
        assert_eq!(total - unique, duplicates, "N={n}: total={total}, unique={unique}, dups={duplicates}");
    }
}

#[test]
fn each_replicant_at_1000_has_two_factorizations() {
    let cases: &[(u64, u64, u64, u64, u64)] = &[
        (539, 7, 77, 11, 49),
        (637, 7, 91, 13, 49),
        (833, 7, 119, 17, 49),
        (847, 7, 121, 11, 77),
        (931, 7, 133, 19, 49),
    ];
    for &(p, a1, b1, a2, b2) in cases {
        assert_eq!(a1 * b1, p);
        assert_eq!(a2 * b2, p);
        for &x in &[a1, b1, a2, b2] {
            assert_eq!(gcd(x, MODULUS_U), 1);
            assert!(x >= 7);
        }
    }
}

#[test]
fn duplicate_count_monotone() {
    let mut prev = 0u64;
    for n in (100..=10_000).step_by(500) {
        let c = duplicate_factorization_count(n);
        assert!(c >= prev, "duplicate count not monotone at N={n}");
        prev = c;
    }
}

#[test]
fn small_tables() {
    assert_eq!(total_factorization_pairs(48), 0);
    assert_eq!(total_factorization_pairs(49), 1);
    assert_eq!(unique_factorization_products(77), 2);
    assert_eq!(total_factorization_pairs(0), 0);
    assert!(replicant_products(0).is_empty());
}

#[test]
fn counts_match_direct_enumeration_below_3000() {
    let n = 3_000u64;
    let mut counts = vec![0u64; (n + 1) as usize];
    let mut a = 7u64;
    while a * a <= n {
        if gcd(a, 30) == 1 {
            let mut b = a;
            while a * b <= n {
                if gcd(b, 30) == 1 {
                    counts[(a * b) as usize] += 1;
                }
                b += 1;
            }
        }
        a += 1;
    }
    let total: u64 = counts.iter().sum();
    let unique = counts.iter().filter(|&&c| c >= 1).count() as u64;
    let dups: u64 = counts.iter().filter(|&&c| c >= 2).map(|&c| c - 1).sum();
    let reps: Vec<u64> = (0..=n).filter(|&m| counts[m as usize] >= 2).collect();
    assert_eq!(total_factorization_pairs(n), total);
    assert_eq!(unique_factorization_products(n), unique);
    assert_eq!(duplicate_factorization_count(n), dups);
    assert_eq!(replicant_products(n), reps);
}
