use toroidal_prime_clock::arithmetic::gcd;
use toroidal_prime_clock::parameters::{MODULUS_DR, MODULUS_U, U30_CARDINALITY};
use toroidal_prime_clock::perfect_squares_mod30::{
    compute_square_dr, compute_square_mod30, has_square_dr, is_square_residue_mod30,
    NON_SQUARE_UNIT_DR_COSET, NON_UNIT_DR_COSET, SQUARE_DR_COSET, SQUARE_DR_VALUES,
    SQUARE_MOD30_RESIDUES,
};
use toroidal_prime_clock::siamese_prime_pattern::{
    compute_6k_plus_3, compute_siamese, is_siamese_generator_candidate,
    is_siamese_generator_via_mod6, SIAMESE_AS_6K_PLUS_3, SIAMESE_GENERATOR_RESIDUES,
};
use toroidal_prime_clock::sieve::{is_prime_oracle, pi_via_u30_sieve};
use toroidal_prime_clock::sophie_germain_residues::{
    compute_sg_isolated, compute_sg_lower, compute_sg_pairs, is_sophie_germain_candidate,
    SG_ISOLATED_RESIDUES, SG_PARTITION_CHECK, SG_RESIDUE_PAIRS, SOPHIE_GERMAIN_LOWER_RESIDUES,
};
use toroidal_prime_clock::twin_prime_residues::{
    compute_isolated_lower, compute_twin_pairs, compute_twin_prime_lower,
    is_twin_prime_candidate_lower, ISOLATED_LOWER_RESIDUES, PARTITION_CHECK,
    TWIN_PRIME_LOWER_RESIDUES, TWIN_PRIME_RESIDUE_PAIRS,
};
use toroidal_prime_clock::u30::RESIDUES;

// ─── twin primes ─────────────────────────────────────────────────────

#[test]
fn lower_residues_are_canonical() {
    assert_eq!(TWIN_PRIME_LOWER_RESIDUES, [11, 17, 29]);
}

#[test]
fn isolated_residues_are_canonical() {
    assert_eq!(ISOLATED_LOWER_RESIDUES, [1, 7, 13, 19, 23]);
}

#[test]
fn pairs_are_canonical() {
    assert_eq!(TWIN_PRIME_RESIDUE_PAIRS, [(11, 13), (17, 19), (29, 1)]);
}

#[test]
fn lower_plus_isolated_partitions_u30() {
    assert_eq!(
        TWIN_PRIME_LOWER_RESIDUES.len() + ISOLATED_LOWER_RESIDUES.len(),
        U30_CARDINALITY
    );
    for &r in &TWIN_PRIME_LOWER_RESIDUES {
        assert!(!ISOLATED_LOWER_RESIDUES.contains(&r));
    }
}

#[test]
fn lower_residues_have_coprime_successor() {
    for &r in &TWIN_PRIME_LOWER_RESIDUES {
        let s = (r + 2) % MODULUS_U;
        assert_eq!(gcd(s, MODULUS_U), 1);
    }
}

#[test]
fn isolated_residues_have_noncoprime_successor() {
    for &r in &ISOLATED_LOWER_RESIDUES {
        let s = (r + 2) % MODULUS_U;
        assert!(gcd(s, MODULUS_U) > 1);
    }
}

#[test]
fn predicate_holds_on_known_twin_primes() {
    let known_twin_primes: &[(u64, u64)] = &[
        (11, 13),
        (17, 19),
        (29, 31),
        (41, 43),
        (59, 61),
        (71, 73),
        (101, 103),
        (107, 109),
        (137, 139),
        (149, 151),
        (179, 181),
    ];
    for &(p, q) in known_twin_primes {
        assert_eq!(q, p + 2, "{p} and {q} not consecutive odd");
        assert!(is_twin_prime_candidate_lower(p), "{p} should pass the residue filter");
        let r = p % MODULUS_U;
        assert!(matches!(r, 11 | 17 | 29), "{p} mod 30 = {r} not in {{11, 17, 29}}");
    }
}

#[test]
fn predicate_rejects_isolated_primes() {
    assert!(!is_twin_prime_candidate_lower(7));
    assert!(!is_twin_prime_candidate_lower(23));
    assert!(!is_twin_prime_candidate_lower(31));
    assert!(!is_twin_prime_candidate_lower(43));
    assert!(!is_twin_prime_candidate_lower(79));
}

#[test]
fn sieve_cross_check_below_200() {
    let is_prime = |n: u64| -> bool { n >= 2 && pi_via_u30_sieve(n) > pi_via_u30_sieve(n - 1) };
    for p in 7u64..=200 {
        if !is_prime(p) {
            continue;
        }
        let twin = is_prime(p + 2);
        let candidate = is_twin_prime_candidate_lower(p);
        if twin {
            assert!(candidate, "{p}: twin pair but predicate rejected");
        }
    }
}

#[test]
fn twin_tables_are_recomputed_exactly() {
    assert_eq!(compute_twin_prime_lower(), TWIN_PRIME_LOWER_RESIDUES);
    assert_eq!(compute_isolated_lower(), ISOLATED_LOWER_RESIDUES);
    assert_eq!(compute_twin_pairs(), TWIN_PRIME_RESIDUE_PAIRS);
    assert_eq!(PARTITION_CHECK, U30_CARDINALITY);
}

#[test]
fn every_twin_prime_below_10000_passes_the_filter() {
    for p in 7u64..10_000 {
        if is_prime_oracle(p) && is_prime_oracle(p + 2) {
            assert!(is_twin_prime_candidate_lower(p), "{p}");
        }
    }
}

// ─── Sophie Germain ──────────────────────────────────────────────────

#[test]
fn lower_residues_canonical() {
    assert_eq!(SOPHIE_GERMAIN_LOWER_RESIDUES, [11, 23, 29]);
}

#[test]
fn isolated_residues_canonical() {
    assert_eq!(SG_ISOLATED_RESIDUES, [1, 7, 13, 17, 19]);
}

#[test]
fn pairs_canonical() {
    assert_eq!(SG_RESIDUE_PAIRS, [(11, 23), (23, 17), (29, 29)]);
}

#[test]
fn partition_covers_u30() {
    assert_eq!(SG_PARTITION_CHECK, U30_CARDINALITY);
}

#[test]
fn predicate_holds_on_known_sg_primes() {
    let known = &[11u64, 23, 29, 41, 53, 83, 89, 113, 131, 173, 179];
    for &p in known {
        assert!(is_sophie_germain_candidate(p), "{p} should pass the SG residue filter");
        assert!(matches!(p % MODULUS_U, 11 | 23 | 29));
    }
}

#[test]
fn sophie_germain_tables_are_recomputed_exactly() {
    assert_eq!(compute_sg_lower(), SOPHIE_GERMAIN_LOWER_RESIDUES);
    assert_eq!(compute_sg_isolated(), SG_ISOLATED_RESIDUES);
    assert_eq!(compute_sg_pairs(), SG_RESIDUE_PAIRS);
}

#[test]
fn every_sophie_germain_prime_below_10000_passes_the_filter() {
    let mut p = 7u64;
    while p <= 10_000 {
        if is_prime_oracle(p) && is_prime_oracle(2 * p + 1) {
            assert!(is_sophie_germain_candidate(p), "{p}");
        }
        p += 2;
    }
}

// ─── Siamese ─────────────────────────────────────────────────────────

#[test]
fn generator_residues_canonical() {
    assert_eq!(SIAMESE_GENERATOR_RESIDUES, [3, 9, 15, 21, 27]);
}

#[test]
fn matches_6k_plus_3_form() {
    assert_eq!(SIAMESE_AS_6K_PLUS_3, [3, 9, 15, 21, 27]);
    assert_eq!(SIAMESE_GENERATOR_RESIDUES, SIAMESE_AS_6K_PLUS_3);
}

#[test]
fn predicate_matches_mod6_form() {
    for n in 0u64..200 {
        assert_eq!(
            is_siamese_generator_candidate(n),
            is_siamese_generator_via_mod6(n),
            "predicates disagree at n={n}"
        );
    }
}

#[test]
fn predicate_holds_on_small_siamese_pairs() {
    let known_generators = &[3u64, 9, 15, 21, 27];
    for &n in known_generators {
        assert!(is_siamese_generator_candidate(n));
        assert!(is_siamese_generator_via_mod6(n));
    }
}

#[test]
fn predicate_rejects_non_siamese_generators() {
    assert!(!is_siamese_generator_candidate(4));
    assert!(!is_siamese_generator_candidate(7));
    assert!(!is_siamese_generator_candidate(11));
}

#[test]
fn siamese_tables_are_recomputed_exactly() {
    assert_eq!(compute_siamese(), SIAMESE_GENERATOR_RESIDUES);
    assert_eq!(compute_6k_plus_3(), SIAMESE_AS_6K_PLUS_3);
}

#[test]
fn every_siamese_pair_below_1000_has_a_generator_residue() {
    for n in 3u64..=1000 {
        let lo = n * n - 2;
        let hi = n * n + 2;
        if is_prime_oracle(lo) && is_prime_oracle(hi) {
            assert!(is_siamese_generator_candidate(n), "{n}");
        }
    }
}

// ─── perfect squares ─────────────────────────────────────────────────

#[test]
fn square_mod30_canonical() {
    assert_eq!(SQUARE_MOD30_RESIDUES, [1, 19]);
}

#[test]
fn square_dr_canonical() {
    assert_eq!(SQUARE_DR_VALUES, [1, 4, 7]);
}

#[test]
fn three_dr_cosets_partition_z9() {
    assert_eq!(SQUARE_DR_COSET, [1, 4, 7]);
    assert_eq!(NON_SQUARE_UNIT_DR_COSET, [2, 5, 8]);
    assert_eq!(NON_UNIT_DR_COSET, [3, 6, 9]);
    let mut union = [false; 10];
    for &v in SQUARE_DR_COSET
        .iter()
        .chain(NON_SQUARE_UNIT_DR_COSET.iter())
        .chain(NON_UNIT_DR_COSET.iter())
    {
        assert!(!union[v as usize], "duplicate dr value {v} across cosets");
        union[v as usize] = true;
    }
    for v in 1..=9 {
        assert!(union[v]);
    }
}

#[test]
fn each_square_residue_hit_4_times() {
    let mut hits_1 = 0u64;
    let mut hits_19 = 0u64;
    for &n in &RESIDUES {
        let sq = (n * n) % MODULUS_U;
        if sq == 1 {
            hits_1 += 1;
        } else if sq == 19 {
            hits_19 += 1;
        } else {
            panic!("square of {n} mod 30 = {sq} not in {{1, 19}}");
        }
    }
    assert_eq!(hits_1, 4);
    assert_eq!(hits_19, 4);
}

#[test]
fn predicates_agree_on_known_squares() {
    let squares = [49u64, 121, 169, 289, 361, 529, 841];
    for &sq in &squares {
        assert!(is_square_residue_mod30(sq));
        assert!(has_square_dr(sq));
    }
}

#[test]
fn modulus_dr_is_9() {
    assert_eq!(MODULUS_DR, 9);
}

#[test]
fn square_tables_are_recomputed_exactly() {
    assert_eq!(compute_square_mod30(), SQUARE_MOD30_RESIDUES);
    assert_eq!(compute_square_dr(), SQUARE_DR_VALUES);
}

#[test]
fn every_prime_square_below_10000_passes_both_predicates() {
    for p in 7u64..10_000 {
        if is_prime_oracle(p) {
            assert!(is_square_residue_mod30(p * p), "{p}");
            assert!(has_square_dr(p * p), "{p}");
        }
    }
    assert!(!is_square_residue_mod30(2));
    assert!(!has_square_dr(2));
}
