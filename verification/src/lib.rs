pub mod arithmetic;
pub mod digital_root;
pub mod index_to_residue;
pub mod parameters;
pub mod twin_prime_residues;
pub mod triangular_numbers;
pub mod u30;
pub mod units_z9;
pub mod primes;
pub mod siamese_prime_pattern;
pub mod sieve;
pub mod sophie_germain_residues;
pub mod perfect_squares_mod30;
pub mod pi_function;
pub mod replicant_factorization;
pub mod fibonacci;
pub mod u90;
pub mod factorization_dyads;
pub mod dyad_classes;
pub mod period24_dr_sequences;
pub mod r360;
pub mod atlas_correspondence;
pub mod fibonacci_reciprocal;
pub mod li;
pub mod master_clock;
pub mod harness;
pub mod integer;
pub mod rational;
pub mod elementary;
pub mod cauchy;
pub mod appendix_a;
pub mod convergence;
pub mod potential;
pub mod tails;
