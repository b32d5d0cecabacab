//! The two irreducible parameters and the constants derived from them.
use vstd::prelude::*;

verus! {

/// The residue modulus. `MODULUS_U = 30 = 2 · 3 · 5`.
pub const MODULUS_U: u64 = 30;

/// The base of the numeral system used for digital roots.
pub const NUMERAL_BASE: u64 = 10;

/// The modulus of digital-root arithmetic, `NUMERAL_BASE − 1 = 9`.
pub const MODULUS_DR: u64 = NUMERAL_BASE - 1;

/// The Pisano period of Fibonacci modulo `MODULUS_DR`.
pub const PISANO_PERIOD_MOD_DR: u64 = 24;

/// `|U(MODULUS_U)| = φ(30) = 8`.
pub const U30_CARDINALITY: usize = 8;

/// The torus modulus `lcm(MODULUS_U, MODULUS_DR, PISANO_PERIOD_MOD_DR) = 360`.
pub const MODULUS_R: u64 = 360;

/// Number of `MODULUS_U`-blocks in `[1, MODULUS_R]`: `360 / 30 = 12`.
pub const LATTICE_LAYERS: u64 = MODULUS_R / MODULUS_U;

/// Cardinality of `R(MODULUS_R)`: `U30_CARDINALITY · LATTICE_LAYERS = 96`.
pub const R_CARDINALITY: usize = 96;

} // verus!
