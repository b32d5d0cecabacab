# toroidal_prime_clock

The wheel-30 prime sieve and the residue structures built from two
parameters, `MODULUS_U = 30` and `NUMERAL_BASE = 10`, written in Verus with
their contracts proved.

- `src/`: the library. Highlights:
  - `sieve.rs`, `pi_function.rs`: π(N) from the wheel-30 sieve, proved equal
    to the prime count for every N whose table fits in memory, and
    π(N) = D₃₀(N) − C₃₀(N) + 2.
  - `u30.rs`, `r360.rs`, `u90.rs`, `units_z9.rs`, `atlas_correspondence.rs`:
    the residue sets and their tables, with closure and round-trip laws.
  - `fibonacci.rs`, `fibonacci_reciprocal.rs`: Pisano period 24 and the
    1/89 identity.
  - `integer.rs`, `rational.rs`, `elementary.rs`, `cauchy.rs`: exact
    arithmetic over `num-bigint` and `exp`/`ln` as Cauchy sequences;
    `convergence.rs`, `potential.rs` and `tails.rs` prove the moduli.
- `tests/`: the test suite.
- `app/`: a command-line program printing the validation reports.
