//! Siamese prime generator pattern modulo 30.
//!
//! A Siamese pair is `(n² − 2, n² + 2)` with both members prime. Both must
//! be coprime to 30, which leaves exactly five generator residues
//! `n mod 30 ∈ {3, 9, 15, 21, 27}`, i.e. `n ≡ 3 (mod 6)`.
use crate::arithmetic::gcd;
use crate::parameters::MODULUS_U;
use crate::primes::{is_prime, lemma_not_coprime30_not_prime};
use crate::u30::{coprime30, lemma_coprime30_mod, lemma_filter_prefix, lemma_gcd30, lemma_square_mod30};
use vstd::arithmetic::div_mod::*;
use vstd::prelude::*;

verus! {

/// The five generator residues modulo 30.
pub const SIAMESE_GENERATOR_RESIDUES: [u64; 5] = [3, 9, 15, 21, 27];

/// The same residues in closed form `6k + 3`, `k ∈ {0, …, 4}`.
pub const SIAMESE_AS_6K_PLUS_3: [u64; 5] = [3, 9, 15, 21, 27];

/// Both `n² − 2` and `n² + 2`, reduced modulo 30, are coprime to 30.
pub open spec fn siamese_ok(n: u64) -> bool {
    let nsq = (n * n) % 30;
    let minus_two = if nsq >= 2 {
        nsq - 2
    } else {
        nsq + 30 - 2
    };
    let plus_two = (nsq + 2) % 30;
    coprime30(minus_two) && coprime30(plus_two)
}

/// The residues `0 ≤ n < 30`, in order, satisfying [`siamese_ok`].
pub open spec fn siamese_spec() -> Seq<u64> {
    Seq::new(30, |i: int| i as u64).filter(|n: u64| siamese_ok(n))
}

/// The sweep evaluates to the stated constant.
pub proof fn lemma_siamese_filter()
    ensures
        siamese_spec() == SIAMESE_GENERATOR_RESIDUES@,
{
    reveal_with_fuel(Seq::filter, 31);
    let s = Seq::new(30, |i: int| i as u64);
    assert(s =~= seq![
        0u64, 1, 2, 3, 4, 5, 6, 7, 8, 9, 10, 11, 12, 13, 14, 15, 16, 17, 18, 19, 20, 21, 22, 23,
        24, 25, 26, 27, 28, 29,
    ]);
    assert(siamese_spec() =~= SIAMESE_GENERATOR_RESIDUES@);
}

/// Sweep `n ∈ [0, 30)` keeping those where both `n² ± 2 (mod 30)` are
/// coprime to 30.
pub fn compute_siamese() -> (out: [u64; 5])
    ensures
        out@ == siamese_spec(),
{
    let mut out = [0u64; 5];
    let mut idx = 0usize;
    let mut n = 0u64;
    let ghost s = Seq::new(30, |i: int| i as u64);
    let ghost pred = |n: u64| siamese_ok(n);
    proof {
        lemma_siamese_filter();
        assert(s.take(0).filter(pred) =~= Seq::<u64>::empty()) by {
            reveal(Seq::filter);
        }
    }
    while n < MODULUS_U
        invariant
            0 <= n <= 30,
            s == Seq::new(30, |i: int| i as u64),
            idx == s.take(n as int).filter(pred).len(),
            s.filter(pred).len() == 5,
            forall|j: int| 0 <= j < idx ==> out[j] == s.take(n as int).filter(pred)[j],
            pred == (|n: u64| siamese_ok(n)),
        decreases 30 - n,
    {
        assert(n * n <= 900) by (nonlinear_arith)
            requires
                n <= 30,
        ;
        let nsq = (n * n) % MODULUS_U;
        // n² − 2 mod 30 (handle wrap)
        let minus_two = if nsq >= 2 {
            nsq - 2
        } else {
            nsq + MODULUS_U - 2
        };
        let plus_two = (nsq + 2) % MODULUS_U;
        proof {
            lemma_filter_prefix(s, pred, n as int);
            lemma_gcd30(minus_two as nat);
            lemma_gcd30(plus_two as nat);
            assert(s[n as int] == n);
        }
        let lower_coprime = gcd(minus_two, MODULUS_U) == 1;
        let upper_coprime = gcd(plus_two, MODULUS_U) == 1;
        if lower_coprime && upper_coprime {
            out[idx] = n;
            idx += 1;
        }
        n += 1;
    }
    proof {
        assert(s.take(30) =~= s);
        assert(out@ =~= siamese_spec());
    }
    out
}

/// `6k + 3` for `k ∈ {0, …, 4}`.
pub fn compute_6k_plus_3() -> (out: [u64; 5])
    ensures
        forall|k: int| 0 <= k < 5 ==> out[k] == 6 * k + 3,
{
    let mut out = [0u64; 5];
    let mut k = 0usize;
    while k < 5
        invariant
            0 <= k <= 5,
            forall|j: int| 0 <= j < k ==> out[j] == 6 * j + 3,
        decreases 5 - k,
    {
        out[k] = (6 * k as u64) + 3;
        k += 1;
    }
    out
}

/// Predicate: `n mod 30 ∈ {3, 9, 15, 21, 27}` — necessary condition for `n`
/// to generate a Siamese prime pair.
pub fn is_siamese_generator_candidate(n: u64) -> (b: bool)
    ensures
        b == SIAMESE_GENERATOR_RESIDUES@.contains(n % 30),
{
    let r = n % MODULUS_U;
    let mut i = 0usize;
    while i < 5
        invariant
            0 <= i <= 5,
            r == n % 30,
            forall|j: int| 0 <= j < i ==> SIAMESE_GENERATOR_RESIDUES[j] != r,
        decreases 5 - i,
    {
        if SIAMESE_GENERATOR_RESIDUES[i] == r {
            proof {
                assert(SIAMESE_GENERATOR_RESIDUES@[i as int] == r);
            }
            return true;
        }
        i += 1;
    }
    false
}

/// Equivalent characterization: `n mod 6 == 3`.
pub fn is_siamese_generator_via_mod6(n: u64) -> (b: bool)
    ensures
        b == (n % 6 == 3),
{
    n % 6 == 3
}

/// The residue test modulo 30 and the test modulo 6 agree on every `n`.
pub proof fn lemma_siamese_mod6(n: int)
    requires
        n >= 0,
    ensures
        SIAMESE_GENERATOR_RESIDUES@.contains((n % 30) as u64) == (n % 6 == 3),
{
    let r = n % 30;
    assert(n % 6 == r % 6) by {
        lemma_fundamental_div_mod(n, 30);
        lemma_mod_multiples_vanish(5 * (n / 30), r, 6);
    }
    if SIAMESE_GENERATOR_RESIDUES@.contains(r as u64) {
        let j = choose|j: int| 0 <= j < 5 && SIAMESE_GENERATOR_RESIDUES@[j] == r as u64;
        assert(r % 6 == 3);
    }
    if n % 6 == 3 {
        assert(0 <= r < 30);
        if r == 3 {
            assert(SIAMESE_GENERATOR_RESIDUES@[0] == 3);
        } else if r == 9 {
            assert(SIAMESE_GENERATOR_RESIDUES@[1] == 9);
        } else if r == 15 {
            assert(SIAMESE_GENERATOR_RESIDUES@[2] == 15);
        } else if r == 21 {
            assert(SIAMESE_GENERATOR_RESIDUES@[3] == 21);
        } else {
            assert(SIAMESE_GENERATOR_RESIDUES@[4] == 27);
        }
    }
}

/// **Necessary condition.** If `n ≥ 3` and both `n² − 2` and `n² + 2` are
/// prime, then `n mod 30 ∈ {3, 9, 15, 21, 27}`.
pub proof fn lemma_siamese_pairs_pass(n: int)
    requires
        n >= 3,
        is_prime(n * n - 2),
        is_prime(n * n + 2),
    ensures
        SIAMESE_GENERATOR_RESIDUES@.contains((n % 30) as u64),
{
    assert(n * n >= 9) by (nonlinear_arith)
        requires
            n >= 3,
    ;
    if !coprime30(n * n - 2) {
        lemma_not_coprime30_not_prime(n * n - 2);
    }
    if !coprime30(n * n + 2) {
        lemma_not_coprime30_not_prime(n * n + 2);
    }
    lemma_square_mod30(n);
    let sq = n * n;
    let r = n % 30;
    lemma_coprime30_mod(sq - 2);
    lemma_coprime30_mod(sq + 2);
    assert((sq - 2) % 30 == ((sq % 30) + 28) % 30) by {
        lemma_fundamental_div_mod(sq, 30);
        lemma_mod_multiples_vanish(sq / 30 - 1, (sq % 30) + 28, 30);
    }
    assert((sq + 2) % 30 == ((sq % 30) + 2) % 30) by {
        lemma_add_mod_noop(sq, 2, 30);
    }
    lemma_siamese_mod6(n);
    assert(0 <= r < 30);
    lemma_residue_square_table(r);
}

/// For each residue `r < 30`: if both `r² ± 2` are coprime to 30 modulo 30,
/// then `r ≡ 3 (mod 6)`.
proof fn lemma_residue_square_table(r: int)
    requires
        0 <= r < 30,
        coprime30(((r * r) % 30 + 28) % 30),
        coprime30(((r * r) % 30 + 2) % 30),
    ensures
        r % 6 == 3,
{
    assert(r % 2 == 1) by {
        if r % 2 == 0 {
            assert((r * r) % 2 == 0) by {
                lemma_mul_mod_noop_general(r, r, 2);
            }
            assert((r * r) % 30 % 2 == 0) by {
                lemma_mod_mod(r * r, 15, 2);
            }
        }
    }
    assert(r % 3 == 0) by {
        if r % 3 != 0 {
            lemma_mul_mod_noop_general(r, r, 3);
            assert((r * r) % 3 == 1) by {
                if r % 3 == 1 {
                    assert((r % 3) * (r % 3) == 1);
                } else {
                    assert((r % 3) * (r % 3) == 4);
                }
            }
            assert((r * r) % 30 % 3 == 1) by {
                lemma_mod_mod(r * r, 10, 3);
            }
        }
    }
}

} // verus!
