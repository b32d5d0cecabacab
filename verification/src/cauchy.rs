//! Cauchy sequences of rationals with an explicit modulus of convergence.
//!
//! A [`Cauchy`] describes its sequence: term `n` is [`Cauchy::nth`], and
//! [`Cauchy::modulus`] gives, for a tolerance `eps`, an index from which
//! any two terms lie within `eps` of each other (proved in `tails.rs`
//! wherever `modulus_proved` holds). [`Cauchy::approx`] is the term at
//! that index.
use crate::elementary::{
    atanh_doubled, atanh_partial_sum, exp_partial, exp_partial_sum, find_atanh_modulus,
    find_exp_modulus, lemma_atanh_modulus_eqv, lemma_atanh_positive_denominators,
    lemma_exp_modulus_eqv, lemma_exp_positive_denominators, lemma_sign_eqv, spec_atanh_modulus,
    spec_exp_modulus,
};
use crate::rational::{
    lemma_add_congruent, lemma_den_positive, lemma_div_congruent, lemma_eqv_transitive,
    lemma_mul_congruent, lemma_ops_keep_positive_denominator, lemma_sub_congruent, rat_abs,
    rat_add, rat_div, rat_eqv, rat_int, rat_mul, rat_sub, Rational,
};
use crate::convergence::cauchy_at;
use crate::tails::{lemma_cauchy_law, modulus_proved};
use vstd::prelude::*;

verus! {

/// A Cauchy sequence of rationals.
#[derive(Debug)]
pub enum Cauchy {
    /// The Taylor partial sums of `exp(x)`.
    Exp(Rational),
    /// The partial sums of `2 · atanh(t) = 2 · Σ t^{2k+1} / (2k+1)`.
    AtanhDoubled(Rational),
    /// A sequence times a rational scalar.
    Scaled(Box<Cauchy>, Rational),
    /// The termwise sum of two sequences.
    Sum(Box<Cauchy>, Box<Cauchy>),
    /// The termwise difference of two sequences.
    Difference(Box<Cauchy>, Box<Cauchy>),
}

impl Cauchy {
    /// A copy with the same terms, modulus and range.
    pub fn duplicate(&self) -> (r: Cauchy)
        ensures
            forall|k: nat| #[trigger] r.spec_nth(k) == self.spec_nth(k),
            forall|k: nat| #[trigger] r.nth_in_range(k) == self.nth_in_range(k),
            forall|eps: (int, int)| #[trigger] r.spec_modulus(eps) == self.spec_modulus(eps),
        decreases self,
    {
        match self {
            Cauchy::Exp(x) => Cauchy::Exp(x.duplicate()),
            Cauchy::AtanhDoubled(t) => Cauchy::AtanhDoubled(t.duplicate()),
            Cauchy::Scaled(c, s) => {
                let inner = (&**c).duplicate();
                let r = Cauchy::Scaled(Box::new(inner), s.duplicate());
                assert forall|k: nat| #[trigger] r.nth_in_range(k) == self.nth_in_range(k) by {
                    assert(inner.nth_in_range(k) == c.nth_in_range(k));
                }
                assert forall|k: nat| #[trigger] r.spec_nth(k) == self.spec_nth(k) by {
                    assert(inner.spec_nth(k) == c.spec_nth(k));
                }
                assert forall|e: (int, int)| #[trigger] r.spec_modulus(e) == self.spec_modulus(e) by {
                    assert(inner.spec_modulus(rat_div(e, rat_abs(s@))) == c.spec_modulus(
                        rat_div(e, rat_abs(s@)),
                    ));
                }
                r
            },
            Cauchy::Sum(a, b) => {
                let x = (&**a).duplicate();
                let y = (&**b).duplicate();
                let r = Cauchy::Sum(Box::new(x), Box::new(y));
                assert forall|k: nat| #[trigger] r.nth_in_range(k) == self.nth_in_range(k) by {
                    assert(x.nth_in_range(k) == a.nth_in_range(k));
                    assert(y.nth_in_range(k) == b.nth_in_range(k));
                }
                assert forall|k: nat| #[trigger] r.spec_nth(k) == self.spec_nth(k) by {
                    assert(x.spec_nth(k) == a.spec_nth(k));
                    assert(y.spec_nth(k) == b.spec_nth(k));
                }
                assert forall|e: (int, int)| #[trigger] r.spec_modulus(e) == self.spec_modulus(e) by {
                    assert(x.spec_modulus(half(e)) == a.spec_modulus(half(e)));
                    assert(y.spec_modulus(half(e)) == b.spec_modulus(half(e)));
                }
                r
            },
            Cauchy::Difference(a, b) => {
                let x = (&**a).duplicate();
                let y = (&**b).duplicate();
                let r = Cauchy::Difference(Box::new(x), Box::new(y));
                assert forall|k: nat| #[trigger] r.nth_in_range(k) == self.nth_in_range(k) by {
                    assert(x.nth_in_range(k) == a.nth_in_range(k));
                    assert(y.nth_in_range(k) == b.nth_in_range(k));
                }
                assert forall|k: nat| #[trigger] r.spec_nth(k) == self.spec_nth(k) by {
                    assert(x.spec_nth(k) == a.spec_nth(k));
                    assert(y.spec_nth(k) == b.spec_nth(k));
                }
                assert forall|e: (int, int)| #[trigger] r.spec_modulus(e) == self.spec_modulus(e) by {
                    assert(x.spec_modulus(half(e)) == a.spec_modulus(half(e)));
                    assert(y.spec_modulus(half(e)) == b.spec_modulus(half(e)));
                }
                r
            },
        }
    }
}

impl Clone for Cauchy {
    /// A copy with the same terms; see [`Cauchy::duplicate`].
    fn clone(&self) -> (r: Self) {
        self.duplicate()
    }
}

/// `eps / 2`.
pub open spec fn half(eps: (int, int)) -> (int, int) {
    rat_div(eps, rat_int(2))
}

impl Cauchy {
    /// Term `n` of the sequence.
    pub open spec fn spec_nth(self, n: nat) -> (int, int)
        decreases self,
    {
        match self {
            Cauchy::Exp(x) => exp_partial(x@, n),
            Cauchy::AtanhDoubled(t) => atanh_doubled(t@, n),
            Cauchy::Scaled(inner, s) => rat_mul(inner.spec_nth(n), s@),
            Cauchy::Sum(a, b) => rat_add(a.spec_nth(n), b.spec_nth(n)),
            Cauchy::Difference(a, b) => rat_sub(a.spec_nth(n), b.spec_nth(n)),
        }
    }

    /// Term `n` is computable with machine integers: the atanh series
    /// needs `2n + 1` to fit in `u64`.
    pub open spec fn nth_in_range(self, n: nat) -> bool
        decreases self,
    {
        match self {
            Cauchy::Exp(_) => true,
            Cauchy::AtanhDoubled(_) => n < 0x8000_0000_0000_0000,
            Cauchy::Scaled(inner, _) => inner.nth_in_range(n),
            Cauchy::Sum(a, b) => a.nth_in_range(n) && b.nth_in_range(n),
            Cauchy::Difference(a, b) => a.nth_in_range(n) && b.nth_in_range(n),
        }
    }

    /// The modulus at tolerance `eps`. A scaled sequence asks its inner
    /// sequence for `eps / |s|` (and is constant `0` for `s = 0`); a sum or
    /// difference asks both parts for `eps / 2` and takes the larger index.
    pub open spec fn spec_modulus(self, eps: (int, int)) -> nat
        decreases self,
    {
        match self {
            Cauchy::Exp(x) => spec_exp_modulus(x@, eps),
            Cauchy::AtanhDoubled(t) => spec_atanh_modulus(t@, eps),
            Cauchy::Scaled(inner, s) => if s@.0 == 0 {
                0
            } else {
                inner.spec_modulus(rat_div(eps, rat_abs(s@)))
            },
            Cauchy::Sum(a, b) => {
                let ma = a.spec_modulus(half(eps));
                let mb = b.spec_modulus(half(eps));
                if ma >= mb {
                    ma
                } else {
                    mb
                }
            },
            Cauchy::Difference(a, b) => {
                let ma = a.spec_modulus(half(eps));
                let mb = b.spec_modulus(half(eps));
                if ma >= mb {
                    ma
                } else {
                    mb
                }
            },
        }
    }

    /// Terms keep positive denominators.
    pub proof fn lemma_nth_positive(self, n: nat)
        ensures
            self.spec_nth(n).1 > 0,
        decreases self,
    {
        match self {
            Cauchy::Exp(x) => {
                lemma_den_positive(x);
                lemma_exp_positive_denominators(x@, n);
            },
            Cauchy::AtanhDoubled(t) => {
                lemma_den_positive(t);
                lemma_atanh_positive_denominators(t@, n);
            },
            Cauchy::Scaled(inner, s) => {
                inner.lemma_nth_positive(n);
                lemma_den_positive(s);
                lemma_ops_keep_positive_denominator(inner.spec_nth(n), s@);
            },
            Cauchy::Sum(a, b) => {
                a.lemma_nth_positive(n);
                b.lemma_nth_positive(n);
                lemma_ops_keep_positive_denominator(a.spec_nth(n), b.spec_nth(n));
            },
            Cauchy::Difference(a, b) => {
                a.lemma_nth_positive(n);
                b.lemma_nth_positive(n);
                lemma_ops_keep_positive_denominator(a.spec_nth(n), b.spec_nth(n));
            },
        }
    }

    /// The modulus depends only on the value of the tolerance.
    pub proof fn lemma_modulus_eqv(self, eps: (int, int), eps2: (int, int))
        requires
            eps.1 > 0,
            eps2.1 > 0,
            rat_eqv(eps, eps2),
        ensures
            self.spec_modulus(eps) == self.spec_modulus(eps2),
        decreases self,
    {
        match self {
            Cauchy::Exp(x) => {
                lemma_den_positive(x);
                lemma_exp_modulus_eqv(x@, eps, eps2);
            },
            Cauchy::AtanhDoubled(t) => {
                lemma_den_positive(t);
                lemma_atanh_modulus_eqv(t@, eps, eps2);
            },
            Cauchy::Scaled(inner, s) => {
                if s@.0 != 0 {
                    lemma_den_positive(s);
                    let a = rat_abs(s@);
                    lemma_div_congruent(eps, eps2, a, a);
                    lemma_ops_keep_positive_denominator(eps, a);
                    lemma_ops_keep_positive_denominator(eps2, a);
                    inner.lemma_modulus_eqv(rat_div(eps, a), rat_div(eps2, a));
                }
            },
            Cauchy::Sum(a, b) => {
                lemma_div_congruent(eps, eps2, rat_int(2), rat_int(2));
                lemma_ops_keep_positive_denominator(eps, rat_int(2));
                lemma_ops_keep_positive_denominator(eps2, rat_int(2));
                a.lemma_modulus_eqv(half(eps), half(eps2));
                b.lemma_modulus_eqv(half(eps), half(eps2));
            },
            Cauchy::Difference(a, b) => {
                lemma_div_congruent(eps, eps2, rat_int(2), rat_int(2));
                lemma_ops_keep_positive_denominator(eps, rat_int(2));
                lemma_ops_keep_positive_denominator(eps2, rat_int(2));
                a.lemma_modulus_eqv(half(eps), half(eps2));
                b.lemma_modulus_eqv(half(eps), half(eps2));
            },
        }
    }

    /// Term `n` of the sequence.
    pub fn nth(&self, n: u64) -> (r: Rational)
        requires
            self.nth_in_range(n as nat),
        ensures
            rat_eqv(r@, self.spec_nth(n as nat)),
            r@.1 > 0,
        decreases self,
    {
        match self {
            Cauchy::Exp(x) => exp_partial_sum(x, n),
            Cauchy::AtanhDoubled(t) => atanh_partial_sum(t, n),
            Cauchy::Scaled(inner, s) => {
                let v = inner.nth(n);
                let r = v.mul(s);
                proof {
                    lemma_den_positive(*s);
                    inner.lemma_nth_positive(n as nat);
                    lemma_mul_congruent(v@, inner.spec_nth(n as nat), s@, s@);
                    lemma_ops_keep_positive_denominator(v@, s@);
                    lemma_eqv_transitive(r@, rat_mul(v@, s@), self.spec_nth(n as nat));
                }
                r
            },
            Cauchy::Sum(a, b) => {
                let va = a.nth(n);
                let vb = b.nth(n);
                let r = va.add(&vb);
                proof {
                    a.lemma_nth_positive(n as nat);
                    b.lemma_nth_positive(n as nat);
                    lemma_add_congruent(va@, a.spec_nth(n as nat), vb@, b.spec_nth(n as nat));
                    lemma_ops_keep_positive_denominator(va@, vb@);
                    lemma_eqv_transitive(r@, rat_add(va@, vb@), self.spec_nth(n as nat));
                }
                r
            },
            Cauchy::Difference(a, b) => {
                let va = a.nth(n);
                let vb = b.nth(n);
                let r = va.sub(&vb);
                proof {
                    a.lemma_nth_positive(n as nat);
                    b.lemma_nth_positive(n as nat);
                    lemma_sub_congruent(va@, a.spec_nth(n as nat), vb@, b.spec_nth(n as nat));
                    lemma_ops_keep_positive_denominator(va@, vb@);
                    lemma_eqv_transitive(r@, rat_sub(va@, vb@), self.spec_nth(n as nat));
                }
                r
            },
        }
    }

    /// The modulus at tolerance `eps`.
    pub fn modulus(&self, eps: &Rational) -> (r: u64)
        ensures
            r == self.spec_modulus(eps@),
        decreases self,
    {
        proof {
            lemma_den_positive(*eps);
        }
        match self {
            Cauchy::Exp(x) => find_exp_modulus(x, eps),
            Cauchy::AtanhDoubled(t) => find_atanh_modulus(t, eps),
            Cauchy::Scaled(inner, s) => {
                let abs_s = s.abs();
                proof {
                    lemma_den_positive(*s);
                }
                if abs_s.signum() == 0 {
                    0
                } else {
                    let scaled = match eps.checked_div(&abs_s) {
                        Some(q) => q,
                        None => Rational::zero(),
                    };
                    proof {
                        lemma_ops_keep_positive_denominator(eps@, abs_s@);
                        inner.lemma_modulus_eqv(scaled@, rat_div(eps@, abs_s@));
                    }
                    inner.modulus(&scaled)
                }
            },
            Cauchy::Sum(a, b) => {
                let two = Rational::from_int(2);
                let h = match eps.checked_div(&two) {
                    Some(q) => q,
                    None => Rational::zero(),
                };
                proof {
                    lemma_ops_keep_positive_denominator(eps@, two@);
                    a.lemma_modulus_eqv(h@, half(eps@));
                    b.lemma_modulus_eqv(h@, half(eps@));
                }
                let ma = a.modulus(&h);
                let mb = b.modulus(&h);
                if ma >= mb {
                    ma
                } else {
                    mb
                }
            },
            Cauchy::Difference(a, b) => {
                let two = Rational::from_int(2);
                let h = match eps.checked_div(&two) {
                    Some(q) => q,
                    None => Rational::zero(),
                };
                proof {
                    lemma_ops_keep_positive_denominator(eps@, two@);
                    a.lemma_modulus_eqv(h@, half(eps@));
                    b.lemma_modulus_eqv(h@, half(eps@));
                }
                let ma = a.modulus(&h);
                let mb = b.modulus(&h);
                if ma >= mb {
                    ma
                } else {
                    mb
                }
            },
        }
    }

    /// The term at the modulus for `eps`. Where the convergence law is
    /// proved for this sequence at `eps`, every later term lies within
    /// `eps` of it (and of each other).
    pub fn approx(&self, eps: &Rational) -> (r: Rational)
        requires
            self.nth_in_range(self.spec_modulus(eps@)),
        ensures
            rat_eqv(r@, self.spec_nth(self.spec_modulus(eps@))),
            r@.1 > 0,
            eps@.0 > 0 && modulus_proved(*self, eps@) ==> cauchy_at(*self, eps@),
    {
        proof {
            lemma_den_positive(*eps);
            if eps@.0 > 0 && modulus_proved(*self, eps@) {
                lemma_cauchy_law(*self, eps@);
            }
        }
        let n = self.modulus(eps);
        self.nth(n)
    }

    /// The termwise sum.
    pub fn add(self, other: Cauchy) -> (r: Cauchy)
        ensures
            r == Cauchy::Sum(Box::new(self), Box::new(other)),
    {
        Cauchy::Sum(Box::new(self), Box::new(other))
    }

    /// The termwise difference.
    pub fn sub(self, other: Cauchy) -> (r: Cauchy)
        ensures
            r == Cauchy::Difference(Box::new(self), Box::new(other)),
    {
        Cauchy::Difference(Box::new(self), Box::new(other))
    }
}

} // verus!
