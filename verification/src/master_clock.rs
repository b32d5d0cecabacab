//! Master-Clock components `D(N)`, `TF(N)`, `RF(N)` of the identity
//! `π(N) = D(N) − TF(N) + RF(N) + 3`, as traits for implementations to
//! provide, with the constants the identity is stated with.
use crate::arithmetic::spec_gcd;
use crate::parameters::LATTICE_LAYERS;
use vstd::prelude::*;

verus! {

/// The derived Croft constant `χ = 5/2`, as `(numerator, denominator)`.
pub const CHI_DERIVED: (u64, u64) = (5, 2);

/// The fitted Croft constant `χ = 24184/10000`.
pub const CHI_FITTED: (u64, u64) = (24_184, 10_000);

/// `χ_derived − χ_fitted = 51/625`, in lowest terms.
pub const CHI_RESIDUAL: (i64, u64) = (51, 625);

/// The ratchet threshold `F_49 = 7,778,742,049`.
pub const F49: u64 = crate::fibonacci::F49;

/// The Resonant Volume `Ω = LATTICE_LAYERS · χ_fitted = 290208/10000`.
pub const OMEGA: (u64, u64) = (290_208, 10_000);

/// `Ω = LATTICE_LAYERS · χ_fitted`, numerator and denominator.
pub proof fn lemma_omega()
    ensures
        OMEGA.0 == LATTICE_LAYERS * CHI_FITTED.0,
        OMEGA.1 == CHI_FITTED.1,
{
}

/// `χ_derived − χ_fitted = 51/625` in lowest terms.
pub proof fn lemma_chi_residual()
    ensures
        (CHI_DERIVED.0 * CHI_FITTED.1 - CHI_FITTED.0 * CHI_DERIVED.1) * CHI_RESIDUAL.1 == CHI_RESIDUAL.0
            * (CHI_DERIVED.1 * CHI_FITTED.1),
        spec_gcd(51, 625) == 1,
{
    assert(spec_gcd(1, 0) == 1);
    assert(spec_gcd(12, 1) == 1);
    assert(spec_gcd(13, 12) == 1);
    assert(spec_gcd(51, 13) == 1);
    assert(spec_gcd(625, 51) == 1);
}

/// Placeholder for an exact rational approximation to a real quantity.
#[derive(Debug, Clone, Copy, PartialEq, Eq)]
pub struct RationalApprox {
    _placeholder: (),
}

impl RationalApprox {
    /// The empty placeholder.
    pub fn empty() -> (r: Self) {
        RationalApprox { _placeholder: () }
    }
}

/// A gap in the specification of a component.
#[derive(Debug, Clone, Copy, PartialEq, Eq, Structural)]
#[non_exhaustive]
pub enum SpecGap {
    /// `D(N)` has no closed-form definition.
    DNeedsDefinition,
    /// `TF(N)` has no closed-form definition.
    TfNeedsDefinition,
    /// The decay constant of `RF(N)` past `F_49` is not given.
    RfDecayConstantMissing,
    /// An exact encoding of the exponential in `RF(N)` is pending.
    ExponentialEncodingPending,
}

/// `D(N)`: the raw lattice tally.
pub trait LatticeTally {
    /// Computes `D(N)`, or the specification gap that prevents it.
    fn d(n: u64) -> Result<RationalApprox, SpecGap>;
}

/// `TF(N)`: the tension-force offset.
pub trait TensionForce {
    /// Computes `TF(N)`, or the specification gap that prevents it.
    fn tf(n: u64) -> Result<RationalApprox, SpecGap>;
}

/// `RF(N)`: resonant redundancy with the `F_49` ratchet.
pub trait ResonantRedundancy {
    /// Computes `RF(N)`, or the specification gap that prevents it.
    fn rf(n: u64) -> Result<RationalApprox, SpecGap>;
}

/// Implements every component as its specification gap.
#[derive(Debug, Clone, Copy, PartialEq, Eq, Default)]
pub struct UnimplementedMasterClock;

impl LatticeTally for UnimplementedMasterClock {
    fn d(n: u64) -> (r: Result<RationalApprox, SpecGap>)
        ensures
            r == Err::<RationalApprox, SpecGap>(SpecGap::DNeedsDefinition),
    {
        Err(SpecGap::DNeedsDefinition)
    }
}

impl TensionForce for UnimplementedMasterClock {
    fn tf(n: u64) -> (r: Result<RationalApprox, SpecGap>)
        ensures
            r == Err::<RationalApprox, SpecGap>(SpecGap::TfNeedsDefinition),
    {
        Err(SpecGap::TfNeedsDefinition)
    }
}

impl ResonantRedundancy for UnimplementedMasterClock {
    fn rf(n: u64) -> (r: Result<RationalApprox, SpecGap>)
        ensures
            n >= F49 ==> r == Err::<RationalApprox, SpecGap>(SpecGap::ExponentialEncodingPending),
            n < F49 ==> r == Err::<RationalApprox, SpecGap>(SpecGap::RfDecayConstantMissing),
    {
        if n >= F49 {
            Err(SpecGap::ExponentialEncodingPending)
        } else {
            Err(SpecGap::RfDecayConstantMissing)
        }
    }
}

} // verus!
