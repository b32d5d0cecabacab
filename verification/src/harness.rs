//! Evaluation of the Master-Clock formula `D(N) − TF(N) + RF(N) + 3` at
//! the tabulated decimal powers, compared with the literature and the
//! claimed residuals.
use crate::fibonacci_reciprocal::{lemma_pow10_monotone, lemma_pow10_values, spec_pow10};
use crate::li::{
    lookup_gary_claim, lookup_reference, spec_lookup_gary_claim, spec_lookup_reference,
    GaryClaimRow, ReferenceRow,
};
use crate::master_clock::{
    LatticeTally, RationalApprox, ResonantRedundancy, SpecGap, TensionForce, UnimplementedMasterClock,
};
use vstd::prelude::*;

verus! {

/// Outcome of evaluating the formula at one `N`.
#[derive(Debug, Clone, Copy, PartialEq, Eq, Structural)]
pub enum Outcome {
    /// The formula evaluated to this prediction of `π(N)`.
    Predicted(u64),
    /// A component reported this specification gap.
    SpecGap(SpecGap),
}

/// One row of the comparison table.
#[derive(Debug, Clone, Copy, PartialEq, Eq, Structural)]
pub struct ComparisonRow {
    /// `log₁₀(N)`.
    pub n_log10: u32,
    /// Literature `π(N)`.
    pub pi_true: u64,
    /// Literature `round(Li(N) − π(N))`.
    pub li_minus_pi_literature: i64,
    /// Claimed Master-Clock residual.
    pub master_clock_delta_gary: i64,
    /// Outcome of the formula.
    pub outcome: Outcome,
    /// `prediction − π(N)`, when the formula evaluated.
    pub observed_delta: Option<i64>,
    /// `|observed_delta| = |claimed residual|`; `false` without a delta.
    pub matches_gary: bool,
}

/// `|x|` over the integers.
pub open spec fn abs_int(x: int) -> int {
    if x < 0 {
        -x
    } else {
        x
    }
}

/// The row for the literature row `lit`, the claimed row `gary` and the
/// formula's outcome.
pub open spec fn spec_comparison_row(
    n_log10: u32,
    lit: ReferenceRow,
    gary: GaryClaimRow,
    outcome: Outcome,
) -> ComparisonRow {
    let observed: Option<i64> = match outcome {
        Outcome::Predicted(p) => Some((p - lit.pi_n) as i64),
        Outcome::SpecGap(_) => None,
    };
    ComparisonRow {
        n_log10,
        pi_true: lit.pi_n,
        li_minus_pi_literature: lit.li_minus_pi_literature,
        master_clock_delta_gary: gary.master_clock_delta_gary,
        outcome,
        observed_delta: observed,
        matches_gary: match observed {
            Some(d) => abs_int(d as int) == abs_int(gary.master_clock_delta_gary as int),
            None => false,
        },
    }
}

/// What the formula can yield: the prediction `0 − 0 + 0 + 3` when every
/// component evaluates (their values stand at 0 until they carry one), or
/// the first gap a component reports.
pub open spec fn possible_outcome(o: Outcome) -> bool {
    o == Outcome::Predicted(3) || o is SpecGap
}

/// Builds the comparison row from the two table rows and the formula's
/// outcome.
pub fn comparison_row(n_log10: u32, lit: ReferenceRow, gary: GaryClaimRow, outcome: Outcome) -> (r:
    ComparisonRow)
    requires
        lit.pi_n <= i64::MAX,
        outcome matches Outcome::Predicted(p) ==> p <= i64::MAX,
        gary.master_clock_delta_gary > i64::MIN,
    ensures
        r == spec_comparison_row(n_log10, lit, gary, outcome),
{
    let observed_delta: Option<i64> = match outcome {
        Outcome::Predicted(prediction) => {
            let pi_true_i = lit.pi_n as i64;
            let predicted_i = prediction as i64;
            Some(predicted_i - pi_true_i)
        },
        Outcome::SpecGap(_) => None,
    };
    let matches_gary = match observed_delta {
        Some(d) => {
            let da: i64 = if d < 0 {
                -d
            } else {
                d
            };
            let g = gary.master_clock_delta_gary;
            let ga: i64 = if g < 0 {
                -g
            } else {
                g
            };
            da == ga
        },
        None => false,
    };
    ComparisonRow {
        n_log10,
        pi_true: lit.pi_n,
        li_minus_pi_literature: lit.li_minus_pi_literature,
        master_clock_delta_gary: gary.master_clock_delta_gary,
        outcome,
        observed_delta,
        matches_gary,
    }
}

/// The formula's outcome from the three components' results: the first
/// gap in the order `D`, `TF`, `RF`, else the prediction `0 − 0 + 0 + 3`
/// (an evaluated component stands at 0 until it carries a value).
pub open spec fn formula_outcome(
    d: Result<RationalApprox, SpecGap>,
    tf: Result<RationalApprox, SpecGap>,
    rf: Result<RationalApprox, SpecGap>,
) -> Outcome {
    match d {
        Err(g) => Outcome::SpecGap(g),
        Ok(_) => match tf {
            Err(g) => Outcome::SpecGap(g),
            Ok(_) => match rf {
                Err(g) => Outcome::SpecGap(g),
                Ok(_) => Outcome::Predicted(3),
            },
        },
    }
}

/// The components' results that `T` may give at `n`: `TF` is consulted
/// only after `D` evaluated, `RF` only after both did.
pub open spec fn component_results<T: LatticeTally + TensionForce + ResonantRedundancy>(
    n: u64,
    d: Result<RationalApprox, SpecGap>,
    tf: Result<RationalApprox, SpecGap>,
    rf: Result<RationalApprox, SpecGap>,
) -> bool {
    &&& call_ensures(T::d, (n,), d)
    &&& d is Ok ==> call_ensures(T::tf, (n,), tf)
    &&& d is Ok && tf is Ok ==> call_ensures(T::rf, (n,), rf)
}

/// Evaluates `D(N) − TF(N) + RF(N) + 3`, stopping at the first component
/// that reports a gap.
fn evaluate_formula<T>(n: u64) -> (o: Outcome) where
    T: LatticeTally + TensionForce + ResonantRedundancy,

    ensures
        exists|d: Result<RationalApprox, SpecGap>, tf: Result<RationalApprox, SpecGap>,
            rf: Result<RationalApprox, SpecGap>|
            component_results::<T>(n, d, tf, rf) && o == #[trigger] formula_outcome(d, tf, rf),
{
    let rd = T::d(n);
    let d = match rd {
        Ok(_) => 0i128,
        Err(g) => {
            assert(component_results::<T>(n, rd, rd, rd));
            assert(Outcome::SpecGap(g) == formula_outcome(rd, rd, rd));
            return Outcome::SpecGap(g);
        },
    };
    let rt = T::tf(n);
    let tf = match rt {
        Ok(_) => 0i128,
        Err(g) => {
            assert(component_results::<T>(n, rd, rt, rt));
            assert(Outcome::SpecGap(g) == formula_outcome(rd, rt, rt));
            return Outcome::SpecGap(g);
        },
    };
    let rr = T::rf(n);
    let rf = match rr {
        Ok(_) => 0i128,
        Err(g) => {
            assert(component_results::<T>(n, rd, rt, rr));
            assert(Outcome::SpecGap(g) == formula_outcome(rd, rt, rr));
            return Outcome::SpecGap(g);
        },
    };
    let predicted = d - tf + rf + 3;
    if predicted < 0 {
        return Outcome::SpecGap(SpecGap::DNeedsDefinition);
    }
    assert(component_results::<T>(n, rd, rt, rr));
    assert(Outcome::Predicted(predicted as u64) == formula_outcome(rd, rt, rr));
    Outcome::Predicted(predicted as u64)
}

/// `10ⁿ` as a `u64`, for `n ≤ 19`.
pub fn pow10(n: u32) -> (p: u64)
    requires
        n <= 19,
    ensures
        p == spec_pow10(n as nat),
{
    proof {
        lemma_pow10_values();
    }
    let mut out: u64 = 1;
    let mut i: u32 = 0;
    while i < n
        invariant
            i <= n <= 19,
            out == spec_pow10(i as nat),
        decreases n - i,
    {
        proof {
            lemma_pow10_values();
            lemma_pow10_monotone((i + 1) as nat, 19);
            assert(spec_pow10((i + 1) as nat) == 10 * spec_pow10(i as nat));
            assert(10 * out <= 10_000_000_000_000_000_000);
        }
        out = out * 10;
        i = i + 1;
    }
    out
}

/// Evaluates the formula for `T` at `N = 10^n_log10` and compares it with
/// the literature and the claimed residual; `None` unless both tables
/// have a row at `n_log10`.
pub fn evaluate<T>(n_log10: u32) -> (r: Option<ComparisonRow>) where
    T: LatticeTally + TensionForce + ResonantRedundancy,

    ensures
        (spec_lookup_reference(n_log10) is Some && spec_lookup_gary_claim(n_log10) is Some)
            <==> r is Some,
        r matches Some(row) ==> possible_outcome(row.outcome) && row == spec_comparison_row(
            n_log10,
            spec_lookup_reference(n_log10).unwrap(),
            spec_lookup_gary_claim(n_log10).unwrap(),
            row.outcome,
        ),
        r matches Some(row) ==> exists|d: Result<RationalApprox, SpecGap>,
            tf: Result<RationalApprox, SpecGap>, rf: Result<RationalApprox, SpecGap>|
            component_results::<T>(spec_pow10(n_log10 as nat) as u64, d, tf, rf) && row.outcome
                == #[trigger] formula_outcome(d, tf, rf),
{
    let lit: ReferenceRow = match lookup_reference(n_log10) {
        Some(l) => l,
        None => {
            return None;
        },
    };
    let gary: GaryClaimRow = match lookup_gary_claim(n_log10) {
        Some(g) => g,
        None => {
            return None;
        },
    };
    let n = pow10(n_log10);
    assert(n == spec_pow10(n_log10 as nat) as u64);
    let outcome = evaluate_formula::<T>(n);
    Some(comparison_row(n_log10, lit, gary, outcome))
}

/// The row used when neither table has a row at `n_log10`.
fn empty_row(n_log10: u32) -> (r: ComparisonRow)
    ensures
        r == (ComparisonRow {
            n_log10,
            pi_true: 0,
            li_minus_pi_literature: 0,
            master_clock_delta_gary: 0,
            outcome: Outcome::SpecGap(SpecGap::DNeedsDefinition),
            observed_delta: None,
            matches_gary: false,
        }),
{
    ComparisonRow {
        n_log10,
        pi_true: 0,
        li_minus_pi_literature: 0,
        master_clock_delta_gary: 0,
        outcome: Outcome::SpecGap(SpecGap::DNeedsDefinition),
        observed_delta: None,
        matches_gary: false,
    }
}

/// Runs the harness for [`UnimplementedMasterClock`] at `N = 10¹⁰, 10¹¹,
/// 10¹²`.
pub fn baseline_against_unimplemented() -> (rows: [ComparisonRow; 3])
    ensures
        forall|i: int|
            0 <= i < 3 ==> possible_outcome(#[trigger] rows[i].outcome) && rows[i]
                == spec_comparison_row(
                (10 + i) as u32,
                spec_lookup_reference((10 + i) as u32).unwrap(),
                spec_lookup_gary_claim((10 + i) as u32).unwrap(),
                rows[i].outcome,
            ),
        forall|i: int|
            0 <= i < 3 ==> #[trigger] rows[i].outcome == Outcome::SpecGap(SpecGap::DNeedsDefinition),
{
    let n10 = match evaluate::<UnimplementedMasterClock>(10) {
        Some(r) => r,
        None => empty_row(10),
    };
    let n11 = match evaluate::<UnimplementedMasterClock>(11) {
        Some(r) => r,
        None => empty_row(11),
    };
    let n12 = match evaluate::<UnimplementedMasterClock>(12) {
        Some(r) => r,
        None => empty_row(12),
    };
    let rows = [n10, n11, n12];
    assert(rows[0] == n10 && rows[1] == n11 && rows[2] == n12);
    rows
}

} // verus!
