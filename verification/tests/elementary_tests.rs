use num_bigint::BigInt;
use num_traits::ToPrimitive;
use toroidal_prime_clock::cauchy::Cauchy;
use toroidal_prime_clock::elementary::{
    ceil_to_u64, eml, exp, find_atanh_modulus, find_exp_modulus, i64_from_u64_saturating, ln,
    u32_from_u64_saturating, ElementaryError,
};
use toroidal_prime_clock::integer::Int;
use toroidal_prime_clock::rational::Rational;

fn r(n: i64, d: i64) -> Rational {
    Rational::new_i64(n, d).unwrap()
}

fn big(i: &Int) -> BigInt {
    BigInt::from_signed_bytes_le(&i.to_signed_bytes_le())
}

fn to_f64(q: &Rational) -> f64 {
    big(q.numer()).to_f64().unwrap() / big(q.denom()).to_f64().unwrap()
}

fn close_to_f64(actual: &Rational, expected: f64, tol: f64) -> bool {
    (to_f64(actual) - expected).abs() < tol
}

#[test]
fn exp_zero_is_one() {
    let e0 = exp(Rational::zero());
    assert_eq!(e0.approx(&r(1, 1_000_000)), Rational::one());
}

#[test]
fn exp_one_approximates_e() {
    let e1 = exp(Rational::one());
    let approx = e1.approx(&r(1, 1_000_000));
    assert!(close_to_f64(&approx, 2.718_281_828_459_045_f64, 1e-6));
}

#[test]
fn exp_half_approximates_sqrt_e() {
    let e_half = exp(r(1, 2));
    let approx = e_half.approx(&r(1, 1_000_000));
    assert!(close_to_f64(&approx, 1.648_721_270_700_128_f64, 1e-6));
}

#[test]
fn exp_negative_argument() {
    let em1 = exp(r(-1, 1));
    let approx = em1.approx(&r(1, 1_000_000));
    assert!(close_to_f64(&approx, 0.367_879_441_171_442_3_f64, 1e-6));
}

#[test]
fn ln_of_one_is_zero() {
    let l1 = ln(Rational::one()).unwrap();
    let approx = l1.approx(&r(1, 1_000_000));
    assert_eq!(approx, Rational::zero());
}

#[test]
fn ln_of_two() {
    let l2 = ln(r(2, 1)).unwrap();
    let approx = l2.approx(&r(1, 1_000_000));
    assert!(close_to_f64(&approx, 0.693_147_180_559_945_3_f64, 1e-6));
}

#[test]
fn ln_of_e_is_one() {
    let l = ln(r(19, 7)).unwrap();
    let approx = l.approx(&r(1, 1_000_000));
    let f = to_f64(&approx);
    let expected = (19.0_f64 / 7.0).ln();
    assert!((f - expected).abs() < 1e-6);
}

#[test]
fn ln_of_zero_is_error() {
    assert!(matches!(ln(Rational::zero()), Err(ElementaryError::NonPositiveLog(_))));
}

#[test]
fn ln_of_negative_is_error() {
    assert!(matches!(ln(r(-3, 4)), Err(ElementaryError::NonPositiveLog(_))));
}

#[test]
fn eml_basic() {
    let v = eml(Rational::zero(), Rational::one()).unwrap();
    let approx = v.approx(&r(1, 1_000_000));
    assert_eq!(approx, Rational::one());
}

#[test]
fn eml_one_one() {
    let v = eml(Rational::one(), Rational::one()).unwrap();
    let approx = v.approx(&r(1, 1_000_000));
    assert!(close_to_f64(&approx, 2.718_281_828_459_045_f64, 1e-5));
}

#[test]
fn eml_decomposes_exp() {
    let x = r(3, 4);
    let direct = exp(x.duplicate()).approx(&r(1, 100_000));
    let via_eml = eml(x, Rational::one()).unwrap().approx(&r(1, 100_000));
    let d = to_f64(&direct);
    let v = to_f64(&via_eml);
    assert!((d - v).abs() < 1e-3);
}

#[test]
fn eml_decomposes_ln() {
    let x = r(7, 5);
    let direct_f = to_f64(&x).ln();
    let direct = ln(x.duplicate()).unwrap().approx(&r(1, 100_000));
    let direct_d = to_f64(&direct);
    assert!((direct_d - direct_f).abs() < 1e-4);
}

#[test]
fn eml_nonpositive_y_is_error() {
    assert!(matches!(
        eml(Rational::one(), Rational::zero()),
        Err(ElementaryError::NonPositiveLog(_))
    ));
}

#[test]
fn exp_modulus_is_reasonable() {
    let n = find_exp_modulus(&Rational::one(), &r(1, 1_000_000));
    assert!(n < 50);
}

#[test]
fn ln_modulus_is_reasonable() {
    let l = ln(r(2, 1)).unwrap();
    let n = l.modulus(&r(1, 1_000_000));
    assert!(n < 100);
}

// ─── further cases ───────────────────────────────────────────────────

#[test]
fn exp_modulus_exact_values() {
    // Bound after N + 1 terms at x = 1: 3 / (N+1)!; first below 1e-6 at N = 9.
    assert_eq!(find_exp_modulus(&Rational::one(), &r(1, 1_000_000)), 9);
    assert_eq!(find_exp_modulus(&Rational::zero(), &r(1, 10)), 0);
    assert_eq!(find_exp_modulus(&Rational::one(), &Rational::zero()), u64::MAX);
    assert_eq!(find_exp_modulus(&Rational::one(), &r(-1, 2)), u64::MAX);
}

#[test]
fn atanh_modulus_edge_cases() {
    assert_eq!(find_atanh_modulus(&Rational::zero(), &r(1, 10)), 0);
    assert_eq!(find_atanh_modulus(&Rational::one(), &r(1, 10)), u64::MAX);
    assert_eq!(find_atanh_modulus(&r(1, 3), &Rational::zero()), u64::MAX);
    let n = find_atanh_modulus(&r(1, 3), &r(1, 1_000_000));
    assert!(n > 0 && n < 10);
}

#[test]
fn partial_sums_are_exact() {
    // Σ_{k=0}^{3} 1/k! = 8/3.
    assert_eq!(exp(Rational::one()).nth(3), r(8, 3));
    assert_eq!(exp(r(2, 1)).nth(2), r(5, 1));
    // 2 · (1/3 + 1/81) = 56/81.
    assert_eq!(Cauchy::AtanhDoubled(r(1, 3)).nth(1), r(56, 81));
}

#[test]
fn ln_reduction_shapes() {
    match ln(r(8, 1)).unwrap() {
        Cauchy::Sum(a, b) => {
            assert!(matches!(*a, Cauchy::Scaled(_, ref s) if *s == r(3, 1)));
            assert!(matches!(*b, Cauchy::AtanhDoubled(ref t) if *t == Rational::zero()));
        }
        _ => panic!("ln(8) must be 3 · ln 2 + ln 1"),
    }
    match ln(r(3, 2)).unwrap() {
        Cauchy::AtanhDoubled(t) => assert_eq!(t, r(1, 5)),
        _ => panic!("ln(3/2) needs no power of two"),
    }
    match ln(r(1, 4)).unwrap() {
        Cauchy::Sum(a, _) => assert!(matches!(*a, Cauchy::Scaled(_, ref s) if *s == r(-2, 1))),
        _ => panic!("ln(1/4) must be −2 · ln 2 + ln 1"),
    }
}

#[test]
fn rational_arithmetic_is_exact_and_reduced() {
    assert_eq!(r(2, 4), r(1, 2));
    assert_eq!(r(3, -6), r(-1, 2));
    assert!(Rational::new_i64(1, 0).is_none());
    assert_eq!(r(1, 2).add(&r(1, 3)), r(5, 6));
    assert_eq!(r(1, 2).sub(&r(1, 3)), r(1, 6));
    assert_eq!(r(2, 3).mul(&r(9, 4)), r(3, 2));
    assert_eq!(r(2, 3).checked_div(&r(4, 9)), Some(r(3, 2)));
    assert!(r(2, 3).checked_div(&Rational::zero()).is_none());
    assert_eq!(r(-2, 3).abs(), r(2, 3));
    assert_eq!(r(-2, 3).signum(), -1);
    assert_eq!(r(2, 3).pow_u32(3), r(8, 27));
    assert!(r(1, 3).lt(&r(1, 2)));
    assert!(!r(1, 2).lt(&r(1, 2)));
    let huge = Rational::from_int(i64::MAX).mul(&Rational::from_int(i64::MAX));
    assert_eq!(huge.checked_div(&Rational::from_int(i64::MAX)), Some(Rational::from_int(i64::MAX)));
}

#[test]
fn ceilings_and_saturation() {
    assert_eq!(ceil_to_u64(&r(7, 2)), 4);
    assert_eq!(ceil_to_u64(&r(4, 1)), 4);
    assert_eq!(ceil_to_u64(&Rational::zero()), 0);
    let big_value = Rational::from_int(i64::MAX).mul(&Rational::from_int(4));
    assert_eq!(ceil_to_u64(&big_value), u64::MAX);
    assert_eq!(i64_from_u64_saturating(5), 5);
    assert_eq!(i64_from_u64_saturating(u64::MAX), i64::MAX);
    assert_eq!(u32_from_u64_saturating(7), 7);
    assert_eq!(u32_from_u64_saturating(1 << 40), u32::MAX);
}

#[test]
fn integers_round_trip_through_bytes() {
    let a = Int::from_i64(-1125);
    assert_eq!(a.to_signed_bytes_le(), vec![155, 251]);
    let b = Int::from_i64(1 << 40);
    let p = a.mul(&b);
    assert_eq!(big(&p), BigInt::from(-1125i64) * BigInt::from(1i64 << 40));
    assert_eq!(p.div_floor(&b), a);
    assert_eq!(Int::from_i64(-7).div_floor(&Int::from_i64(2)), Int::from_i64(-4));
    assert_eq!(Int::from_i64(-12).gcd(&Int::from_i64(18)), Int::from_i64(6));
    assert_eq!(Int::from_i64(3).sub(&Int::from_i64(5)), Int::from_i64(-2));
    assert_eq!(Int::from_i64(-1).to_u64(), None);
    assert_eq!(Int::from_i64(42).to_u64(), Some(42));
}

#[test]
fn rational_text_is_decimal_fraction() {
    assert_eq!(Rational::new_i64(-3, 6).unwrap().to_string(), "-1/2");
    assert_eq!(Rational::new_i64(6, -4).unwrap().to_string(), "-3/2");
    assert_eq!(Rational::from_int(0).to_string(), "0/1");
    assert_eq!(Rational::from_int(1_000_000_007).to_string(), "1000000007/1");
    let big = Rational::from_int(i64::MAX).mul(&Rational::from_int(i64::MAX));
    assert_eq!(big.to_string(), "85070591730234615847396907784232501249/1");
}

#[test]
fn ln_error_carries_the_argument_text() {
    assert_eq!(
        ln(Rational::zero()).err(),
        Some(ElementaryError::NonPositiveLog("0/1".to_string()))
    );
    assert_eq!(
        ln(r(-3, 4)).err(),
        Some(ElementaryError::NonPositiveLog("-3/4".to_string()))
    );
    assert!(matches!(
        eml(r(1, 1), r(-6, 4)),
        Err(ElementaryError::NonPositiveLog(ref s)) if s == "-3/2"
    ));
}

#[test]
fn clones_keep_values_and_terms() {
    let q = r(22, 7);
    assert_eq!(q.clone(), q);
    let c = exp(r(1, 2));
    let d = c.clone();
    for k in 0..12u64 {
        assert_eq!(c.nth(k), d.nth(k));
    }
    let eps = r(1, 1000);
    assert_eq!(c.modulus(&eps), d.modulus(&eps));
    let err = ElementaryError::NonPositiveLog("0/1".to_string());
    assert_eq!(err.clone(), err);
}
