//! Integers of unbounded size.
//!
//! An [`Int`] holds the two's-complement bytes of its value, least
//! significant first; its arithmetic is carried out by `num-bigint`.
use crate::arithmetic::spec_gcd;
use num_bigint::BigInt;
use num_integer::Integer;
use num_traits::ToPrimitive;
use vstd::arithmetic::power::pow;
use vstd::prelude::*;

verus! {

/// Unsigned value of little-endian bytes.
pub open spec fn le_bytes_value(s: Seq<u8>) -> nat
    decreases s.len(),
{
    if s.len() == 0 {
        0
    } else {
        s[0] as nat + 256 * le_bytes_value(s.skip(1))
    }
}

/// Two's-complement value of little-endian bytes: the top bit of the last
/// byte carries the weight `−256^len / 2`.
pub open spec fn twos_value(s: Seq<u8>) -> int {
    if s.len() > 0 && s.last() >= 128 {
        le_bytes_value(s) - pow(256, s.len())
    } else {
        le_bytes_value(s) as int
    }
}

/// `|x|`.
pub open spec fn int_abs(x: int) -> nat {
    if x < 0 {
        (-x) as nat
    } else {
        x as nat
    }
}

/// An integer of any size.
#[derive(Clone, Debug, PartialEq, Eq)]
pub struct Int {
    bytes: Vec<u8>,
}

impl View for Int {
    type V = int;

    closed spec fn view(&self) -> int {
        twos_value(self.bytes@)
    }
}

/// `v` as an [`Int`], through `num-bigint`'s `BigInt::from(i64)`.
#[verifier::external_body]
fn int_from_i64(v: i64) -> (r: Int)
    ensures
        r@ == v,
{
    Int { bytes: BigInt::from(v).to_signed_bytes_le() }
}

/// `a + b`, by `BigInt` addition.
#[verifier::external_body]
fn int_add(a: &Int, b: &Int) -> (r: Int)
    ensures
        r@ == a@ + b@,
{
    let s = BigInt::from_signed_bytes_le(&a.bytes) + BigInt::from_signed_bytes_le(&b.bytes);
    Int { bytes: s.to_signed_bytes_le() }
}

/// `a − b`, by `BigInt` subtraction.
#[verifier::external_body]
fn int_sub(a: &Int, b: &Int) -> (r: Int)
    ensures
        r@ == a@ - b@,
{
    let s = BigInt::from_signed_bytes_le(&a.bytes) - BigInt::from_signed_bytes_le(&b.bytes);
    Int { bytes: s.to_signed_bytes_le() }
}

/// `a · b`, by `BigInt` multiplication.
#[verifier::external_body]
fn int_mul(a: &Int, b: &Int) -> (r: Int)
    ensures
        r@ == a@ * b@,
{
    let s = BigInt::from_signed_bytes_le(&a.bytes) * BigInt::from_signed_bytes_le(&b.bytes);
    Int { bytes: s.to_signed_bytes_le() }
}

/// `⌊a / b⌋` for `b > 0`, by `num-integer`'s `Integer::div_floor` on
/// `BigInt`.
#[verifier::external_body]
fn int_div_floor(a: &Int, b: &Int) -> (r: Int)
    requires
        b@ > 0,
    ensures
        r@ == a@ / b@,
{
    let x = BigInt::from_signed_bytes_le(&a.bytes);
    let y = BigInt::from_signed_bytes_le(&b.bytes);
    Int { bytes: x.div_floor(&y).to_signed_bytes_le() }
}

/// `gcd(|a|, |b|)` (with `gcd(0, 0) = 0`), by `num-integer`'s
/// `Integer::gcd` on `BigInt`.
#[verifier::external_body]
fn int_gcd(a: &Int, b: &Int) -> (r: Int)
    ensures
        r@ == spec_gcd(int_abs(a@), int_abs(b@)),
{
    let x = BigInt::from_signed_bytes_le(&a.bytes);
    let y = BigInt::from_signed_bytes_le(&b.bytes);
    Int { bytes: x.gcd(&y).to_signed_bytes_le() }
}

/// `a < b`, by `BigInt`'s ordering.
#[verifier::external_body]
fn int_lt(a: &Int, b: &Int) -> (r: bool)
    ensures
        r == (a@ < b@),
{
    BigInt::from_signed_bytes_le(&a.bytes) < BigInt::from_signed_bytes_le(&b.bytes)
}

/// `a` as a `u64` when `0 ≤ a ≤ u64::MAX`, by `num-traits`'
/// `ToPrimitive::to_u64` on `BigInt`.
#[verifier::external_body]
fn int_to_u64(a: &Int) -> (r: Option<u64>)
    ensures
        0 <= a@ <= u64::MAX ==> r == Some(a@ as u64),
        !(0 <= a@ <= u64::MAX) ==> r is None,
{
    BigInt::from_signed_bytes_le(&a.bytes).to_u64()
}

/// The ASCII digit for `d < 10`.
pub open spec fn digit_char(d: nat) -> char {
    (48 + d) as char
}

/// The decimal digits of `n`, most significant first, with no leading zero
/// (`0` is the single digit `0`).
pub open spec fn decimal_digits(n: nat) -> Seq<char>
    decreases n,
{
    if n < 10 {
        seq![digit_char(n)]
    } else {
        decimal_digits(n / 10).push(digit_char(n % 10))
    }
}

/// The decimal text of `x`: its digits, after a `-` when `x` is negative.
pub open spec fn decimal_text(x: int) -> Seq<char> {
    if x < 0 {
        seq!['-'] + decimal_digits(int_abs(x))
    } else {
        decimal_digits(int_abs(x))
    }
}

/// The decimal text of `a`, by `BigInt`'s `Display`, which prints the
/// decimal digits of the value (base 10, no leading zero) after a `-` for
/// a negative value.
#[verifier::external_body]
pub(crate) fn int_decimal_text(a: &Int) -> (r: String)
    ensures
        r@ == decimal_text(a@),
{
    BigInt::from_signed_bytes_le(&a.bytes).to_string()
}

impl Int {
    /// `v` as an integer.
    pub fn from_i64(v: i64) -> (r: Int)
        ensures
            r@ == v,
    {
        int_from_i64(v)
    }

    /// A copy with the same value.
    pub fn duplicate(&self) -> (r: Int)
        ensures
            r@ == self@,
    {
        let z = int_from_i64(0);
        int_add(self, &z)
    }

    /// `self + other`.
    pub fn add(&self, other: &Int) -> (r: Int)
        ensures
            r@ == self@ + other@,
    {
        int_add(self, other)
    }

    /// `self − other`.
    pub fn sub(&self, other: &Int) -> (r: Int)
        ensures
            r@ == self@ - other@,
    {
        int_sub(self, other)
    }

    /// `self · other`.
    pub fn mul(&self, other: &Int) -> (r: Int)
        ensures
            r@ == self@ * other@,
    {
        int_mul(self, other)
    }

    /// `⌊self / other⌋` for a positive divisor.
    pub fn div_floor(&self, other: &Int) -> (r: Int)
        requires
            other@ > 0,
        ensures
            r@ == self@ / other@,
    {
        int_div_floor(self, other)
    }

    /// `gcd(|self|, |other|)`.
    pub fn gcd(&self, other: &Int) -> (r: Int)
        ensures
            r@ == spec_gcd(int_abs(self@), int_abs(other@)),
    {
        int_gcd(self, other)
    }

    /// `self < other`.
    pub fn lt(&self, other: &Int) -> (r: bool)
        ensures
            r == (self@ < other@),
    {
        int_lt(self, other)
    }

    /// `self` as a `u64`, when it fits.
    pub fn to_u64(&self) -> (r: Option<u64>)
        ensures
            0 <= self@ <= u64::MAX ==> r == Some(self@ as u64),
            !(0 <= self@ <= u64::MAX) ==> r is None,
    {
        int_to_u64(self)
    }

    /// The sign of `self`: `−1`, `0` or `1`.
    pub fn signum(&self) -> (r: i8)
        ensures
            r == (if self@ < 0 {
                -1int
            } else if self@ == 0 {
                0int
            } else {
                1int
            }),
    {
        let z = int_from_i64(0);
        if int_lt(self, &z) {
            -1
        } else if int_lt(&z, self) {
            1
        } else {
            0
        }
    }

    /// The two's-complement bytes, least significant first.
    pub fn to_signed_bytes_le(&self) -> (r: Vec<u8>)
        ensures
            twos_value(r@) == self@,
    {
        self.bytes.clone()
    }
}

} // verus!
