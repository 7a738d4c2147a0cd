//! 64-bit IEEE-754 values carried as their bit patterns. All arithmetic and
//! comparison on them is delegated to the `rustc_apfloat` software
//! implementation of IEEE-754 through the trusted wrappers below; each result
//! is a pure function of the argument bits, so it is given a name that the
//! rest of the library reasons with.

use vstd::prelude::*;
use rustc_apfloat::Float;
use rustc_apfloat::ieee::Double;

verus! {

/// The bits of the double that the text denotes, if it parses as one.
pub uninterp spec fn f64_from_text(s: Seq<char>) -> Option<u64>;

/// Relies on rustc_apfloat's `Double::from_str` (`FromStr` for `IeeeFloat`):
/// parses decimal or hexadecimal floating-point text, correctly rounded to
/// nearest-even, and rejects malformed text with an error.
#[verifier::external_body]
pub fn parse_f64_bits(s: &str) -> (r: Option<u64>)
    ensures
        r == f64_from_text(s@),
{
    match s.parse::<Double>() {
        Ok(d) => Some(d.to_bits() as u64),
        Err(_) => None,
    }
}

/// The bits of the IEEE-754 sum of the two doubles given by their bits.
pub uninterp spec fn f64_add_bits(a: u64, b: u64) -> u64;

/// Relies on rustc_apfloat's `Add` for `Double`: IEEE-754 addition rounded to
/// nearest-even.
#[verifier::external_body]
pub fn f64_add(a: u64, b: u64) -> (r: u64)
    ensures
        r == f64_add_bits(a, b),
{
    (Double::from_bits(a as u128) + Double::from_bits(b as u128)).value.to_bits() as u64
}

/// The bits of the IEEE-754 difference of the two doubles given by their bits.
pub uninterp spec fn f64_sub_bits(a: u64, b: u64) -> u64;

/// Relies on rustc_apfloat's `Sub` for `Double`: IEEE-754 subtraction rounded
/// to nearest-even.
#[verifier::external_body]
pub fn f64_sub(a: u64, b: u64) -> (r: u64)
    ensures
        r == f64_sub_bits(a, b),
{
    (Double::from_bits(a as u128) - Double::from_bits(b as u128)).value.to_bits() as u64
}

/// The bits of the IEEE-754 product of the two doubles given by their bits.
pub uninterp spec fn f64_mul_bits(a: u64, b: u64) -> u64;

/// Relies on rustc_apfloat's `Mul` for `Double`: IEEE-754 multiplication
/// rounded to nearest-even.
#[verifier::external_body]
pub fn f64_mul(a: u64, b: u64) -> (r: u64)
    ensures
        r == f64_mul_bits(a, b),
{
    (Double::from_bits(a as u128) * Double::from_bits(b as u128)).value.to_bits() as u64
}

/// The bits of the IEEE-754 quotient of the two doubles given by their bits.
pub uninterp spec fn f64_div_bits(a: u64, b: u64) -> u64;

/// Relies on rustc_apfloat's `Div` for `Double`: IEEE-754 division rounded to
/// nearest-even.
#[verifier::external_body]
pub fn f64_div(a: u64, b: u64) -> (r: u64)
    ensures
        r == f64_div_bits(a, b),
{
    (Double::from_bits(a as u128) / Double::from_bits(b as u128)).value.to_bits() as u64
}

/// How the two doubles given by their bits compare: 0 less, 1 equal,
/// 2 greater, 3 unordered (at least one NaN).
pub uninterp spec fn f64_cmp_code(a: u64, b: u64) -> u8;

/// Relies on rustc_apfloat's `PartialOrd` for `Double`: IEEE-754 ordered
/// comparison, which is `None` exactly when an operand is NaN, so the code is
/// one of 0 (less), 1 (equal), 2 (greater) and 3 (unordered).
#[verifier::external_body]
pub fn f64_cmp(a: u64, b: u64) -> (r: u8)
    ensures
        r == f64_cmp_code(a, b),
        r <= 3,
{
    match Double::from_bits(a as u128).partial_cmp(&Double::from_bits(b as u128)) {
        Some(core::cmp::Ordering::Less) => 0,
        Some(core::cmp::Ordering::Equal) => 1,
        Some(core::cmp::Ordering::Greater) => 2,
        None => 3,
    }
}

/// The bits of the double nearest to the given 64-bit integer.
pub uninterp spec fn f64_of_i64(i: i64) -> u64;

/// Relies on rustc_apfloat's `Double::from_i128`: integer-to-double
/// conversion rounded to nearest-even.
#[verifier::external_body]
pub fn f64_from_i64(i: i64) -> (r: u64)
    ensures
        r == f64_of_i64(i),
{
    Double::from_i128(i as i128).value.to_bits() as u64
}

/// The decimal rendering of the double given by its bits.
pub uninterp spec fn f64_text(bits: u64) -> Seq<char>;

/// Relies on rustc_apfloat's `Display` for `IeeeFloat`: renders the double in
/// decimal with enough digits to parse back to the same value.
#[verifier::external_body]
pub fn f64_to_text(bits: u64) -> (r: String)
    ensures
        r@ == f64_text(bits),
{
    format!("{}", Double::from_bits(bits as u128))
}

/// The double with these bits compares equal to zero: both IEEE-754 zeros
/// (positive and negative) and nothing else.
pub open spec fn f64_is_zero(bits: u64) -> bool {
    bits & 0x7fff_ffff_ffff_ffff == 0
}

/// Test whether the double given by its bits is an IEEE-754 zero.
pub fn f64_zero_test(bits: u64) -> (r: bool)
    ensures
        r == f64_is_zero(bits),
{
    bits & 0x7fff_ffff_ffff_ffff == 0
}

} // verus!
