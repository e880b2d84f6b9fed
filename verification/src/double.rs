//! IEEE 754 double-precision scalars, carried as `u64` bit patterns.
//!
//! Verus cannot reason about floating-point values, so every scalar in this
//! crate is the bit pattern of a double. The arithmetic itself is done by
//! `rustc_apfloat`, a software implementation of IEEE 754 binary64 that is
//! deterministic and works purely on bit patterns; each operation is exposed
//! here through a trusted wrapper whose result is named by an uninterpreted
//! spec function.

use rustc_apfloat::ieee::Double;
use rustc_apfloat::Float;
use vstd::prelude::*;

verus! {

/// Bit pattern of the double `0.0`.
pub const ZERO_BITS: u64 = 0x0000_0000_0000_0000;

/// Bit pattern of the double `1.0`.
pub const ONE_BITS: u64 = 0x3FF0_0000_0000_0000;

/// Bit pattern of the double `-1.0`.
pub const NEG_ONE_BITS: u64 = 0xBFF0_0000_0000_0000;

/// Bit pattern of the double `0.001`, the absolute tolerance under which two
/// doubles count as the same root when eigenvalues are clustered.
pub const TOLERANCE_BITS: u64 = 0x3F50_624D_D2F1_A9FC;

/// The sum of the doubles `a` and `b` stand for, rounded to nearest.
pub uninterp spec fn add_of(a: u64, b: u64) -> u64;

/// The difference of the doubles `a` and `b` stand for, rounded to nearest.
pub uninterp spec fn sub_of(a: u64, b: u64) -> u64;

/// The product of the doubles `a` and `b` stand for, rounded to nearest.
pub uninterp spec fn mul_of(a: u64, b: u64) -> u64;

/// The quotient of the doubles `a` and `b` stand for, rounded to nearest.
pub uninterp spec fn div_of(a: u64, b: u64) -> u64;

/// The absolute value of the double `a` stands for.
pub uninterp spec fn abs_of(a: u64) -> u64;

/// Whether the double `a` stands for is strictly below the one `b` stands for.
pub uninterp spec fn lt_of(a: u64, b: u64) -> bool;

/// The double nearest to the integer `n`.
pub uninterp spec fn double_of_int(n: u64) -> u64;

/// The double a numeric string parses to, or `None` when it does not parse.
pub uninterp spec fn double_of_str(s: Seq<char>) -> Option<u64>;

/// The decimal rendering of the double `a` stands for.
pub uninterp spec fn decimal_of(a: u64) -> Seq<char>;

/// Relies on `rustc_apfloat`'s IEEE 754 double addition
/// (round to nearest, ties to even).
#[verifier::external_body]
pub(crate) fn add_bits(a: u64, b: u64) -> (r: u64)
    ensures
        r == add_of(a, b),
{
    let x = Double::from_bits(a as u128);
    let y = Double::from_bits(b as u128);
    (x + y).value.to_bits() as u64
}

/// Relies on `rustc_apfloat`'s IEEE 754 double subtraction
/// (round to nearest, ties to even).
#[verifier::external_body]
pub(crate) fn sub_bits(a: u64, b: u64) -> (r: u64)
    ensures
        r == sub_of(a, b),
{
    let x = Double::from_bits(a as u128);
    let y = Double::from_bits(b as u128);
    (x - y).value.to_bits() as u64
}

/// Relies on `rustc_apfloat`'s IEEE 754 double multiplication
/// (round to nearest, ties to even).
#[verifier::external_body]
pub(crate) fn mul_bits(a: u64, b: u64) -> (r: u64)
    ensures
        r == mul_of(a, b),
{
    let x = Double::from_bits(a as u128);
    let y = Double::from_bits(b as u128);
    (x * y).value.to_bits() as u64
}

/// Relies on `rustc_apfloat`'s IEEE 754 double division
/// (round to nearest, ties to even).
#[verifier::external_body]
pub(crate) fn div_bits(a: u64, b: u64) -> (r: u64)
    ensures
        r == div_of(a, b),
{
    let x = Double::from_bits(a as u128);
    let y = Double::from_bits(b as u128);
    (x / y).value.to_bits() as u64
}

/// Relies on `rustc_apfloat::Float::abs`: the same double with the sign
/// cleared.
#[verifier::external_body]
pub(crate) fn abs_bits(a: u64) -> (r: u64)
    ensures
        r == abs_of(a),
{
    Double::from_bits(a as u128).abs().to_bits() as u64
}

/// Relies on `PartialOrd` for `rustc_apfloat` doubles: the IEEE 754 `<`
/// comparison, false whenever either operand is a NaN.
#[verifier::external_body]
pub(crate) fn lt_bits(a: u64, b: u64) -> (r: bool)
    ensures
        r == lt_of(a, b),
{
    Double::from_bits(a as u128) < Double::from_bits(b as u128)
}

/// Relies on `rustc_apfloat::Float::from_u128`: the double nearest to the
/// given integer.
#[verifier::external_body]
pub(crate) fn int_to_double_bits(n: u64) -> (r: u64)
    ensures
        r == double_of_int(n),
{
    Double::from_u128(n as u128).value.to_bits() as u64
}

/// Relies on `FromStr` for `rustc_apfloat` doubles: correctly rounded
/// parsing of a decimal (or hexadecimal) numeric string.
#[verifier::external_body]
pub(crate) fn parse_double_bits(s: &str) -> (r: Option<u64>)
    ensures
        r == double_of_str(s@),
{
    match s.parse::<Double>() {
        Ok(d) => Some(d.to_bits() as u64),
        Err(_) => None,
    }
}

/// Relies on `Display` for `rustc_apfloat` doubles: a deterministic decimal
/// rendering of the value.
#[verifier::external_body]
pub(crate) fn decimal_string(a: u64) -> (r: String)
    ensures
        r@ == decimal_of(a),
{
    format!("{}", Double::from_bits(a as u128))
}

/// `b` raised to the power `n`, as the left-to-right product
/// `1.0 * b * ... * b` of `n` factors.
pub open spec fn pow_of(b: u64, n: nat) -> u64
    decreases n,
{
    if n == 0 {
        ONE_BITS
    } else {
        mul_of(pow_of(b, (n - 1) as nat), b)
    }
}

/// Computes `pow_of(b, n)` by repeated multiplication.
pub fn pow_bits(b: u64, n: u64) -> (r: u64)
    ensures
        r == pow_of(b, n as nat),
{
    let mut r: u64 = ONE_BITS;
    let mut i: u64 = 0;
    while i < n
        invariant
            i <= n,
            r == pow_of(b, i as nat),
        decreases n - i,
    {
        r = mul_bits(r, b);
        i = i + 1;
    }
    r
}

/// Whether the doubles `a` and `b` stand for differ by strictly less than
/// the clustering tolerance: `|a - b| < 0.001`.
pub open spec fn within_of(a: u64, b: u64) -> bool {
    lt_of(abs_of(sub_of(a, b)), TOLERANCE_BITS)
}

/// Whether two doubles differ by strictly less than the clustering
/// tolerance. Not an equivalence relation: it is not transitive, and a NaN
/// is within tolerance of nothing, itself included.
pub fn within(a: u64, b: u64) -> (r: bool)
    ensures
        r == within_of(a, b),
{
    lt_bits(abs_bits(sub_bits(a, b)), TOLERANCE_BITS)
}

} // verus!
