//! Witnesses that each target's operations exist with the types it names.
//! Calling one builds the smallest value of each type the target needs.
use dashu::integer::UBig;
use dashu::rational::RBig;
use vstd::prelude::*;

use crate::number::{Natural, Rational};

verus! {

/// `UBig::from(u8)`: the natural number `value`.
#[verifier::external_body]
fn ubig_from_u8(value: u8) -> (res: Natural)
    ensures
        res@ == value,
{
    Natural { words: UBig::from(value).as_words().to_vec() }
}

/// `RBig::from(u8)`: the rational `value / 1`.
#[verifier::external_body]
fn rbig_from_u8(value: u8) -> (res: Rational)
    ensures
        res@ == (value as int, 1int),
{
    let (numerator, denominator) = RBig::from(value).into_parts();
    let (sign, magnitude) = numerator.into_parts();
    Rational {
        negative: bool::from(sign),
        numerator: magnitude.as_words().to_vec(),
        denominator: denominator.as_words().to_vec(),
    }
}

/// The exact-integer target's natural numbers exist.
pub fn witness_exact_integer() {
    let _ = ubig_from_u8(1);
}

/// The exact-rational target's rationals exist.
pub fn witness_exact_rational() {
    let _ = rbig_from_u8(1);
}

/// The directed-binary target needs nothing beyond the library's traits.
pub fn witness_directed_binary() {
}

/// The conversion target needs nothing beyond the library's traits.
pub fn witness_conversions() {
}

/// The primitive-cast target needs nothing beyond the library's traits.
pub fn witness_primitive_casts() {
}

/// The ALP-primitive target needs nothing beyond the library's traits.
pub fn witness_alp_primitives() {
}

/// The operation-sequence target needs nothing beyond the library's traits.
pub fn witness_opendp_sequences() {
}

/// The Malachite float target needs nothing beyond the library's traits.
pub fn witness_malachite_float() {
}

} // verus!
