//! The Malachite provider.
use malachite::base::num::arithmetic::traits::UnsignedAbs;
use vstd::prelude::*;

use crate::binary::{sign_negative, sign_set, BinaryFloat};
use crate::capability::{Backend, ExactBinary, ExactUnary};
use crate::number::{Integer, Natural, Rational};
use crate::operation::{Add, Mul, Neg, Sub};
use crate::ratio::{rat_add, rat_eq, rat_mul, rat_neg, rat_reduced, rat_sub};
use crate::rounding::Direction;

verus! {

/// The Malachite provider (`malachite` crate).
#[derive(Clone, Copy, Debug, Default)]
pub struct Malachite;

impl Backend for Malachite {
    type Natural = Natural;
    type Integer = Integer;
    type Rational = Rational;
}

/// Working precision, in bits, of Malachite's directed primitive operations.
pub const WORK_PREC: u64 = 128;

/// The opposite rounding direction: negating a result flips the side it
/// rounds to, and nearest stays nearest.
pub fn opposite(direction: Direction) -> (res: Direction)
    ensures
        res == match direction {
            Direction::Down => Direction::Up,
            Direction::Up => Direction::Down,
            Direction::Nearest => Direction::Nearest,
        },
{
    match direction {
        Direction::Down => Direction::Up,
        Direction::Up => Direction::Down,
        Direction::Nearest => Direction::Nearest,
    }
}

/// How Malachite evaluates an integer power: `|base|^n`, negated when the
/// base's sign bit is set and the exponent is odd (so `-0.0` to an odd power
/// stays `-0.0`). Negating flips the side a result rounds to, so a negated
/// power is computed in the opposite direction.
pub fn powi_plan<T: BinaryFloat>(base: T, exponent_odd: bool, direction: Direction) -> (res: (
    bool,
    Direction,
))
    ensures
        res.0 == (sign_set(T::format_spec(), base.encoding()) && exponent_odd),
        res.1 == (if res.0 {
            match direction {
                Direction::Down => Direction::Up,
                Direction::Up => Direction::Down,
                Direction::Nearest => Direction::Nearest,
            }
        } else {
            direction
        }),
{
    let negate = sign_negative(T::format(), base.to_encoding()) && exponent_odd;
    let compute_direction = if negate {
        opposite(direction)
    } else {
        direction
    };
    (negate, compute_direction)
}

// ---------------------------------------------------------------------------
// Calls into malachite. Each converts the plain arguments to malachite's
// `Natural`, `Integer` or `Rational` (whose sign flag means "nonnegative"),
// makes one call and converts the result back.
// ---------------------------------------------------------------------------

/// `Natural + Natural`: the exact sum.
#[verifier::external_body]
fn natural_add(lhs: &Natural, rhs: &Natural) -> (res: Natural)
    ensures
        res@ == lhs@ + rhs@,
{
    let sum = malachite::Natural::from_limbs_asc(&lhs.words) + malachite::Natural::from_limbs_asc(&rhs.words);
    Natural { words: sum.to_limbs_asc() }
}

/// `Natural * Natural`: the exact product.
#[verifier::external_body]
fn natural_mul(lhs: &Natural, rhs: &Natural) -> (res: Natural)
    ensures
        res@ == lhs@ * rhs@,
{
    let product = malachite::Natural::from_limbs_asc(&lhs.words) * malachite::Natural::from_limbs_asc(&rhs.words);
    Natural { words: product.to_limbs_asc() }
}

/// `Natural % Natural`: the remainder; malachite panics on a zero divisor.
#[verifier::external_body]
pub(crate) fn natural_rem(lhs: &Natural, rhs: &Natural) -> (res: Natural)
    requires
        rhs@ > 0,
    ensures
        res@ == lhs@ % rhs@,
{
    let remainder = malachite::Natural::from_limbs_asc(&lhs.words) % malachite::Natural::from_limbs_asc(&rhs.words);
    Natural { words: remainder.to_limbs_asc() }
}

/// `Natural == 0`.
#[verifier::external_body]
pub(crate) fn natural_is_zero(value: &Natural) -> (res: bool)
    ensures
        res == (value@ == 0),
{
    malachite::Natural::from_limbs_asc(&value.words) == 0u32
}

/// `Integer + Integer`: the exact sum.
#[verifier::external_body]
fn integer_add(lhs: &Integer, rhs: &Integer) -> (res: Integer)
    ensures
        res@ == lhs@ + rhs@,
{
    let x = malachite::Integer::from_sign_and_abs(!lhs.negative, malachite::Natural::from_limbs_asc(&lhs.magnitude));
    let y = malachite::Integer::from_sign_and_abs(!rhs.negative, malachite::Natural::from_limbs_asc(&rhs.magnitude));
    let sum = x + y;
    Integer { negative: sum < 0u32, magnitude: sum.unsigned_abs().to_limbs_asc() }
}

/// `Integer - Integer`: the exact difference.
#[verifier::external_body]
fn integer_sub(lhs: &Integer, rhs: &Integer) -> (res: Integer)
    ensures
        res@ == lhs@ - rhs@,
{
    let x = malachite::Integer::from_sign_and_abs(!lhs.negative, malachite::Natural::from_limbs_asc(&lhs.magnitude));
    let y = malachite::Integer::from_sign_and_abs(!rhs.negative, malachite::Natural::from_limbs_asc(&rhs.magnitude));
    let difference = x - y;
    Integer { negative: difference < 0u32, magnitude: difference.unsigned_abs().to_limbs_asc() }
}

/// `Integer * Integer`: the exact product.
#[verifier::external_body]
fn integer_mul(lhs: &Integer, rhs: &Integer) -> (res: Integer)
    ensures
        res@ == lhs@ * rhs@,
{
    let x = malachite::Integer::from_sign_and_abs(!lhs.negative, malachite::Natural::from_limbs_asc(&lhs.magnitude));
    let y = malachite::Integer::from_sign_and_abs(!rhs.negative, malachite::Natural::from_limbs_asc(&rhs.magnitude));
    let product = x * y;
    Integer { negative: product < 0u32, magnitude: product.unsigned_abs().to_limbs_asc() }
}

/// `-Integer`: the negation.
#[verifier::external_body]
fn integer_neg(value: &Integer) -> (res: Integer)
    ensures
        res@ == -value@,
{
    let x = malachite::Integer::from_sign_and_abs(!value.negative, malachite::Natural::from_limbs_asc(&value.magnitude));
    let negation = -x;
    Integer { negative: negation < 0u32, magnitude: negation.unsigned_abs().to_limbs_asc() }
}

/// `Rational + Rational`: the exact sum in lowest terms.
#[verifier::external_body]
fn rational_add(lhs: &Rational, rhs: &Rational) -> (res: Rational)
    ensures
        rat_eq(res@, rat_add(lhs@, rhs@)),
        rat_reduced(res@),
{
    let x = malachite::Rational::from_sign_and_naturals(!lhs.negative, malachite::Natural::from_limbs_asc(&lhs.numerator), malachite::Natural::from_limbs_asc(&lhs.denominator));
    let y = malachite::Rational::from_sign_and_naturals(!rhs.negative, malachite::Natural::from_limbs_asc(&rhs.numerator), malachite::Natural::from_limbs_asc(&rhs.denominator));
    let sum = x + y;
    let negative = sum < 0u32;
    let (numerator, denominator) = sum.into_numerator_and_denominator();
    Rational { negative, numerator: numerator.to_limbs_asc(), denominator: denominator.to_limbs_asc() }
}

/// `Rational - Rational`: the exact difference in lowest terms.
#[verifier::external_body]
fn rational_sub(lhs: &Rational, rhs: &Rational) -> (res: Rational)
    ensures
        rat_eq(res@, rat_sub(lhs@, rhs@)),
        rat_reduced(res@),
{
    let x = malachite::Rational::from_sign_and_naturals(!lhs.negative, malachite::Natural::from_limbs_asc(&lhs.numerator), malachite::Natural::from_limbs_asc(&lhs.denominator));
    let y = malachite::Rational::from_sign_and_naturals(!rhs.negative, malachite::Natural::from_limbs_asc(&rhs.numerator), malachite::Natural::from_limbs_asc(&rhs.denominator));
    let difference = x - y;
    let negative = difference < 0u32;
    let (numerator, denominator) = difference.into_numerator_and_denominator();
    Rational { negative, numerator: numerator.to_limbs_asc(), denominator: denominator.to_limbs_asc() }
}

/// `Rational * Rational`: the exact product in lowest terms.
#[verifier::external_body]
fn rational_mul(lhs: &Rational, rhs: &Rational) -> (res: Rational)
    ensures
        rat_eq(res@, rat_mul(lhs@, rhs@)),
        rat_reduced(res@),
{
    let x = malachite::Rational::from_sign_and_naturals(!lhs.negative, malachite::Natural::from_limbs_asc(&lhs.numerator), malachite::Natural::from_limbs_asc(&lhs.denominator));
    let y = malachite::Rational::from_sign_and_naturals(!rhs.negative, malachite::Natural::from_limbs_asc(&rhs.numerator), malachite::Natural::from_limbs_asc(&rhs.denominator));
    let product = x * y;
    let negative = product < 0u32;
    let (numerator, denominator) = product.into_numerator_and_denominator();
    Rational { negative, numerator: numerator.to_limbs_asc(), denominator: denominator.to_limbs_asc() }
}

/// `-Rational`: the negation in lowest terms.
#[verifier::external_body]
fn rational_neg(value: &Rational) -> (res: Rational)
    ensures
        rat_eq(res@, rat_neg(value@)),
        rat_reduced(res@),
{
    let x = malachite::Rational::from_sign_and_naturals(!value.negative, malachite::Natural::from_limbs_asc(&value.numerator), malachite::Natural::from_limbs_asc(&value.denominator));
    let negation = -x;
    let negative = negation < 0u32;
    let (numerator, denominator) = negation.into_numerator_and_denominator();
    Rational { negative, numerator: numerator.to_limbs_asc(), denominator: denominator.to_limbs_asc() }
}

// ---------------------------------------------------------------------------
// Exact operations.
// ---------------------------------------------------------------------------

impl ExactBinary<Add, Natural> for Malachite {
    open spec fn evaluates(lhs: Natural, rhs: Natural, result: Natural) -> bool {
        result@ == lhs@ + rhs@
    }

    fn eval(lhs: &Natural, rhs: &Natural) -> (res: Natural) {
        natural_add(lhs, rhs)
    }
}

impl ExactBinary<Mul, Natural> for Malachite {
    open spec fn evaluates(lhs: Natural, rhs: Natural, result: Natural) -> bool {
        result@ == lhs@ * rhs@
    }

    fn eval(lhs: &Natural, rhs: &Natural) -> (res: Natural) {
        natural_mul(lhs, rhs)
    }
}

impl ExactBinary<Add, Integer> for Malachite {
    open spec fn evaluates(lhs: Integer, rhs: Integer, result: Integer) -> bool {
        result@ == lhs@ + rhs@
    }

    fn eval(lhs: &Integer, rhs: &Integer) -> (res: Integer) {
        integer_add(lhs, rhs)
    }
}

impl ExactBinary<Sub, Integer> for Malachite {
    open spec fn evaluates(lhs: Integer, rhs: Integer, result: Integer) -> bool {
        result@ == lhs@ - rhs@
    }

    fn eval(lhs: &Integer, rhs: &Integer) -> (res: Integer) {
        integer_sub(lhs, rhs)
    }
}

impl ExactBinary<Mul, Integer> for Malachite {
    open spec fn evaluates(lhs: Integer, rhs: Integer, result: Integer) -> bool {
        result@ == lhs@ * rhs@
    }

    fn eval(lhs: &Integer, rhs: &Integer) -> (res: Integer) {
        integer_mul(lhs, rhs)
    }
}

impl ExactBinary<Add, Rational> for Malachite {
    open spec fn evaluates(lhs: Rational, rhs: Rational, result: Rational) -> bool {
        rat_eq(result@, rat_add(lhs@, rhs@)) && rat_reduced(result@)
    }

    fn eval(lhs: &Rational, rhs: &Rational) -> (res: Rational) {
        rational_add(lhs, rhs)
    }
}

impl ExactBinary<Sub, Rational> for Malachite {
    open spec fn evaluates(lhs: Rational, rhs: Rational, result: Rational) -> bool {
        rat_eq(result@, rat_sub(lhs@, rhs@)) && rat_reduced(result@)
    }

    fn eval(lhs: &Rational, rhs: &Rational) -> (res: Rational) {
        rational_sub(lhs, rhs)
    }
}

impl ExactBinary<Mul, Rational> for Malachite {
    open spec fn evaluates(lhs: Rational, rhs: Rational, result: Rational) -> bool {
        rat_eq(result@, rat_mul(lhs@, rhs@)) && rat_reduced(result@)
    }

    fn eval(lhs: &Rational, rhs: &Rational) -> (res: Rational) {
        rational_mul(lhs, rhs)
    }
}

impl ExactUnary<Neg, Integer> for Malachite {
    open spec fn evaluates(value: Integer, result: Integer) -> bool {
        result@ == -value@
    }

    fn eval(value: &Integer) -> (res: Integer) {
        integer_neg(value)
    }
}

impl ExactUnary<Neg, Rational> for Malachite {
    open spec fn evaluates(value: Rational, result: Rational) -> bool {
        rat_eq(result@, rat_neg(value@)) && rat_reduced(result@)
    }

    fn eval(value: &Rational) -> (res: Rational) {
        rational_neg(value)
    }
}

} // verus!
