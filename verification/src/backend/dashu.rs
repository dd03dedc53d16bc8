//! The Dashu provider.
use dashu::base::Sign;
use dashu::integer::{IBig, UBig};
use dashu::rational::RBig;
use vstd::prelude::*;

use crate::binary::{
    add_zero_negative, arithmetic_outcome, conversion_result, min_pos_subnormal, precision, arithmetic_zero_negative, directed_result,
    exact_arithmetic, lemma_rounds_to_congr, negate, Arithmetic, Binary32, Binary64, BinaryFloat,
    finite, infinity, infinity_bits, is_finite, is_floor_rank, is_zero, lemma_format_facts,
    lemma_rank_bits, lemma_rank_bits_parity, lemma_rank_determines_bits, lemma_rank_ratio_order,
    lemma_value_of_fields, low_bit_set, max_finite, max_ratio, min_ratio, nearest_overflows_down,
    nearest_overflows_up, nearest_rank, neg_max_finite, next_down, next_up, rank, rank_bits,
    rank_ratio, rounds_to, scaled_ratio, sign_negative, sign_set, signed_zero, value_of, zero,
    directed_rank, rounding_is_unique, Format,
};
use crate::capability::{
    Backend, CheckedBinary, Convert, DirectedBinary, ExactBinary, ExactUnary, FromParts, IntoParts,
};
use crate::backend::directed::Elementary;
use crate::decimal::{decimal, signed_decimal_notation};
use crate::error::{non_finite_input, overflow_error, Error, ErrorKind, Result};
use crate::number::{Integer, Natural, Rational};
use crate::operation::{Add, Div, Mul, Neg, Sub};
use crate::ratio::{
    abs, gcd, lemma_rat_div_congr, lemma_rat_order_congr, lemma_rat_sub_congr, lemma_rat_eq_sym,
    lemma_rat_eq_trans, lemma_rat_ops_congr, lemma_rat_ops_wf, lemma_rat_trans, rat_add, rat_div,
    rat_eq, rat_int, rat_le, rat_lt, rat_mul, rat_neg, rat_reduced, rat_sub, rat_wf, Ratio,
};
use crate::rounding::{Direction, Rounded};

verus! {

/// The Dashu provider (`dashu` crate).
#[derive(Clone, Copy, Debug, Default)]
pub struct Dashu;

impl Backend for Dashu {
    type Natural = Natural;
    type Integer = Integer;
    type Rational = Rational;
}

// ---------------------------------------------------------------------------
// Calls into dashu. Each converts the plain arguments to dashu's `UBig`,
// `IBig` or `RBig`, makes one call and converts the result back.
// ---------------------------------------------------------------------------

/// `UBig + UBig`: the exact sum.
#[verifier::external_body]
fn ubig_add(lhs: &Natural, rhs: &Natural) -> (res: Natural)
    ensures
        res@ == lhs@ + rhs@,
{
    let sum = UBig::from_words(&lhs.words) + UBig::from_words(&rhs.words);
    Natural { words: sum.as_words().to_vec() }
}

/// `UBig * UBig`: the exact product.
#[verifier::external_body]
fn ubig_mul(lhs: &Natural, rhs: &Natural) -> (res: Natural)
    ensures
        res@ == lhs@ * rhs@,
{
    let product = UBig::from_words(&lhs.words) * UBig::from_words(&rhs.words);
    Natural { words: product.as_words().to_vec() }
}

/// `UBig % UBig`: the remainder of the division; dashu panics on a zero divisor.
#[verifier::external_body]
pub(crate) fn ubig_rem(lhs: &Natural, rhs: &Natural) -> (res: Natural)
    requires
        rhs@ > 0,
    ensures
        res@ == lhs@ % rhs@,
{
    let remainder = UBig::from_words(&lhs.words) % UBig::from_words(&rhs.words);
    Natural { words: remainder.as_words().to_vec() }
}

/// `UBig::is_zero`.
#[verifier::external_body]
pub(crate) fn ubig_is_zero(value: &Natural) -> (res: bool)
    ensures
        res == (value@ == 0),
{
    UBig::from_words(&value.words).is_zero()
}

/// `UBig << shift`: multiplication by `2^shift`.
#[verifier::external_body]
fn ubig_shl(value: &Natural, shift: usize) -> (res: Natural)
    ensures
        res@ == value@ * vstd::arithmetic::power2::pow2(shift as nat),
{
    let shifted = UBig::from_words(&value.words) << shift;
    Natural { words: shifted.as_words().to_vec() }
}

/// `IBig + IBig`: the exact sum.
#[verifier::external_body]
pub(crate) fn ibig_add(lhs: &Integer, rhs: &Integer) -> (res: Integer)
    ensures
        res@ == lhs@ + rhs@,
{
    let x = IBig::from_parts(Sign::from(lhs.negative), UBig::from_words(&lhs.magnitude));
    let y = IBig::from_parts(Sign::from(rhs.negative), UBig::from_words(&rhs.magnitude));
    let (sign, magnitude) = (x + y).into_parts();
    Integer { negative: bool::from(sign), magnitude: magnitude.as_words().to_vec() }
}

/// `IBig - IBig`: the exact difference.
#[verifier::external_body]
fn ibig_sub(lhs: &Integer, rhs: &Integer) -> (res: Integer)
    ensures
        res@ == lhs@ - rhs@,
{
    let x = IBig::from_parts(Sign::from(lhs.negative), UBig::from_words(&lhs.magnitude));
    let y = IBig::from_parts(Sign::from(rhs.negative), UBig::from_words(&rhs.magnitude));
    let (sign, magnitude) = (x - y).into_parts();
    Integer { negative: bool::from(sign), magnitude: magnitude.as_words().to_vec() }
}

/// `IBig * IBig`: the exact product.
#[verifier::external_body]
fn ibig_mul(lhs: &Integer, rhs: &Integer) -> (res: Integer)
    ensures
        res@ == lhs@ * rhs@,
{
    let x = IBig::from_parts(Sign::from(lhs.negative), UBig::from_words(&lhs.magnitude));
    let y = IBig::from_parts(Sign::from(rhs.negative), UBig::from_words(&rhs.magnitude));
    let (sign, magnitude) = (x * y).into_parts();
    Integer { negative: bool::from(sign), magnitude: magnitude.as_words().to_vec() }
}

/// `-IBig`: the negation.
#[verifier::external_body]
fn ibig_neg(value: &Integer) -> (res: Integer)
    ensures
        res@ == -value@,
{
    let x = IBig::from_parts(Sign::from(value.negative), UBig::from_words(&value.magnitude));
    let (sign, magnitude) = (-x).into_parts();
    Integer { negative: bool::from(sign), magnitude: magnitude.as_words().to_vec() }
}

/// `IBig << shift`: multiplication by `2^shift`.
#[verifier::external_body]
pub(crate) fn ibig_shl(value: &Integer, shift: usize) -> (res: Integer)
    ensures
        res@ == value@ * vstd::arithmetic::power2::pow2(shift as nat),
{
    let x = IBig::from_parts(Sign::from(value.negative), UBig::from_words(&value.magnitude));
    let (sign, magnitude) = (x << shift).into_parts();
    Integer { negative: bool::from(sign), magnitude: magnitude.as_words().to_vec() }
}

/// `IBig == IBig`.
#[verifier::external_body]
pub(crate) fn ibig_eq(lhs: &Integer, rhs: &Integer) -> (res: bool)
    ensures
        res == (lhs@ == rhs@),
{
    IBig::from_parts(Sign::from(lhs.negative), UBig::from_words(&lhs.magnitude))
        == IBig::from_parts(Sign::from(rhs.negative), UBig::from_words(&rhs.magnitude))
}

/// `i128::try_from(&IBig)`: the value when it fits in an `i128`.
#[verifier::external_body]
pub(crate) fn ibig_to_i128(value: &Integer) -> (res: Option<i128>)
    ensures
        res == (if i128::MIN <= value@ <= i128::MAX {
            Some(value@ as i128)
        } else {
            None::<i128>
        }),
{
    i128::try_from(&IBig::from_parts(Sign::from(value.negative), UBig::from_words(&value.magnitude))).ok()
}

/// `UBig::bit`: the binary digit of weight `2^index`.
#[verifier::external_body]
pub(crate) fn ubig_bit(value: &Natural, index: usize) -> (res: bool)
    ensures
        res == ((value@ / vstd::arithmetic::power2::pow2(index as nat)) % 2 == 1),
{
    dashu::base::BitTest::bit(&UBig::from_words(&value.words), index)
}

/// `UBig`'s `Display`: the decimal digits of the number, without leading zeros.
#[verifier::external_body]
pub(crate) fn ubig_decimal(value: &Natural) -> (res: String)
    ensures
        res@ == decimal(value@),
{
    UBig::from_words(&value.words).to_string()
}

/// `IBig`'s `Display`: the decimal digits of the magnitude, after a minus sign
/// when the value is negative.
#[verifier::external_body]
pub(crate) fn ibig_decimal(value: &Integer) -> (res: String)
    ensures
        res@ == signed_decimal_notation(value@),
{
    IBig::from_parts(Sign::from(value.negative), UBig::from_words(&value.magnitude)).to_string()
}

/// `RBig::from_parts`: the rational `numerator / denominator` in lowest terms;
/// dashu panics on a zero denominator.
#[verifier::external_body]
pub(crate) fn rbig_from_parts(numerator: &Integer, denominator: &Natural) -> (res: Rational)
    requires
        denominator@ > 0,
    ensures
        rat_eq(res@, (numerator@, denominator@ as int)),
        rat_reduced(res@),
{
    let n = IBig::from_parts(Sign::from(numerator.negative), UBig::from_words(&numerator.magnitude));
    let (num, den) = RBig::from_parts(n, UBig::from_words(&denominator.words)).into_parts();
    let (sign, magnitude) = num.into_parts();
    Rational {
        negative: bool::from(sign),
        numerator: magnitude.as_words().to_vec(),
        denominator: den.as_words().to_vec(),
    }
}

/// `RBig::into_parts`: the numerator and the denominator of the reduced form.
#[verifier::external_body]
fn rbig_into_parts(value: &Rational) -> (res: (Integer, Natural))
    ensures
        rat_eq(value@, (res.0@, res.1@ as int)),
        rat_reduced((res.0@, res.1@ as int)),
{
    let n = IBig::from_parts(Sign::from(value.negative), UBig::from_words(&value.numerator));
    let (num, den) = RBig::from_parts(n, UBig::from_words(&value.denominator)).into_parts();
    let (sign, magnitude) = num.into_parts();
    let numerator = Integer { negative: bool::from(sign), magnitude: magnitude.as_words().to_vec() };
    (numerator, Natural { words: den.as_words().to_vec() })
}

/// `RBig + RBig`: the exact sum in lowest terms.
#[verifier::external_body]
fn rbig_add(lhs: &Rational, rhs: &Rational) -> (res: Rational)
    ensures
        rat_eq(res@, rat_add(lhs@, rhs@)),
        rat_reduced(res@),
{
    let x = RBig::from_parts(IBig::from_parts(Sign::from(lhs.negative), UBig::from_words(&lhs.numerator)), UBig::from_words(&lhs.denominator));
    let y = RBig::from_parts(IBig::from_parts(Sign::from(rhs.negative), UBig::from_words(&rhs.numerator)), UBig::from_words(&rhs.denominator));
    let (num, den) = (x + y).into_parts();
    let (sign, magnitude) = num.into_parts();
    Rational { negative: bool::from(sign), numerator: magnitude.as_words().to_vec(), denominator: den.as_words().to_vec() }
}

/// `RBig - RBig`: the exact difference in lowest terms.
#[verifier::external_body]
fn rbig_sub(lhs: &Rational, rhs: &Rational) -> (res: Rational)
    ensures
        rat_eq(res@, rat_sub(lhs@, rhs@)),
        rat_reduced(res@),
{
    let x = RBig::from_parts(IBig::from_parts(Sign::from(lhs.negative), UBig::from_words(&lhs.numerator)), UBig::from_words(&lhs.denominator));
    let y = RBig::from_parts(IBig::from_parts(Sign::from(rhs.negative), UBig::from_words(&rhs.numerator)), UBig::from_words(&rhs.denominator));
    let (num, den) = (x - y).into_parts();
    let (sign, magnitude) = num.into_parts();
    Rational { negative: bool::from(sign), numerator: magnitude.as_words().to_vec(), denominator: den.as_words().to_vec() }
}

/// `RBig * RBig`: the exact product in lowest terms.
#[verifier::external_body]
fn rbig_mul(lhs: &Rational, rhs: &Rational) -> (res: Rational)
    ensures
        rat_eq(res@, rat_mul(lhs@, rhs@)),
        rat_reduced(res@),
{
    let x = RBig::from_parts(IBig::from_parts(Sign::from(lhs.negative), UBig::from_words(&lhs.numerator)), UBig::from_words(&lhs.denominator));
    let y = RBig::from_parts(IBig::from_parts(Sign::from(rhs.negative), UBig::from_words(&rhs.numerator)), UBig::from_words(&rhs.denominator));
    let (num, den) = (x * y).into_parts();
    let (sign, magnitude) = num.into_parts();
    Rational { negative: bool::from(sign), numerator: magnitude.as_words().to_vec(), denominator: den.as_words().to_vec() }
}

/// `RBig / RBig`: the exact quotient in lowest terms; dashu panics on a zero divisor.
#[verifier::external_body]
fn rbig_div(lhs: &Rational, rhs: &Rational) -> (res: Rational)
    requires
        rhs@.0 != 0,
    ensures
        rat_eq(res@, rat_div(lhs@, rhs@)),
        rat_reduced(res@),
{
    let x = RBig::from_parts(IBig::from_parts(Sign::from(lhs.negative), UBig::from_words(&lhs.numerator)), UBig::from_words(&lhs.denominator));
    let y = RBig::from_parts(IBig::from_parts(Sign::from(rhs.negative), UBig::from_words(&rhs.numerator)), UBig::from_words(&rhs.denominator));
    let (num, den) = (x / y).into_parts();
    let (sign, magnitude) = num.into_parts();
    Rational { negative: bool::from(sign), numerator: magnitude.as_words().to_vec(), denominator: den.as_words().to_vec() }
}

/// `-RBig`: the negation in lowest terms.
#[verifier::external_body]
fn rbig_neg(value: &Rational) -> (res: Rational)
    ensures
        rat_eq(res@, rat_neg(value@)),
        rat_reduced(res@),
{
    let x = RBig::from_parts(IBig::from_parts(Sign::from(value.negative), UBig::from_words(&value.numerator)), UBig::from_words(&value.denominator));
    let (num, den) = (-x).into_parts();
    let (sign, magnitude) = num.into_parts();
    Rational { negative: bool::from(sign), numerator: magnitude.as_words().to_vec(), denominator: den.as_words().to_vec() }
}

/// `RBig < RBig`.
#[verifier::external_body]
fn rbig_lt(lhs: &Rational, rhs: &Rational) -> (res: bool)
    ensures
        res == rat_lt(lhs@, rhs@),
{
    let x = RBig::from_parts(IBig::from_parts(Sign::from(lhs.negative), UBig::from_words(&lhs.numerator)), UBig::from_words(&lhs.denominator));
    let y = RBig::from_parts(IBig::from_parts(Sign::from(rhs.negative), UBig::from_words(&rhs.numerator)), UBig::from_words(&rhs.denominator));
    x < y
}

/// `RBig <= RBig`.
#[verifier::external_body]
fn rbig_le(lhs: &Rational, rhs: &Rational) -> (res: bool)
    ensures
        res == rat_le(lhs@, rhs@),
{
    let x = RBig::from_parts(IBig::from_parts(Sign::from(lhs.negative), UBig::from_words(&lhs.numerator)), UBig::from_words(&lhs.denominator));
    let y = RBig::from_parts(IBig::from_parts(Sign::from(rhs.negative), UBig::from_words(&rhs.numerator)), UBig::from_words(&rhs.denominator));
    x <= y
}

/// `RBig == RBig`.
#[verifier::external_body]
fn rbig_eq(lhs: &Rational, rhs: &Rational) -> (res: bool)
    ensures
        res == rat_eq(lhs@, rhs@),
{
    let x = RBig::from_parts(IBig::from_parts(Sign::from(lhs.negative), UBig::from_words(&lhs.numerator)), UBig::from_words(&lhs.denominator));
    let y = RBig::from_parts(IBig::from_parts(Sign::from(rhs.negative), UBig::from_words(&rhs.numerator)), UBig::from_words(&rhs.denominator));
    x == y
}

/// `RBig::is_zero`.
#[verifier::external_body]
fn rbig_is_zero(value: &Rational) -> (res: bool)
    ensures
        res == (value@.0 == 0),
{
    let x = RBig::from_parts(IBig::from_parts(Sign::from(value.negative), UBig::from_words(&value.numerator)), UBig::from_words(&value.denominator));
    x.is_zero()
}

// ---------------------------------------------------------------------------
// Exact operations.
// ---------------------------------------------------------------------------

impl ExactBinary<Add, Natural> for Dashu {
    open spec fn evaluates(lhs: Natural, rhs: Natural, result: Natural) -> bool {
        result@ == lhs@ + rhs@
    }

    fn eval(lhs: &Natural, rhs: &Natural) -> (res: Natural) {
        ubig_add(lhs, rhs)
    }
}

impl ExactBinary<Mul, Natural> for Dashu {
    open spec fn evaluates(lhs: Natural, rhs: Natural, result: Natural) -> bool {
        result@ == lhs@ * rhs@
    }

    fn eval(lhs: &Natural, rhs: &Natural) -> (res: Natural) {
        ubig_mul(lhs, rhs)
    }
}

impl ExactBinary<Add, Integer> for Dashu {
    open spec fn evaluates(lhs: Integer, rhs: Integer, result: Integer) -> bool {
        result@ == lhs@ + rhs@
    }

    fn eval(lhs: &Integer, rhs: &Integer) -> (res: Integer) {
        ibig_add(lhs, rhs)
    }
}

impl ExactBinary<Sub, Integer> for Dashu {
    open spec fn evaluates(lhs: Integer, rhs: Integer, result: Integer) -> bool {
        result@ == lhs@ - rhs@
    }

    fn eval(lhs: &Integer, rhs: &Integer) -> (res: Integer) {
        ibig_sub(lhs, rhs)
    }
}

impl ExactBinary<Mul, Integer> for Dashu {
    open spec fn evaluates(lhs: Integer, rhs: Integer, result: Integer) -> bool {
        result@ == lhs@ * rhs@
    }

    fn eval(lhs: &Integer, rhs: &Integer) -> (res: Integer) {
        ibig_mul(lhs, rhs)
    }
}

impl ExactBinary<Add, Rational> for Dashu {
    open spec fn evaluates(lhs: Rational, rhs: Rational, result: Rational) -> bool {
        rat_eq(result@, rat_add(lhs@, rhs@)) && rat_reduced(result@)
    }

    fn eval(lhs: &Rational, rhs: &Rational) -> (res: Rational) {
        rbig_add(lhs, rhs)
    }
}

impl ExactBinary<Sub, Rational> for Dashu {
    open spec fn evaluates(lhs: Rational, rhs: Rational, result: Rational) -> bool {
        rat_eq(result@, rat_sub(lhs@, rhs@)) && rat_reduced(result@)
    }

    fn eval(lhs: &Rational, rhs: &Rational) -> (res: Rational) {
        rbig_sub(lhs, rhs)
    }
}

impl ExactBinary<Mul, Rational> for Dashu {
    open spec fn evaluates(lhs: Rational, rhs: Rational, result: Rational) -> bool {
        rat_eq(result@, rat_mul(lhs@, rhs@)) && rat_reduced(result@)
    }

    fn eval(lhs: &Rational, rhs: &Rational) -> (res: Rational) {
        rbig_mul(lhs, rhs)
    }
}

impl ExactUnary<Neg, Integer> for Dashu {
    open spec fn evaluates(value: Integer, result: Integer) -> bool {
        result@ == -value@
    }

    fn eval(value: &Integer) -> (res: Integer) {
        ibig_neg(value)
    }
}

impl ExactUnary<Neg, Rational> for Dashu {
    open spec fn evaluates(value: Rational, result: Rational) -> bool {
        rat_eq(result@, rat_neg(value@)) && rat_reduced(result@)
    }

    fn eval(value: &Rational) -> (res: Rational) {
        rbig_neg(value)
    }
}

impl CheckedBinary<Div, Rational> for Dashu {
    /// Division by zero is an error; otherwise the exact quotient.
    open spec fn evaluates(lhs: Rational, rhs: Rational, result: Result<Rational>) -> bool {
        if rhs@.0 == 0 {
            result matches Err(e) && e.kind == ErrorKind::DivisionByZero && e.message
                == "division by zero"
        } else {
            result matches Ok(q) && rat_eq(q@, rat_div(lhs@, rhs@)) && rat_reduced(q@)
        }
    }

    fn eval(lhs: &Rational, rhs: &Rational) -> (res: Result<Rational>) {
        if rbig_is_zero(rhs) {
            return Err(Error::new(ErrorKind::DivisionByZero, "division by zero"));
        }
        Ok(rbig_div(lhs, rhs))
    }
}

impl FromParts<Rational, Integer, Natural> for Dashu {
    /// A zero denominator is an error; otherwise the rational in lowest terms.
    open spec fn constructs(numerator: Integer, denominator: Natural, result: Result<Rational>) -> bool {
        if denominator@ == 0 {
            result matches Err(e) && e.kind == ErrorKind::DivisionByZero && e.message
                == "zero rational denominator"
        } else {
            result matches Ok(q) && rat_eq(q@, (numerator@, denominator@ as int)) && rat_reduced(q@)
        }
    }

    fn from_parts(numerator: Integer, denominator: Natural) -> (res: Result<Rational>) {
        if ubig_is_zero(&denominator) {
            return Err(Error::new(ErrorKind::DivisionByZero, "zero rational denominator"));
        }
        Ok(rbig_from_parts(&numerator, &denominator))
    }
}

impl IntoParts<Rational, Integer, Natural> for Dashu {
    /// The parts are the value in lowest terms.
    open spec fn decomposes(value: Rational, parts: (Integer, Natural)) -> bool {
        rat_eq(value@, (parts.0@, parts.1@ as int)) && rat_reduced((parts.0@, parts.1@ as int))
    }

    fn into_parts(value: Rational) -> (res: (Integer, Natural)) {
        rbig_into_parts(&value)
    }
}

// ---------------------------------------------------------------------------
// Correctly rounded directed conversion of an exact rational to a binary
// format.
//
// The result is decided purely by exact rational comparison against
// candidate encodings. Dashu's own approximate conversion only supplies the
// starting candidate; its accuracy does not matter for the result. Rounding
// clamps correctly at signed zero and the subnormal boundary, so a value that
// underflows toward zero never crosses to the opposite sign.
// ---------------------------------------------------------------------------

/// `RBig::to_f64`: dashu guarantees the correctly rounded value, to nearest
/// with ties to even; a nonzero value that underflows keeps its sign, and zero
/// gives `+0`. Only the encoding is kept.
#[verifier::external_body]
fn rbig_nearest_binary64(value: &Rational) -> (res: u64)
    ensures
        rounds_to(Format::Binary64, value@, Direction::Nearest, false, res),
{
    let x = RBig::from_parts(IBig::from_parts(Sign::from(value.negative), UBig::from_words(&value.numerator)), UBig::from_words(&value.denominator));
    x.to_f64().value().to_bits()
}

/// `RBig::to_f32`: as `RBig::to_f64`, in single precision. Only the encoding is
/// kept, in the low 32 bits.
#[verifier::external_body]
fn rbig_nearest_binary32(value: &Rational) -> (res: u64)
    ensures
        res <= u32::MAX,
        rounds_to(Format::Binary32, value@, Direction::Nearest, false, res),
{
    let x = RBig::from_parts(IBig::from_parts(Sign::from(value.negative), UBig::from_words(&value.numerator)), UBig::from_words(&value.denominator));
    x.to_f32().value().to_bits() as u64
}

/// A starting candidate for rounding `q`: dashu's rounding of it to nearest.
/// The exact comparisons that follow decide the result in every direction.
fn seed(fmt: Format, q: &Rational) -> (res: u64)
    ensures
        fmt.valid(res),
        rounds_to(fmt, q@, Direction::Nearest, false, res),
{
    match fmt {
        Format::Binary32 => rbig_nearest_binary32(q),
        Format::Binary64 => rbig_nearest_binary64(q),
    }
}

fn rbig_zero() -> (res: Rational)
    ensures
        res@ == (0int, 1int),
{
    Rational::zero()
}

fn rbig_two() -> (res: Rational)
    ensures
        res@ == rat_int(2),
{
    Rational::from_integer(Integer::from_i64(2))
}

/// `significand * 2^exponent` as an exact rational.
fn rat_from_scaled(significand: Integer, exponent: i64) -> (res: Rational)
    requires
        -0x7fff_ffff <= exponent <= 0x7fff_ffff,
    ensures
        rat_eq(res@, scaled_ratio(significand@, exponent as int)),
        rat_reduced(res@),
{
    if exponent >= 0 {
        let shifted = ibig_shl(&significand, exponent as usize);
        proof {
            let a = abs(shifted@);
            assert(a % 1 == 0);
            assert(gcd(1, 0) == 1);
            assert(gcd(a, 1) == gcd(1, a % 1));
        }
        Rational::from_integer(shifted)
    } else {
        let denominator = ubig_shl(&Natural::from_u64(1), (-exponent) as usize);
        proof {
            vstd::arithmetic::power2::lemma_pow2_pos((-exponent) as nat);
        }
        rbig_from_parts(&significand, &denominator)
    }
}

fn subnormal_exponent(fmt: Format) -> (res: i64)
    ensures
        res == fmt.subnormal_exponent(),
{
    match fmt {
        Format::Binary32 => 149,
        Format::Binary64 => 1074,
    }
}

/// Exact rational value of an encoding, or `None` if it is not finite.
pub fn to_rat(fmt: Format, bits: u64) -> (res: Option<Rational>)
    requires
        fmt.valid(bits),
    ensures
        res is Some == finite(fmt, bits),
        res matches Some(r) ==> rat_eq(r@, value_of(fmt, bits)) && rat_reduced(r@),
{
    if !is_finite(fmt, bits) {
        return None;
    }
    proof {
        lemma_format_facts(fmt);
        lemma_value_of_fields(fmt, bits);
    }
    let negative = sign_negative(fmt, bits);
    let magnitude = bits % crate::binary::sign_weight(fmt);
    let p = crate::binary::fraction_weight(fmt);
    let biased = magnitude / p;
    let fraction = magnitude % p;
    assert(biased < 0x1000) by {
        vstd::arithmetic::div_mod::lemma_div_is_ordered(
            magnitude as int,
            fmt.max_rank() as int,
            p as int,
        );
    }
    let (significand, exponent) = if biased == 0 {
        (fraction, -subnormal_exponent(fmt))
    } else {
        (fraction + p, biased as i64 - 1 - subnormal_exponent(fmt))
    };
    let result = rat_from_scaled(Integer::from_sign_magnitude(negative, significand), exponent);
    proof {
        lemma_rat_eq_trans(
            result@,
            scaled_ratio(if negative { -significand } else { significand as int }, exponent as int),
            value_of(fmt, bits),
        );
    }
    Some(result)
}

/// Exact rational of a finite encoding.
fn rbig_of(fmt: Format, bits: u64) -> (res: Rational)
    requires
        fmt.valid(bits),
        finite(fmt, bits),
    ensures
        rat_eq(res@, value_of(fmt, bits)),
{
    to_rat(fmt, bits).unwrap()
}

/// A zero result takes the sign of the rounded value.
fn fix_zero(fmt: Format, bits: u64, negative: bool) -> (res: u64)
    ensures
        zero(fmt, bits) ==> res == signed_zero_spec(fmt, negative),
        !zero(fmt, bits) ==> res == bits,
{
    if is_zero(fmt, bits) {
        signed_zero(fmt, negative)
    } else {
        bits
    }
}

pub open spec fn signed_zero_spec(fmt: Format, negative: bool) -> u64 {
    rank_bits(fmt, 0, negative)
}

/// Correctly rounded directed conversion of `q` to the format.
///
/// `Up` returns the least value `>= q`; `Down` the greatest value `<= q`;
/// `Nearest` the closest with ties to even. Out-of-range results saturate to
/// infinity or to the finite extreme as directed rounding requires; callers
/// that must reject a non-finite bound apply their own finite check.
/// `zero_negative` supplies the sign for an exact-zero result, which the
/// rational value alone cannot carry.
pub fn round_rational(fmt: Format, q: &Rational, direction: Direction, zero_negative: bool) -> (res: u64)
    ensures
        fmt.valid(res),
        rounds_to(fmt, q@, direction, zero_negative, res),
{
    proof {
        use_type_invariant(q);
        lemma_format_facts(fmt);
    }
    let ghost r = fmt.max_rank() as int;
    let zero = rbig_zero();
    if rbig_eq(q, &zero) {
        proof {
            lemma_rank_bits(fmt, 0, zero_negative);
        }
        return signed_zero(fmt, zero_negative);
    }
    let negative = rbig_lt(q, &zero);
    let max = max_finite(fmt);
    let max_rat = rbig_of(fmt, max);
    proof {
        use_type_invariant(&max_rat);
        lemma_rank_bits(fmt, r, false);
        lemma_rank_ratio_order(fmt, r, r);
        lemma_rat_order_congr(max_rat@, max_ratio(fmt), q@, q@);
    }
    if rbig_lt(&max_rat, q) {
        return match direction {
            Direction::Down => max,
            Direction::Up => infinity(fmt, false),
            Direction::Nearest => {
                // Nearest reaches infinity from the half-ulp point on: a tie
                // goes to the even encoding, which is the infinity.
                let prev = next_down(fmt, max);
                let prev_rat = rbig_of(fmt, prev);
                let gap = rbig_sub(&max_rat, &prev_rat);
                let two = rbig_two();
                let half_ulp = rbig_div(&gap, &two);
                let excess = rbig_sub(q, &max_rat);
                let overflow = rbig_le(&half_ulp, &excess);
                proof {
                    use_type_invariant(&prev_rat);
                    use_type_invariant(&gap);
                    use_type_invariant(&two);
                    use_type_invariant(&half_ulp);
                    use_type_invariant(&excess);
                    lemma_rank_ratio_order(fmt, r - 1, r);
                    lemma_rat_sub_congr(
                        gap@,
                        max_rat@,
                        max_ratio(fmt),
                        prev_rat@,
                        rank_ratio(fmt, r - 1),
                    );
                    let ideal_gap = rat_sub(max_ratio(fmt), rank_ratio(fmt, r - 1));
                    lemma_rat_div_congr(half_ulp@, gap@, ideal_gap, two@, rat_int(2));
                    lemma_rat_sub_congr(excess@, q@, q@, max_rat@, max_ratio(fmt));
                    lemma_rat_order_congr(
                        half_ulp@,
                        rat_div(ideal_gap, rat_int(2)),
                        excess@,
                        rat_sub(q@, max_ratio(fmt)),
                    );
                }
                if overflow {
                    infinity(fmt, false)
                } else {
                    max
                }
            },
        };
    }
    let neg_max = neg_max_finite(fmt);
    let neg_max_rat = rbig_of(fmt, neg_max);
    proof {
        use_type_invariant(&neg_max_rat);
        lemma_rank_bits(fmt, -r, false);
        lemma_rank_ratio_order(fmt, -r, -r);
        lemma_rat_order_congr(q@, q@, neg_max_rat@, min_ratio(fmt));
    }
    if rbig_lt(q, &neg_max_rat) {
        return match direction {
            Direction::Up => neg_max,
            Direction::Down => infinity(fmt, true),
            Direction::Nearest => {
                let next = next_up(fmt, neg_max);
                let next_rat = rbig_of(fmt, next);
                let gap = rbig_sub(&next_rat, &neg_max_rat);
                let two = rbig_two();
                let half_ulp = rbig_div(&gap, &two);
                let excess = rbig_sub(&neg_max_rat, q);
                let overflow = rbig_le(&half_ulp, &excess);
                proof {
                    use_type_invariant(&next_rat);
                    use_type_invariant(&gap);
                    use_type_invariant(&two);
                    use_type_invariant(&half_ulp);
                    use_type_invariant(&excess);
                    lemma_rank_ratio_order(fmt, -r + 1, -r);
                    lemma_rat_sub_congr(
                        gap@,
                        next_rat@,
                        rank_ratio(fmt, -r + 1),
                        neg_max_rat@,
                        min_ratio(fmt),
                    );
                    let ideal_gap = rat_sub(rank_ratio(fmt, -r + 1), min_ratio(fmt));
                    lemma_rat_div_congr(half_ulp@, gap@, ideal_gap, two@, rat_int(2));
                    lemma_rat_sub_congr(excess@, neg_max_rat@, min_ratio(fmt), q@, q@);
                    lemma_rat_order_congr(
                        half_ulp@,
                        rat_div(ideal_gap, rat_int(2)),
                        excess@,
                        rat_sub(min_ratio(fmt), q@),
                    );
                }
                if overflow {
                    infinity(fmt, true)
                } else {
                    neg_max
                }
            },
        };
    }
    // In range: bracket q with lo = greatest representable <= q.

    let mut c = seed(fmt, q);
    if !is_finite(fmt, c) {
        c = if negative {
            neg_max
        } else {
            max
        };
    }
    loop
        invariant
            fmt.valid(c),
            finite(fmt, c),
            rat_le(min_ratio(fmt), q@),
            rat_le(q@, max_ratio(fmt)),
            q@.1 > 0,
            r == fmt.max_rank(),
        ensures
            fmt.valid(c),
            finite(fmt, c),
            rat_le(rank_ratio(fmt, rank(fmt, c)), q@),
        decreases rank(fmt, c) + r,
    {
        let c_rat = rbig_of(fmt, c);
        proof {
            use_type_invariant(&c_rat);
            lemma_rank_determines_bits(fmt, c);
            lemma_rank_ratio_order(fmt, rank(fmt, c), -r);
            lemma_rank_ratio_order(fmt, -r, rank(fmt, c));
            lemma_rat_order_congr(q@, q@, c_rat@, value_of(fmt, c));
            lemma_rat_trans(q@, value_of(fmt, c), q@);
            lemma_rat_trans(min_ratio(fmt), q@, value_of(fmt, c));
        }
        if !rbig_lt(q, &c_rat) {
            break;
        }
        c = next_down(fmt, c);
    }
    loop
        invariant
            fmt.valid(c),
            finite(fmt, c),
            rat_le(rank_ratio(fmt, rank(fmt, c)), q@),
            q@.1 > 0,
            r == fmt.max_rank(),
        ensures
            fmt.valid(c),
            finite(fmt, c),
            is_floor_rank(fmt, q@, rank(fmt, c)),
        decreases r - rank(fmt, c),
    {
        proof {
            lemma_rank_determines_bits(fmt, c);
        }
        let n = next_up(fmt, c);
        match to_rat(fmt, n) {
            Some(n_rat) => {
                proof {
                    use_type_invariant(&n_rat);
                    lemma_rank_ratio_order(fmt, rank(fmt, n), rank(fmt, n));
                    lemma_rat_order_congr(n_rat@, value_of(fmt, n), q@, q@);
                    lemma_rat_trans(q@, value_of(fmt, n), q@);
                }
                if rbig_le(&n_rat, q) {
                    c = n;
                } else {
                    break;
                }
            },
            None => break,
        }
    }
    let lo = c;
    let lo_rat = rbig_of(fmt, lo);
    let ghost fl = rank(fmt, lo);
    proof {
        use_type_invariant(&lo_rat);
        lemma_rank_determines_bits(fmt, lo);
        lemma_rank_ratio_order(fmt, fl, fl);
        lemma_rat_order_congr(lo_rat@, value_of(fmt, lo), q@, q@);
        assert(negative == (q@.0 < 0));
        assert(is_floor_rank(fmt, q@, fl));
    }
    if rbig_eq(&lo_rat, q) {
        proof {
            assert(fl != 0) by {
                lemma_rank_ratio_order(fmt, fl, 0);
                if fl == 0 {
                    crate::binary::lemma_rank_value_monotone(fmt, 0, 0);
                    let s = fmt.scale() as int;
                    assert(q@.0 * s == 0);
                    vstd::arithmetic::mul::lemma_mul_nonzero(q@.0, s);
                }
            }
            assert(directed_rank(fmt, q@, fl, direction) == fl);
            assert(lo == rank_bits(fmt, fl, negative));
        }
        return lo;
    }
    proof {
        // Not exact, so lo is below the greatest finite value.
        if fl == r {
            lemma_rat_trans(rank_ratio(fmt, fl), q@, max_ratio(fmt));
        }
        assert(fl < r);
        lemma_rank_bits(fmt, fl, negative);
    }
    match direction {
        Direction::Down => {
            let res = fix_zero(fmt, lo, negative);
            proof {
                assert(res == rank_bits(fmt, directed_rank(fmt, q@, fl, direction), q@.0 < 0));
            }
            res
        },
        Direction::Up => {
            let hi = next_up(fmt, lo);
            let res = fix_zero(fmt, hi, negative);
            proof {
                lemma_rank_bits(fmt, fl + 1, negative);
                lemma_rank_determines_bits(fmt, hi);
                assert(res == rank_bits(fmt, directed_rank(fmt, q@, fl, direction), q@.0 < 0));
            }
            res
        },
        Direction::Nearest => {
            let hi = next_up(fmt, lo);
            let hi_rat = rbig_of(fmt, hi);
            let dist_lo = rbig_sub(q, &lo_rat);
            let dist_hi = rbig_sub(&hi_rat, q);
            proof {
                use_type_invariant(&hi_rat);
                use_type_invariant(&dist_lo);
                use_type_invariant(&dist_hi);
                lemma_rank_ratio_order(fmt, fl + 1, fl);
                lemma_rank_bits(fmt, fl + 1, negative);
                lemma_rank_determines_bits(fmt, hi);
                lemma_rat_sub_congr(dist_lo@, q@, q@, lo_rat@, rank_ratio(fmt, fl));
                lemma_rat_sub_congr(dist_hi@, hi_rat@, rank_ratio(fmt, fl + 1), q@, q@);
                let below = rat_sub(q@, rank_ratio(fmt, fl));
                let above = rat_sub(rank_ratio(fmt, fl + 1), q@);
                lemma_rat_order_congr(dist_lo@, below, dist_hi@, above);
                lemma_rat_order_congr(dist_hi@, above, dist_lo@, below);
                lemma_rank_bits_parity(fmt, fl, sign_set(fmt, lo));
            }
            let pick = if rbig_lt(&dist_lo, &dist_hi) {
                lo
            } else if rbig_lt(&dist_hi, &dist_lo) {
                hi
            } else if low_bit_set(lo) {
                hi
            } else {
                lo
            };
            let res = fix_zero(fmt, pick, negative);
            proof {
                assert(res == rank_bits(fmt, directed_rank(fmt, q@, fl, direction), q@.0 < 0));
            }
            res
        },
    }
}

// ---------------------------------------------------------------------------
// Directed arithmetic: exact rational arithmetic, then a single correctly
// rounded directed conversion. There is no native-float precheck and no
// intermediate rounding, so boundary results are exact and there is no double
// rounding. The rational loses the sign of a zero result, which is supplied
// per IEEE 754.
// ---------------------------------------------------------------------------

fn directed_binary<T: BinaryFloat>(op: Arithmetic, lhs: T, rhs: T, direction: Direction) -> (res: Result<Rounded<T>>)
    ensures
        arithmetic_outcome::<T>(op, lhs, rhs, direction, res),
{
    let fmt = T::format();
    let a = lhs.to_encoding();
    let b = rhs.to_encoding();
    if !is_finite(fmt, a) || !is_finite(fmt, b) {
        return Err(non_finite_input());
    }
    if op == Arithmetic::Div && is_zero(fmt, b) {
        return Err(Error::new(ErrorKind::DivisionByZero, "division by zero"));
    }
    let x = rbig_of(fmt, a);
    let y = rbig_of(fmt, b);
    let ghost va = value_of(fmt, a);
    let ghost vb = value_of(fmt, b);
    proof {
        use_type_invariant(&x);
        use_type_invariant(&y);
        lemma_rank_determines_bits(fmt, a);
        lemma_rank_determines_bits(fmt, b);
        lemma_rank_ratio_order(fmt, rank(fmt, a), rank(fmt, a));
        lemma_rank_ratio_order(fmt, rank(fmt, b), 0);
        crate::binary::lemma_rank_value_monotone(fmt, rank(fmt, b), 0);
        lemma_rat_ops_congr(x@, y@, va, vb);
        lemma_rat_ops_wf(x@, y@);
        lemma_rat_ops_wf(va, vb);
    }
    let exact = match op {
        Arithmetic::Add => rbig_add(&x, &y),
        Arithmetic::Sub => rbig_sub(&x, &y),
        Arithmetic::Mul => rbig_mul(&x, &y),
        Arithmetic::Div => rbig_div(&x, &y),
    };
    let zero_negative = match op {
        Arithmetic::Add => add_zero_negative(fmt, a, b, direction),
        Arithmetic::Sub => add_zero_negative(fmt, a, negate(fmt, b), direction),
        _ => sign_negative(fmt, a) != sign_negative(fmt, b),
    };
    let output = round_rational(fmt, &exact, direction, zero_negative);
    proof {
        use_type_invariant(&exact);
        let ideal = exact_arithmetic(op, va, vb);
        lemma_rat_eq_trans(exact@, exact_arithmetic(op, x@, y@), ideal);
        lemma_rounds_to_congr(fmt, exact@, ideal, direction, zero_negative, output);
        assert(zero_negative == arithmetic_zero_negative(fmt, op, a, b, direction));
    }
    if !is_finite(fmt, output) {
        return Err(overflow_error());
    }
    Ok(Rounded::new(T::from_encoding(output), direction))
}

impl DirectedBinary<Add, Binary64> for Dashu {
    open spec fn evaluates(lhs: Binary64, rhs: Binary64, direction: Direction, result: Result<Rounded<Binary64>>) -> bool {
        arithmetic_outcome::<Binary64>(Arithmetic::Add, lhs, rhs, direction, result)
    }

    fn eval(lhs: Binary64, rhs: Binary64, direction: Direction) -> (res: Result<Rounded<Binary64>>) {
        directed_binary(Arithmetic::Add, lhs, rhs, direction)
    }
}

impl DirectedBinary<Sub, Binary64> for Dashu {
    open spec fn evaluates(lhs: Binary64, rhs: Binary64, direction: Direction, result: Result<Rounded<Binary64>>) -> bool {
        arithmetic_outcome::<Binary64>(Arithmetic::Sub, lhs, rhs, direction, result)
    }

    fn eval(lhs: Binary64, rhs: Binary64, direction: Direction) -> (res: Result<Rounded<Binary64>>) {
        directed_binary(Arithmetic::Sub, lhs, rhs, direction)
    }
}

impl DirectedBinary<Mul, Binary64> for Dashu {
    open spec fn evaluates(lhs: Binary64, rhs: Binary64, direction: Direction, result: Result<Rounded<Binary64>>) -> bool {
        arithmetic_outcome::<Binary64>(Arithmetic::Mul, lhs, rhs, direction, result)
    }

    fn eval(lhs: Binary64, rhs: Binary64, direction: Direction) -> (res: Result<Rounded<Binary64>>) {
        directed_binary(Arithmetic::Mul, lhs, rhs, direction)
    }
}

impl DirectedBinary<Div, Binary64> for Dashu {
    open spec fn evaluates(lhs: Binary64, rhs: Binary64, direction: Direction, result: Result<Rounded<Binary64>>) -> bool {
        arithmetic_outcome::<Binary64>(Arithmetic::Div, lhs, rhs, direction, result)
    }

    fn eval(lhs: Binary64, rhs: Binary64, direction: Direction) -> (res: Result<Rounded<Binary64>>) {
        directed_binary(Arithmetic::Div, lhs, rhs, direction)
    }
}

impl DirectedBinary<Add, Binary32> for Dashu {
    open spec fn evaluates(lhs: Binary32, rhs: Binary32, direction: Direction, result: Result<Rounded<Binary32>>) -> bool {
        arithmetic_outcome::<Binary32>(Arithmetic::Add, lhs, rhs, direction, result)
    }

    fn eval(lhs: Binary32, rhs: Binary32, direction: Direction) -> (res: Result<Rounded<Binary32>>) {
        directed_binary(Arithmetic::Add, lhs, rhs, direction)
    }
}

impl DirectedBinary<Sub, Binary32> for Dashu {
    open spec fn evaluates(lhs: Binary32, rhs: Binary32, direction: Direction, result: Result<Rounded<Binary32>>) -> bool {
        arithmetic_outcome::<Binary32>(Arithmetic::Sub, lhs, rhs, direction, result)
    }

    fn eval(lhs: Binary32, rhs: Binary32, direction: Direction) -> (res: Result<Rounded<Binary32>>) {
        directed_binary(Arithmetic::Sub, lhs, rhs, direction)
    }
}

impl DirectedBinary<Mul, Binary32> for Dashu {
    open spec fn evaluates(lhs: Binary32, rhs: Binary32, direction: Direction, result: Result<Rounded<Binary32>>) -> bool {
        arithmetic_outcome::<Binary32>(Arithmetic::Mul, lhs, rhs, direction, result)
    }

    fn eval(lhs: Binary32, rhs: Binary32, direction: Direction) -> (res: Result<Rounded<Binary32>>) {
        directed_binary(Arithmetic::Mul, lhs, rhs, direction)
    }
}

impl DirectedBinary<Div, Binary32> for Dashu {
    open spec fn evaluates(lhs: Binary32, rhs: Binary32, direction: Direction, result: Result<Rounded<Binary32>>) -> bool {
        arithmetic_outcome::<Binary32>(Arithmetic::Div, lhs, rhs, direction, result)
    }

    fn eval(lhs: Binary32, rhs: Binary32, direction: Direction) -> (res: Result<Rounded<Binary32>>) {
        directed_binary(Arithmetic::Div, lhs, rhs, direction)
    }
}

// ---------------------------------------------------------------------------
// Conversion of exact numbers. It saturates to an infinity on overflow,
// exactly like MPFR's directed conversions; it does not raise an overflow
// error.
// ---------------------------------------------------------------------------

fn convert_rational<T: BinaryFloat>(value: &Rational, direction: Direction) -> (res: Result<Rounded<T>>)
    ensures
        conversion_result::<T>(value@, direction, res),
{
    let fmt = T::format();
    let bits = round_rational(fmt, value, direction, false);
    Ok(Rounded::new(T::from_encoding(bits), direction))
}

impl Convert<Rational, Binary64> for Dashu {
    open spec fn converts(value: Rational, direction: Direction, result: Result<Rounded<Binary64>>) -> bool {
        conversion_result::<Binary64>(value@, direction, result)
    }

    fn convert(value: &Rational, direction: Direction) -> (res: Result<Rounded<Binary64>>) {
        convert_rational(value, direction)
    }
}

impl Convert<Rational, Binary32> for Dashu {
    open spec fn converts(value: Rational, direction: Direction, result: Result<Rounded<Binary32>>) -> bool {
        conversion_result::<Binary32>(value@, direction, result)
    }

    fn convert(value: &Rational, direction: Direction) -> (res: Result<Rounded<Binary32>>) {
        convert_rational(value, direction)
    }
}

impl Convert<Integer, Binary64> for Dashu {
    open spec fn converts(value: Integer, direction: Direction, result: Result<Rounded<Binary64>>) -> bool {
        conversion_result::<Binary64>((value@, 1int), direction, result)
    }

    fn convert(value: &Integer, direction: Direction) -> (res: Result<Rounded<Binary64>>) {
        convert_rational(&Rational::from_integer(value.duplicate()), direction)
    }
}

impl Convert<Integer, Binary32> for Dashu {
    open spec fn converts(value: Integer, direction: Direction, result: Result<Rounded<Binary32>>) -> bool {
        conversion_result::<Binary32>((value@, 1int), direction, result)
    }

    fn convert(value: &Integer, direction: Direction) -> (res: Result<Rounded<Binary32>>) {
        convert_rational(&Rational::from_integer(value.duplicate()), direction)
    }
}

impl Convert<Natural, Binary64> for Dashu {
    open spec fn converts(value: Natural, direction: Direction, result: Result<Rounded<Binary64>>) -> bool {
        conversion_result::<Binary64>((value@ as int, 1int), direction, result)
    }

    fn convert(value: &Natural, direction: Direction) -> (res: Result<Rounded<Binary64>>) {
        let integer = Integer::from_natural(false, value.duplicate());
        convert_rational(&Rational::from_integer(integer), direction)
    }
}

impl Convert<Natural, Binary32> for Dashu {
    open spec fn converts(value: Natural, direction: Direction, result: Result<Rounded<Binary32>>) -> bool {
        conversion_result::<Binary32>((value@ as int, 1int), direction, result)
    }

    fn convert(value: &Natural, direction: Direction) -> (res: Result<Rounded<Binary32>>) {
        let integer = Integer::from_natural(false, value.duplicate());
        convert_rational(&Rational::from_integer(integer), direction)
    }
}

// ---------------------------------------------------------------------------
// Results that are resolved without the arbitrary-precision backend.
// ---------------------------------------------------------------------------

/// The directed result of a power whose magnitude lies far beyond the finite
/// range (`overflow`) or far below the least subnormal, with the given sign.
///
/// Rounding toward a finite extreme saturates there; rounding toward an
/// infinity is an overflow error. A vanishing magnitude rounds to the least
/// subnormal on the side away from zero and to a zero of the result's sign
/// otherwise.
pub fn extreme_power<T: BinaryFloat>(negative: bool, overflow: bool, direction: Direction) -> (res: Result<Rounded<T>>)
    ensures
        overflow ==> match direction {
            Direction::Down if !negative => res matches Ok(r) && r.value.encoding() == rank_bits(
                T::format_spec(),
                T::format_spec().max_rank() as int,
                false,
            ) && r.direction == direction,
            Direction::Up if negative => res matches Ok(r) && r.value.encoding() == rank_bits(
                T::format_spec(),
                -(T::format_spec().max_rank() as int),
                false,
            ) && r.direction == direction,
            _ => res matches Err(e) && e.kind == ErrorKind::Overflow && e.message
                == "operation produced a non-finite value",
        },
        !overflow ==> (res matches Ok(r) && r.direction == direction && r.value.encoding() == match direction {
            Direction::Nearest => rank_bits(T::format_spec(), 0, negative),
            Direction::Down => if negative {
                rank_bits(T::format_spec(), -1, false)
            } else {
                rank_bits(T::format_spec(), 0, false)
            },
            Direction::Up => if negative {
                rank_bits(T::format_spec(), 0, true)
            } else {
                rank_bits(T::format_spec(), 1, false)
            },
        }),
{
    let fmt = T::format();
    proof {
        lemma_format_facts(fmt);
        lemma_rank_bits(fmt, fmt.max_rank() as int, false);
        lemma_rank_bits(fmt, -(fmt.max_rank() as int), false);
        lemma_rank_bits(fmt, 1, false);
        lemma_rank_bits(fmt, -1, false);
        lemma_rank_bits(fmt, 0, false);
        lemma_rank_bits(fmt, 0, true);
    }
    if overflow {
        return match direction {
            Direction::Down if !negative => Ok(Rounded::new(T::from_encoding(max_finite(fmt)), direction)),
            Direction::Up if negative => Ok(Rounded::new(T::from_encoding(neg_max_finite(fmt)), direction)),
            _ => Err(overflow_error()),
        };
    }
    let output = match direction {
        Direction::Nearest => signed_zero(fmt, negative),
        Direction::Down => if negative {
            negate(fmt, min_pos_subnormal(fmt))
        } else {
            signed_zero(fmt, false)
        },
        Direction::Up => if negative {
            signed_zero(fmt, true)
        } else {
            min_pos_subnormal(fmt)
        },
    };
    proof {
        if direction == Direction::Down && negative {
            lemma_rank_determines_bits(fmt, output);
        }
    }
    Ok(Rounded::new(T::from_encoding(output), direction))
}

/// The exact rational of a binary float with the given significand and
/// exponent: `significand * 2^exponent`.
pub fn fbig_rat(significand: Integer, exponent: i64) -> (res: Rational)
    requires
        -0x7fff_ffff <= exponent <= 0x7fff_ffff,
    ensures
        rat_eq(res@, scaled_ratio(significand@, exponent as int)),
        rat_reduced(res@),
{
    rat_from_scaled(significand, exponent)
}

/// Whether an exact-zero result of a directed unary operation is negative:
/// `ln` of one is `+0`, while `ln1p`, `sqrt` and `expm1` keep the sign of a
/// zero argument and `exp` never returns zero.
pub fn zero_result_negative<T: BinaryFloat>(op: Elementary, value: T) -> (res: bool)
    ensures
        res == (match op {
            Elementary::Ln1p | Elementary::Sqrt | Elementary::ExpM1 => sign_set(
                T::format_spec(),
                value.encoding(),
            ),
            _ => false,
        }),
{
    match op {
        Elementary::Ln1p | Elementary::Sqrt | Elementary::ExpM1 => sign_negative(
            T::format(),
            value.to_encoding(),
        ),
        _ => false,
    }
}

/// Dashu's `log2` only bounds its result, so a directed `log2` rounds the
/// sound bound on the requested side; there is no nearest `log2`.
pub fn log2_direction(direction: Direction) -> (res: Result<()>)
    ensures
        direction == Direction::Nearest ==> res == Err::<(), Error>(
            Error {
                kind: ErrorKind::Unsupported,
                message: "nearest log2 rounding is not implemented for Dashu",
            },
        ),
        direction != Direction::Nearest ==> res == Ok::<(), Error>(()),
{
    match direction {
        Direction::Nearest => Err(
            Error::new(ErrorKind::Unsupported, "nearest log2 rounding is not implemented for Dashu"),
        ),
        _ => Ok(()),
    }
}

/// The directed `log2` result from the exact bound on the requested side: the
/// bound rounded in that direction, kept even when it is not finite.
pub fn log2_from_bound<T: BinaryFloat>(bound: &Rational, direction: Direction) -> (res: Rounded<T>)
    ensures
        rounds_to(T::format_spec(), bound@, direction, false, res.value.encoding()),
        res.direction == direction,
{
    let bits = round_rational(T::format(), bound, direction, false);
    Rounded::new(T::from_encoding(bits), direction)
}

// ---------------------------------------------------------------------------
// Adaptive-precision directed evaluation of a transcendental.
//
// The backend result is computed with the matching directed rounding mode at
// a working precision, and its exact rational is rounded to the format. The
// precision is doubled until the rounded result stabilises, which lets
// underflow cases resolve to the correct side of zero rather than being
// limited by a fixed working precision. The backend call itself is made by
// the caller between the steps.
// ---------------------------------------------------------------------------

/// Greatest working precision.
pub const PRECISION_CAP: usize = 4096;

/// Where an adaptive evaluation stands.
#[derive(Clone, Copy, Debug, PartialEq, Eq)]
pub struct AdaptiveState {
    /// Working precision, in bits, of the next backend evaluation.
    pub precision: usize,
    /// Encoding produced at the previous precision, if any.
    pub previous: Option<u64>,
}

/// What to do after one backend evaluation.
#[derive(Debug)]
pub enum AdaptiveStep<T> {
    /// Evaluate again, at the state's precision.
    Retry(AdaptiveState),
    /// The directed result.
    Done(Result<Rounded<T>>),
}

/// Working precision that starts past the plateau where a directed
/// transcendental returns its argument unchanged. For inputs near zero the
/// correction term of `ln1p`/`expm1` sits about `|log2(value)|` bits below
/// the result, so the base precision is raised by that magnitude.
pub fn start_precision(value_log2_magnitude: usize) -> (res: usize)
    requires
        value_log2_magnitude <= usize::MAX - 128,
    ensures
        res == 128 + value_log2_magnitude,
{
    128 + value_log2_magnitude
}

/// The first working precision: `start` clamped to between twice the format's
/// precision and the cap.
pub open spec fn adaptive_start_precision(fmt: Format, start: usize) -> nat {
    if start < 2 * fmt.precision_bits() {
        2 * fmt.precision_bits()
    } else if start > PRECISION_CAP {
        PRECISION_CAP as nat
    } else {
        start as nat
    }
}

/// The working precision of the `i`-th evaluation from `start`: doubled each
/// time, up to the cap.
pub open spec fn adaptive_precision(start: nat, i: nat) -> nat
    decreases i,
{
    if i == 0 {
        start
    } else {
        let p = adaptive_precision(start, (i - 1) as nat);
        if 2 * p > PRECISION_CAP {
            PRECISION_CAP as nat
        } else {
            2 * p
        }
    }
}

/// The encoding that `q` rounds to.
pub open spec fn rounded_encoding(fmt: Format, q: Ratio, direction: Direction, zero_negative: bool) -> u64 {
    choose|bits: u64| rounds_to(fmt, q, direction, zero_negative, bits)
}

/// Whether the adaptive evaluation stops at its `i`-th evaluation of the
/// sequence `raws`: the precision has reached the cap, or the rounding of the
/// `i`-th rational repeats that of the one before.
pub open spec fn adaptive_stops(
    fmt: Format,
    start: nat,
    raws: Seq<Result<Rational>>,
    direction: Direction,
    zero_negative: bool,
    i: int,
) -> bool {
    ||| adaptive_precision(start, i as nat) >= PRECISION_CAP
    ||| i >= 1 && rounded_encoding(fmt, raws[i]->Ok_0@, direction, zero_negative)
        == rounded_encoding(fmt, raws[i - 1]->Ok_0@, direction, zero_negative)
}

/// `raws` are the results of the evaluations that the adaptive loop makes
/// from `start`, in order: every one before the last succeeded without
/// stopping the loop, and the last is an error or stops it.
pub open spec fn adaptive_trace(
    fmt: Format,
    start: nat,
    raws: Seq<Result<Rational>>,
    direction: Direction,
    zero_negative: bool,
) -> bool {
    &&& raws.len() >= 1
    &&& forall|i: int|
        0 <= i < raws.len() - 1 ==> #[trigger] raws[i] is Ok && !adaptive_stops(
            fmt,
            start,
            raws,
            direction,
            zero_negative,
            i,
        )
    &&& raws.last() is Ok ==> adaptive_stops(
        fmt,
        start,
        raws,
        direction,
        zero_negative,
        raws.len() - 1,
    )
}

/// The first state: `start` clamped to between twice the format's precision
/// and the cap.
pub fn adaptive_start<T: BinaryFloat>(start: usize) -> (res: AdaptiveState)
    ensures
        res.previous is None,
        res.precision == adaptive_start_precision(T::format_spec(), start),
{
    let low = precision(T::format()) * 2;
    let precision = if start < low {
        low
    } else if start > PRECISION_CAP {
        PRECISION_CAP
    } else {
        start
    };
    AdaptiveState { precision, previous: None }
}

/// One step: round the exact backend result `raw` obtained at
/// `state.precision`. The evaluation is done once two precisions in a row
/// give the same encoding, or at the cap; a non-finite bound is then an
/// overflow. Otherwise the precision doubles, up to the cap.
pub fn adaptive_step<T: BinaryFloat>(
    state: AdaptiveState,
    raw: &Rational,
    direction: Direction,
    zero_negative: bool,
) -> (res: AdaptiveStep<T>)
    ensures
        ({
            let fmt = T::format_spec();
            exists|bits: u64|
                #![trigger rounds_to(fmt, raw@, direction, zero_negative, bits)]
                rounds_to(fmt, raw@, direction, zero_negative, bits) && if state.previous == Some(
                    bits,
                ) || state.precision >= PRECISION_CAP {
                    res matches AdaptiveStep::Done(result) && directed_result::<T>(
                        raw@,
                        direction,
                        zero_negative,
                        result,
                    )
                } else {
                    res matches AdaptiveStep::Retry(next) && next.previous == Some(bits)
                        && next.precision == if 2 * state.precision > PRECISION_CAP {
                        PRECISION_CAP as int
                    } else {
                        2 * state.precision
                    }
                }
        }),
        res matches AdaptiveStep::Retry(next) ==> next.precision <= PRECISION_CAP && (
        state.precision > 0 ==> state.precision < next.precision),
{
    let fmt = T::format();
    let rounded = round_rational(fmt, raw, direction, zero_negative);
    let stable = match state.previous {
        Some(previous) => previous == rounded,
        None => false,
    };
    if stable || state.precision >= PRECISION_CAP {
        // A non-finite bound of a transcendental or power is an overflow.
        if !is_finite(fmt, rounded) {
            return AdaptiveStep::Done(Err(overflow_error()));
        }
        return AdaptiveStep::Done(Ok(Rounded::new(T::from_encoding(rounded), direction)));
    }
    let doubled = state.precision * 2;
    let precision = if doubled > PRECISION_CAP {
        PRECISION_CAP
    } else {
        doubled
    };
    AdaptiveStep::Retry(AdaptiveState { precision, previous: Some(rounded) })
}

/// Adaptive-precision directed evaluation: `raw_at(precision, direction)`
/// gives the exact rational of the backend's result computed at that working
/// precision in that direction. Starting from `start` (clamped as
/// `adaptive_start` does), the precision doubles until two precisions in a
/// row round to the same encoding, or the cap is reached. The result is that
/// of the last evaluation: its error, or the directed result of its rational.
#[verifier::rlimit(60)]
pub fn eval_adaptive<T: BinaryFloat, F: Fn(usize, Direction) -> Result<Rational>>(
    direction: Direction,
    start: usize,
    zero_negative: bool,
    raw_at: F,
) -> (res: Result<Rounded<T>>)
    requires
        forall|precision: usize, d: Direction| #[trigger] raw_at.requires((precision, d)),
    ensures
        exists|raws: Seq<Result<Rational>>|
            #[trigger] adaptive_trace(
                T::format_spec(),
                adaptive_start_precision(T::format_spec(), start),
                raws,
                direction,
                zero_negative,
            ) && (forall|i: int|
                0 <= i < raws.len() ==> raw_at.ensures(
                    (
                        adaptive_precision(
                            adaptive_start_precision(T::format_spec(), start),
                            i as nat,
                        ) as usize,
                        direction,
                    ),
                    #[trigger] raws[i],
                )) && match raws.last() {
                Err(e) => res == Err::<Rounded<T>, Error>(e),
                Ok(q) => directed_result::<T>(q@, direction, zero_negative, res),
            },
{
    let ghost fmt = T::format_spec();
    let mut state = adaptive_start::<T>(start);
    let ghost p0 = state.precision as nat;
    let ghost mut raws: Seq<Result<Rational>> = Seq::empty();
    proof {
        lemma_format_facts(fmt);
    }
    loop
        invariant
            forall|precision: usize, d: Direction| #[trigger] raw_at.requires((precision, d)),
            fmt == T::format_spec(),
            p0 == adaptive_start_precision(fmt, start),
            0 < state.precision <= PRECISION_CAP,
            state.precision == adaptive_precision(p0, raws.len()),
            raws.len() == 0 ==> state.previous is None,
            raws.len() > 0 ==> state.previous == Some(
                rounded_encoding(fmt, raws.last()->Ok_0@, direction, zero_negative),
            ),
            forall|i: int|
                0 <= i < raws.len() ==> #[trigger] raws[i] is Ok && !adaptive_stops(
                    fmt,
                    p0,
                    raws,
                    direction,
                    zero_negative,
                    i,
                ),
            forall|i: int|
                0 <= i < raws.len() ==> raw_at.ensures(
                    (adaptive_precision(p0, i as nat) as usize, direction),
                    #[trigger] raws[i],
                ),
        decreases PRECISION_CAP - state.precision,
    {
        let raw = raw_at(state.precision, direction);
        let ghost before = raws;
        proof {
            raws = raws.push(raw);
            assert(raws[before.len() as int] == raw);
            assert forall|i: int| 0 <= i < before.len() implies adaptive_stops(
                fmt,
                p0,
                raws,
                direction,
                zero_negative,
                i,
            ) == adaptive_stops(fmt, p0, before, direction, zero_negative, i) by {
                assert(raws[i] == before[i]);
                if i >= 1 {
                    assert(raws[i - 1] == before[i - 1]);
                }
            }
            assert forall|i: int| 0 <= i < raws.len() implies raw_at.ensures(
                (adaptive_precision(p0, i as nat) as usize, direction),
                #[trigger] raws[i],
            ) by {
                if i < before.len() {
                    assert(raws[i] == before[i]);
                }
            }
            assert forall|i: int| 0 <= i < raws.len() - 1 implies #[trigger] raws[i] is Ok
                && !adaptive_stops(fmt, p0, raws, direction, zero_negative, i) by {
                assert(raws[i] == before[i]);
            }
        }
        match raw {
            Err(e) => {
                assert(adaptive_trace(fmt, p0, raws, direction, zero_negative));
                return Err(e);
            },
            Ok(q) => {
                proof {
                    use_type_invariant(&q);
                }
                match adaptive_step::<T>(state, &q, direction, zero_negative) {
                    AdaptiveStep::Retry(next) => {
                        proof {
                            let bits = choose|bits: u64|
                                rounds_to(fmt, q@, direction, zero_negative, bits);
                            rounding_is_unique(
                                fmt,
                                q@,
                                direction,
                                zero_negative,
                                bits,
                                next.previous->Some_0,
                            );
                            let n = before.len() as int;
                            if n >= 1 {
                                assert(raws[n - 1] == before.last());
                            }
                            assert(!adaptive_stops(fmt, p0, raws, direction, zero_negative, n));
                        }
                        state = next;
                    },
                    AdaptiveStep::Done(result) => {
                        proof {
                            let n = before.len() as int;
                            let bits = choose|bits: u64|
                                rounds_to(fmt, q@, direction, zero_negative, bits);
                            if n >= 1 {
                                assert(raws[n - 1] == before.last());
                            }
                            assert(adaptive_stops(fmt, p0, raws, direction, zero_negative, n)) by {
                                if adaptive_precision(p0, n as nat) < PRECISION_CAP {
                                    let b = choose|b: u64|
                                        #![trigger rounds_to(fmt, q@, direction, zero_negative, b)]
                                        rounds_to(fmt, q@, direction, zero_negative, b) && (
                                        state.previous == Some(b) || state.precision
                                            >= PRECISION_CAP);
                                    rounding_is_unique(fmt, q@, direction, zero_negative, b, bits);
                                }
                            }
                            assert(adaptive_trace(fmt, p0, raws, direction, zero_negative));
                        }
                        return result;
                    },
                }
            },
        }
    }
}

} // verus!
