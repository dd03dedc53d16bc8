//! Decisions shared by the directed operations of the providers.
//!
//! A provider that rounds through a native or multiple-precision float
//! library first rejects inputs outside the operation, may settle a result
//! from a cheap native value, and finally turns the library's result into a
//! directed outcome. These steps are the same for every provider and are
//! decided here on the encodings; the float arithmetic itself stays with the
//! caller.
use vstd::arithmetic::div_mod::lemma_fundamental_div_mod_converse;
use vstd::arithmetic::power2::{lemma_pow2_adds, pow2};
use vstd::prelude::*;

use crate::binary::{
    finite, is_finite, is_zero, lemma_format_facts, lemma_rank_bits, lemma_rank_value_monotone,
    magnitude_bits, max_finite, max_ratio, min_pos_subnormal, rank, rank_bits, rank_value, sign_negative, sign_set,
    sign_weight, signed_zero, value_of, zero, BinaryFloat, Format,
};
use crate::error::{domain_error, non_finite_input, overflow_error, Error, ErrorKind, Result};
use crate::ratio::{rat_le, rat_lt};
use crate::rounding::{Direction, Rounded};

verus! {

/// The elementary functions of the directed unary operations.
#[derive(Clone, Copy, Debug, PartialEq, Eq, Structural)]
pub enum Elementary {
    Ln,
    Log2,
    Ln1p,
    Exp,
    ExpM1,
    Sqrt,
}

/// The encoding (and rank) of one.
pub open spec fn one_rank(fmt: Format) -> nat {
    match fmt {
        Format::Binary32 => 0x3f80_0000,
        Format::Binary64 => 0x3ff0_0000_0000_0000,
    }
}

/// One is worth the format's scale: its rank's value, in units of the least
/// subnormal, is `2^subnormal_exponent`.
pub proof fn lemma_one_value(fmt: Format)
    ensures
        rank_value(fmt, one_rank(fmt) as int) == fmt.scale(),
        0 < one_rank(fmt) < fmt.max_rank(),
{
    lemma_format_facts(fmt);
    match fmt {
        Format::Binary32 => {
            lemma_fundamental_div_mod_converse(0x3f80_0000, 0x80_0000, 127, 0);
            lemma_pow2_adds(23, 126);
        },
        Format::Binary64 => {
            lemma_fundamental_div_mod_converse(
                0x3ff0_0000_0000_0000,
                0x10_0000_0000_0000,
                1023,
                0,
            );
            lemma_pow2_adds(52, 1022);
        },
    }
}

/// The finite value `bits` lies in the domain of `op`: above zero for the
/// logarithms, above minus one for `ln1p`, at least zero for the square root,
/// anywhere for the exponentials.
pub open spec fn in_domain(fmt: Format, op: Elementary, bits: u64) -> bool {
    let v = value_of(fmt, bits);
    match op {
        Elementary::Ln | Elementary::Log2 => rat_lt((0, 1), v),
        Elementary::Ln1p => rat_lt((-1, 1), v),
        Elementary::Sqrt => rat_le((0, 1), v),
        Elementary::Exp | Elementary::ExpM1 => true,
    }
}

/// Where the elementary functions are defined on the reals: the exponentials
/// everywhere, the logarithms above zero, `ln1p` above minus one and the
/// square root from zero on.
pub proof fn elementary_domains(fmt: Format, bits: u64)
    ensures
        in_domain(fmt, Elementary::Exp, bits),
        in_domain(fmt, Elementary::ExpM1, bits),
        in_domain(fmt, Elementary::Ln, bits) == (value_of(fmt, bits).0 > 0),
        in_domain(fmt, Elementary::Log2, bits) == (value_of(fmt, bits).0 > 0),
        in_domain(fmt, Elementary::Ln1p, bits) == (value_of(fmt, bits).0 + value_of(fmt, bits).1 > 0),
        in_domain(fmt, Elementary::Sqrt, bits) == (value_of(fmt, bits).0 >= 0),
{
}

fn one_bits(fmt: Format) -> (res: u64)
    ensures
        res == one_rank(fmt),
{
    match fmt {
        Format::Binary32 => 0x3f80_0000,
        Format::Binary64 => 0x3ff0_0000_0000_0000,
    }
}

/// The input checks of a directed unary operation: a non-finite input is an
/// error, then one outside the operation's domain.
pub fn unary_guard<T: BinaryFloat>(op: Elementary, value: T) -> (res: Result<()>)
    ensures
        !finite(T::format_spec(), value.encoding()) ==> res == Err::<(), Error>(
            Error { kind: ErrorKind::NonFinite, message: "input must be finite" },
        ),
        finite(T::format_spec(), value.encoding()) && !in_domain(
            T::format_spec(),
            op,
            value.encoding(),
        ) ==> res == Err::<(), Error>(
            Error { kind: ErrorKind::Domain, message: "input is outside the operation domain" },
        ),
        finite(T::format_spec(), value.encoding()) && in_domain(
            T::format_spec(),
            op,
            value.encoding(),
        ) ==> res == Ok::<(), Error>(()),
        (op == Elementary::Exp || op == Elementary::ExpM1) && finite(
            T::format_spec(),
            value.encoding(),
        ) ==> res == Ok::<(), Error>(()),
{
    let fmt = T::format();
    let bits = value.to_encoding();
    if !is_finite(fmt, bits) {
        return Err(non_finite_input());
    }
    let negative = sign_negative(fmt, bits);
    let nil = is_zero(fmt, bits);
    let allowed = match op {
        Elementary::Ln | Elementary::Log2 => !negative && !nil,
        Elementary::Ln1p => !negative || bits % sign_weight(fmt) < one_bits(fmt),
        Elementary::Sqrt => !negative || nil,
        Elementary::Exp | Elementary::ExpM1 => true,
    };
    proof {
        let k = rank(fmt, bits);
        let v = value_of(fmt, bits);
        let one = one_rank(fmt) as int;
        lemma_format_facts(fmt);
        lemma_rank_value_monotone(fmt, k, 0);
        lemma_one_value(fmt);
        lemma_rank_value_monotone(fmt, -one, k);
        assert(rank_value(fmt, -one) == -rank_value(fmt, one));
        assert(v == (rank_value(fmt, k), fmt.scale() as int));
        vstd::arithmetic::mul::lemma_mul_basics(v.0);
        vstd::arithmetic::mul::lemma_mul_basics(v.1);
        vstd::arithmetic::mul::lemma_mul_basics(-1);
        assert(-1 * v.1 == -v.1) by (nonlinear_arith);
        assert(rat_lt((0, 1), v) == (rank_value(fmt, k) > 0));
        assert(rat_le((0, 1), v) == (rank_value(fmt, k) >= 0));
        assert(rat_lt((-1, 1), v) == (rank_value(fmt, k) > -(fmt.scale() as int)));
        assert((bits as nat) % fmt.sign_weight() == magnitude_bits(fmt, bits));
        assert(allowed == in_domain(fmt, op, bits));
    }
    if !allowed {
        return Err(domain_error());
    }
    Ok(())
}

/// The input checks of a directed binary operation: a non-finite operand is an
/// error, then a zero divisor.
pub fn binary_guard<T: BinaryFloat>(division: bool, lhs: T, rhs: T) -> (res: Result<()>)
    ensures
        !finite(T::format_spec(), lhs.encoding()) || !finite(T::format_spec(), rhs.encoding())
            ==> res == Err::<(), Error>(
            Error { kind: ErrorKind::NonFinite, message: "input must be finite" },
        ),
        finite(T::format_spec(), lhs.encoding()) && finite(T::format_spec(), rhs.encoding())
            && division && zero(T::format_spec(), rhs.encoding()) ==> res == Err::<(), Error>(
            Error { kind: ErrorKind::DivisionByZero, message: "division by zero" },
        ),
        finite(T::format_spec(), lhs.encoding()) && finite(T::format_spec(), rhs.encoding()) && !(
        division && zero(T::format_spec(), rhs.encoding())) ==> res == Ok::<(), Error>(()),
{
    let fmt = T::format();
    if !is_finite(fmt, lhs.to_encoding()) || !is_finite(fmt, rhs.to_encoding()) {
        return Err(non_finite_input());
    }
    if division && is_zero(fmt, rhs.to_encoding()) {
        return Err(Error::new(ErrorKind::DivisionByZero, "division by zero"));
    }
    Ok(())
}

/// The input checks of an integer power: a non-finite base is an error, then
/// a zero base with a negative exponent.
pub fn powi_guard<T: BinaryFloat>(base: T, exponent_negative: bool) -> (res: Result<()>)
    ensures
        !finite(T::format_spec(), base.encoding()) ==> res == Err::<(), Error>(
            Error { kind: ErrorKind::NonFinite, message: "input must be finite" },
        ),
        finite(T::format_spec(), base.encoding()) && zero(T::format_spec(), base.encoding())
            && exponent_negative ==> res == Err::<(), Error>(
            Error { kind: ErrorKind::DivisionByZero, message: "zero to a negative power" },
        ),
        finite(T::format_spec(), base.encoding()) && !(zero(T::format_spec(), base.encoding())
            && exponent_negative) ==> res == Ok::<(), Error>(()),
{
    let fmt = T::format();
    let bits = base.to_encoding();
    if !is_finite(fmt, bits) {
        return Err(non_finite_input());
    }
    if is_zero(fmt, bits) && exponent_negative {
        return Err(Error::new(ErrorKind::DivisionByZero, "zero to a negative power"));
    }
    Ok(())
}

/// The outcome of a float library's directed result, already converted to
/// the format as `output`: a NaN result means the input was outside the
/// domain, a non-finite output is an overflow.
pub fn finish<T: BinaryFloat>(is_nan: bool, output: T, direction: Direction) -> (res: Result<
    Rounded<T>,
>)
    ensures
        is_nan ==> res == Err::<Rounded<T>, Error>(
            Error { kind: ErrorKind::Domain, message: "input is outside the operation domain" },
        ),
        !is_nan && !finite(T::format_spec(), output.encoding()) ==> res == Err::<Rounded<T>, Error>(
            Error { kind: ErrorKind::Overflow, message: "operation produced a non-finite value" },
        ),
        !is_nan && finite(T::format_spec(), output.encoding()) ==> res == Ok::<Rounded<T>, Error>(
            Rounded { value: output, direction },
        ),
{
    if is_nan {
        return Err(domain_error());
    }
    if !is_finite(T::format(), output.to_encoding()) {
        return Err(overflow_error());
    }
    Ok(Rounded::new(output, direction))
}

/// A native result that is infinite is settled without the multiple-precision
/// library: rounding down saturates at the greatest finite value, the other
/// directions overflow.
pub open spec fn saturated<T: BinaryFloat>(direction: Direction, result: Result<Rounded<T>>) -> bool {
    if direction == Direction::Down {
        result matches Ok(r) && r.value.encoding() == T::format_spec().max_rank() && r.direction
            == direction
    } else {
        result == Err::<Rounded<T>, Error>(
            Error { kind: ErrorKind::Overflow, message: "operation produced a non-finite value" },
        )
    }
}

/// An infinite native result settles to the greatest finite value when
/// rounding down, and to an overflow error otherwise.
pub proof fn saturation_is_the_greatest_finite_value<T: BinaryFloat>(
    direction: Direction,
    result: Result<Rounded<T>>,
)
    requires
        saturated::<T>(direction, result),
    ensures
        direction == Direction::Down ==> (result matches Ok(r) && finite(
            T::format_spec(),
            r.value.encoding(),
        ) && !sign_set(T::format_spec(), r.value.encoding()) && value_of(
            T::format_spec(),
            r.value.encoding(),
        ) == max_ratio(T::format_spec())),
        direction != Direction::Down ==> (result matches Err(e) && e.kind == ErrorKind::Overflow),
{
    let fmt = T::format_spec();
    lemma_format_facts(fmt);
    lemma_rank_bits(fmt, fmt.max_rank() as int, false);
}

fn saturate<T: BinaryFloat>(direction: Direction) -> (res: Result<Rounded<T>>)
    ensures
        saturated::<T>(direction, res),
{
    let fmt = T::format();
    match direction {
        Direction::Down => {
            proof {
                lemma_format_facts(fmt);
            }
            Ok(Rounded::new(T::from_encoding(max_finite(fmt)), direction))
        },
        _ => Err(overflow_error()),
    }
}

/// The shortcut of `exp` from the native result of a finite input: a native
/// zero means the true value lies between zero and the least subnormal, so
/// rounding up gives the least subnormal and the other directions `+0`; an
/// infinite native result saturates; otherwise there is no shortcut.
pub fn exp_shortcut<T: BinaryFloat>(native: T, direction: Direction) -> (res: Option<
    Result<Rounded<T>>,
>)
    ensures
        zero(T::format_spec(), native.encoding()) ==> (res matches Some(Ok(r)) && r.direction
            == direction && r.value.encoding() == (if direction == Direction::Up {
            rank_bits(T::format_spec(), 1, false)
        } else {
            rank_bits(T::format_spec(), 0, false)
        })),
        !zero(T::format_spec(), native.encoding()) && !finite(
            T::format_spec(),
            native.encoding(),
        ) ==> (res matches Some(outcome) && saturated::<T>(direction, outcome)),
        !zero(T::format_spec(), native.encoding()) && finite(T::format_spec(), native.encoding())
            ==> res is None,
{
    let fmt = T::format();
    let bits = native.to_encoding();
    if is_zero(fmt, bits) {
        proof {
            lemma_format_facts(fmt);
        }
        let output = match direction {
            Direction::Up => min_pos_subnormal(fmt),
            _ => signed_zero(fmt, false),
        };
        return Some(Ok(Rounded::new(T::from_encoding(output), direction)));
    }
    if !is_finite(fmt, bits) {
        return Some(saturate::<T>(direction));
    }
    None
}

/// The shortcut of `expm1` from the native result of a finite input: an
/// infinite native result saturates; a native `-1` means the true value lies
/// just above `-1`, so rounding up gives the successor of `-1` and the other
/// directions `-1`; otherwise there is no shortcut.
pub fn expm1_shortcut<T: BinaryFloat>(native: T, direction: Direction) -> (res: Option<
    Result<Rounded<T>>,
>)
    ensures
        !finite(T::format_spec(), native.encoding()) ==> (res matches Some(outcome) && saturated::<
            T,
        >(direction, outcome)),
        native.encoding() == rank_bits(T::format_spec(), -(one_rank(T::format_spec()) as int), false)
            ==> (res matches Some(Ok(r)) && r.direction == direction && r.value.encoding() == (
        if direction == Direction::Up {
            rank_bits(T::format_spec(), -(one_rank(T::format_spec()) as int) + 1, false)
        } else {
            rank_bits(T::format_spec(), -(one_rank(T::format_spec()) as int), false)
        })),
        finite(T::format_spec(), native.encoding()) && native.encoding() != rank_bits(
            T::format_spec(),
            -(one_rank(T::format_spec()) as int),
            false,
        ) ==> res is None,
{
    let fmt = T::format();
    let bits = native.to_encoding();
    proof {
        lemma_format_facts(fmt);
        lemma_one_value(fmt);
    }
    if !is_finite(fmt, bits) {
        return Some(saturate::<T>(direction));
    }
    let minus_one = sign_weight(fmt) + one_bits(fmt);
    if bits == minus_one {
        let output = match direction {
            Direction::Up => minus_one - 1,
            _ => minus_one,
        };
        return Some(Ok(Rounded::new(T::from_encoding(output), direction)));
    }
    None
}

} // verus!
