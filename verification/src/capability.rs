//! Capabilities that a numerical backend can provide.
//!
//! Each capability names, beside its operation, a predicate that a provider
//! defines: what the operation returns for given arguments.
use vstd::prelude::*;

use crate::error::Result;
use crate::rounding::{Direction, Rounded};

verus! {

/// Associates a provider with the exact-number types it works on.
pub trait Backend {
    type Natural;
    type Integer;
    type Rational;
}

/// Exact binary operation evaluated into the output type.
pub trait ExactBinary<Op, T> {
    /// `result` is the exact result of the operation on `lhs` and `rhs`.
    spec fn evaluates(lhs: T, rhs: T, result: T) -> bool;

    fn eval(lhs: &T, rhs: &T) -> (res: T)
        ensures
            Self::evaluates(*lhs, *rhs, res),
    ;
}

/// Exact unary operation evaluated into the output type.
pub trait ExactUnary<Op, T> {
    /// `result` is the exact result of the operation on `value`.
    spec fn evaluates(value: T, result: T) -> bool;

    fn eval(value: &T) -> (res: T)
        ensures
            Self::evaluates(*value, res),
    ;
}

/// Checked operation whose mathematical preconditions may be violated.
pub trait CheckedBinary<Op, T> {
    /// `result` is what the operation returns on `lhs` and `rhs`.
    spec fn evaluates(lhs: T, rhs: T, result: Result<T>) -> bool;

    fn eval(lhs: &T, rhs: &T) -> (res: Result<T>)
        ensures
            Self::evaluates(*lhs, *rhs, res),
    ;
}

/// Correctly directed primitive unary operation.
pub trait DirectedUnary<Op, T> {
    fn eval(value: T, direction: Direction) -> Result<Rounded<T>>;
}

/// Correctly directed primitive binary operation.
pub trait DirectedBinary<Op, T> {
    /// `result` is what the operation returns on `lhs` and `rhs` rounded in `direction`.
    spec fn evaluates(lhs: T, rhs: T, direction: Direction, result: Result<Rounded<T>>) -> bool;

    fn eval(lhs: T, rhs: T, direction: Direction) -> (res: Result<Rounded<T>>)
        ensures
            Self::evaluates(lhs, rhs, direction, res),
    ;
}

/// Correctly directed primitive power with a signed integer exponent.
///
/// `E` is the provider's exponent type, so an arbitrary-precision exponent is
/// not narrowed before the provider sees it.
pub trait DirectedPowI<T, E: ?Sized = i32> {
    fn eval(base: T, exponent: &E, direction: Direction) -> Result<Rounded<T>>;
}

/// Conversion with an explicit rounding contract.
pub trait Convert<From, To> {
    /// `result` is what converting `value` in `direction` returns.
    spec fn converts(value: From, direction: Direction, result: Result<Rounded<To>>) -> bool;

    fn convert(value: &From, direction: Direction) -> (res: Result<Rounded<To>>)
        ensures
            Self::converts(*value, direction, res),
    ;
}

/// Construct a canonical rational from its parts.
pub trait FromParts<Rational, Integer, Natural> {
    /// `result` is what constructing from `numerator` and `denominator` returns.
    spec fn constructs(numerator: Integer, denominator: Natural, result: Result<Rational>) -> bool;

    fn from_parts(numerator: Integer, denominator: Natural) -> (res: Result<Rational>)
        ensures
            Self::constructs(numerator, denominator, res),
    ;
}

/// Consume a canonical rational into its parts.
pub trait IntoParts<Rational, Integer, Natural> {
    /// `parts` are the numerator and the denominator of `value`.
    spec fn decomposes(value: Rational, parts: (Integer, Natural)) -> bool;

    fn into_parts(value: Rational) -> (res: (Integer, Natural))
        ensures
            Self::decomposes(value, res),
    ;
}

} // verus!
