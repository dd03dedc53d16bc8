//! Errors reported by the capabilities.
use vstd::prelude::*;

verus! {

/// What went wrong.
#[derive(Clone, Copy, Debug, Eq, PartialEq, Structural)]
#[non_exhaustive]
pub enum ErrorKind {
    DivisionByZero,
    Domain,
    NonFinite,
    Overflow,
    Underflow,
    Unsupported,
    Backend,
}

/// The name of a kind, as `Debug` prints it.
pub open spec fn kind_name(kind: ErrorKind) -> &'static str {
    match kind {
        ErrorKind::DivisionByZero => "DivisionByZero",
        ErrorKind::Domain => "Domain",
        ErrorKind::NonFinite => "NonFinite",
        ErrorKind::Overflow => "Overflow",
        ErrorKind::Underflow => "Underflow",
        ErrorKind::Unsupported => "Unsupported",
        ErrorKind::Backend => "Backend",
    }
}

impl ErrorKind {
    /// The variant's name, as `Debug` prints it.
    pub fn name(self) -> (res: &'static str)
        ensures
            res == kind_name(self),
            self == ErrorKind::DivisionByZero ==> res == "DivisionByZero",
            self == ErrorKind::Domain ==> res == "Domain",
            self == ErrorKind::NonFinite ==> res == "NonFinite",
            self == ErrorKind::Overflow ==> res == "Overflow",
            self == ErrorKind::Underflow ==> res == "Underflow",
            self == ErrorKind::Unsupported ==> res == "Unsupported",
            self == ErrorKind::Backend ==> res == "Backend",
    {
        match self {
            ErrorKind::DivisionByZero => "DivisionByZero",
            ErrorKind::Domain => "Domain",
            ErrorKind::NonFinite => "NonFinite",
            ErrorKind::Overflow => "Overflow",
            ErrorKind::Underflow => "Underflow",
            ErrorKind::Unsupported => "Unsupported",
            ErrorKind::Backend => "Backend",
        }
    }
}

/// An error kind with a fixed human-readable message.
#[derive(Clone, Debug, Eq, PartialEq)]
pub struct Error {
    pub kind: ErrorKind,
    pub message: &'static str,
}

pub type Result<T> = core::result::Result<T, Error>;

impl Error {
    pub fn new(kind: ErrorKind, message: &'static str) -> (res: Self)
        ensures
            res.kind == kind,
            res.message == message,
    {
        Error { kind, message }
    }

    /// The message, which is what the error displays.
    pub fn message(&self) -> (res: &'static str)
        ensures
            res == self.message,
    {
        self.message
    }
}

/// An input was an infinity or a NaN.
pub fn non_finite_input() -> (res: Error)
    ensures
        res.kind == ErrorKind::NonFinite,
        res.message == "input must be finite",
{
    Error::new(ErrorKind::NonFinite, "input must be finite")
}

/// An input lies outside the domain of the operation.
pub fn domain_error() -> (res: Error)
    ensures
        res.kind == ErrorKind::Domain,
        res.message == "input is outside the operation domain",
{
    Error::new(ErrorKind::Domain, "input is outside the operation domain")
}

/// The directed result is not finite.
pub fn overflow_error() -> (res: Error)
    ensures
        res.kind == ErrorKind::Overflow,
        res.message == "operation produced a non-finite value",
{
    Error::new(ErrorKind::Overflow, "operation produced a non-finite value")
}

/// The divisor is zero.
pub fn division_by_zero() -> (res: Error)
    ensures
        res.kind == ErrorKind::DivisionByZero,
        res.message == "division by zero",
{
    Error::new(ErrorKind::DivisionByZero, "division by zero")
}

} // verus!
