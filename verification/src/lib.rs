//! Backend-neutral numerical capability contracts.
//!
//! Providers are named by zero-sized backend markers. Exact operations work on
//! the library's plain natural, integer and rational numbers; directed
//! operations work on IEEE 754 binary32 and binary64 values held as their
//! encodings.
pub mod backend;
pub mod binary;
pub mod capability;
pub mod decimal;
pub mod error;
pub mod fuzz;
pub mod laws;
pub mod number;
pub mod operation;
pub mod ratio;
pub mod rounding;

pub use capability::{
    Backend, CheckedBinary, Convert, DirectedBinary, DirectedPowI, DirectedUnary, ExactBinary,
    ExactUnary, FromParts, IntoParts,
};
pub use error::{Error, ErrorKind, Result};
pub use operation::{Add, Div, Exp, ExpM1, Ln, Ln1p, Log2, Mul, Neg, PowI, Rem, Sqrt, Sub};
pub use rounding::{Direction, Rounded};
