//! The MPFR provider.
//!
//! Its numbers are the library's plain values; a caller that holds `rug`
//! numbers converts them at the edge. The directed operations round through
//! MPFR's floats, so only their input checks and the reading of MPFR's result
//! are decided here (see `directed`). A rational is built in lowest terms, as
//! MPFR's canonical rationals are; dashu's `RBig::from_parts` reduces it.
use vstd::prelude::*;

use crate::backend::dashu::rbig_from_parts;
use crate::capability::{Backend, FromParts};
use crate::error::{Error, ErrorKind, Result};
use crate::number::{Integer, Rational};
use crate::ratio::{lemma_rat_eq_trans, rat_eq, rat_reduced};

verus! {

/// The MPFR provider (`rug` crate).
#[derive(Clone, Copy, Debug, Default)]
pub struct Mpfr;

impl Backend for Mpfr {
    // MPFR's integers are signed; natural numbers are integers that the
    // callers keep nonnegative.
    type Natural = Integer;
    type Integer = Integer;
    type Rational = Rational;
}

impl FromParts<Rational, Integer, Integer> for Mpfr {
    /// A zero denominator is an error; otherwise the number
    /// `numerator / denominator` in lowest terms, with a positive denominator
    /// even when the given one is negative.
    open spec fn constructs(numerator: Integer, denominator: Integer, result: Result<Rational>) -> bool {
        if denominator@ == 0 {
            result == Err::<Rational, Error>(
                Error { kind: ErrorKind::DivisionByZero, message: "zero rational denominator" },
            )
        } else {
            result matches Ok(r) && rat_eq(r@, (numerator@, denominator@)) && rat_reduced(r@)
        }
    }

    fn from_parts(numerator: Integer, denominator: Integer) -> (res: Result<Rational>) {
        if denominator.is_zero() {
            return Err(Error::new(ErrorKind::DivisionByZero, "zero rational denominator"));
        }
        let negative = denominator.is_negative();
        let magnitude = denominator.unsigned_abs();
        let signed_numerator = if negative {
            numerator.negated()
        } else {
            numerator
        };
        let value = rbig_from_parts(&signed_numerator, &magnitude);
        proof {
            let n = numerator@;
            let d = denominator@;
            let sn = signed_numerator@;
            let m = magnitude@ as int;
            assert(sn * d == n * m) by (nonlinear_arith)
                requires
                    (d < 0 && sn == -n && m == -d) || (d > 0 && sn == n && m == d),
            ;
            assert(rat_eq((sn, m), (n, d)));
            lemma_rat_eq_trans(value@, (sn, m), (n, d));
        }
        Ok(value)
    }
}

} // verus!
