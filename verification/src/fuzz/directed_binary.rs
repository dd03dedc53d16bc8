//! Report texts of the directed-operation targets, which hold the Dashu
//! provider against MPFR.
use vstd::prelude::*;

use crate::error::{kind_name, Error, Result};

verus! {

/// Why two outcomes that should agree do not: which side failed.
pub fn outcome_reason<T>(dashu: &Result<T>, mpfr: &Result<T>) -> (res: &'static str)
    ensures
        dashu is Ok && mpfr is Ok ==> res == "correctly rounded value differs from MPFR",
        dashu is Ok && mpfr is Err ==> res == "Dashu returned a value where MPFR reports an error",
        dashu is Err && mpfr is Ok ==> res == "Dashu returned an error for a valid MPFR result",
        dashu is Err && mpfr is Err ==> res == "Dashu and MPFR classify the error differently",
{
    match (dashu, mpfr) {
        (Ok(_), Ok(_)) => "correctly rounded value differs from MPFR",
        (Ok(_), Err(_)) => "Dashu returned a value where MPFR reports an error",
        (Err(_), Ok(_)) => "Dashu returned an error for a valid MPFR result",
        (Err(_), Err(_)) => "Dashu and MPFR classify the error differently",
    }
}

/// The report text of an error: `error <kind>: <message>`.
pub open spec fn error_text(error: Error) -> Seq<char> {
    "error "@ + kind_name(error.kind)@ + ": "@ + error.message@
}

/// The report text of an error: its kind's name and its message.
pub fn format_error(error: &Error) -> (res: String)
    ensures
        res@ == error_text(*error),
{
    let mut text = String::from_str("error ");
    text.append(error.kind.name());
    text.append(": ");
    text.append(error.message);
    text
}

} // verus!
