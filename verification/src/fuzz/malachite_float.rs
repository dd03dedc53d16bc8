//! Report texts of the target that holds the Malachite provider against MPFR.
use vstd::prelude::*;

use crate::error::{Error, Result};
use crate::fuzz::directed_binary::{error_text, format_error};

verus! {

/// Why two outcomes that should agree do not: which side failed.
pub fn reason<T>(mal: &Result<T>, mpfr: &Result<T>) -> (res: &'static str)
    ensures
        mal is Ok && mpfr is Ok ==> res == "correctly rounded value differs from MPFR",
        mal is Ok && mpfr is Err ==> res == "Malachite returned a value where MPFR reports an error",
        mal is Err && mpfr is Ok ==> res == "Malachite returned an error for a valid MPFR result",
        mal is Err && mpfr is Err ==> res == "Malachite and MPFR classify the error differently",
{
    match (mal, mpfr) {
        (Ok(_), Ok(_)) => "correctly rounded value differs from MPFR",
        (Ok(_), Err(_)) => "Malachite returned a value where MPFR reports an error",
        (Err(_), Ok(_)) => "Malachite returned an error for a valid MPFR result",
        (Err(_), Err(_)) => "Malachite and MPFR classify the error differently",
    }
}

/// The report text of an error: its kind's name and its message.
pub fn err(e: &Error) -> (res: String)
    ensures
        res@ == error_text(*e),
{
    format_error(e)
}

} // verus!
