//! Operation codes of the operation-sequence target.
use vstd::prelude::*;

verus! {

/// The name of an operation code; every code from ten up is `powi`.
pub fn operation_name(operation: u8) -> (res: &'static str)
    ensures
        operation == 0 ==> res == "add",
        operation == 1 ==> res == "sub",
        operation == 2 ==> res == "mul",
        operation == 3 ==> res == "div",
        operation == 4 ==> res == "ln",
        operation == 5 ==> res == "log2",
        operation == 6 ==> res == "ln1p",
        operation == 7 ==> res == "exp",
        operation == 8 ==> res == "expm1",
        operation == 9 ==> res == "sqrt",
        operation >= 10 ==> res == "powi",
{
    match operation {
        0 => "add",
        1 => "sub",
        2 => "mul",
        3 => "div",
        4 => "ln",
        5 => "log2",
        6 => "ln1p",
        7 => "exp",
        8 => "expm1",
        9 => "sqrt",
        _ => "powi",
    }
}

} // verus!
