//! Rounding directions and directed results.
use vstd::prelude::*;

verus! {

/// The side of the exact mathematical result that a directed operation returns.
#[derive(Clone, Copy, Debug, Eq, PartialEq, Structural)]
pub enum Direction {
    /// Output is no greater than the exact mathematical result.
    Down,
    /// Output is nearest under the provider's documented tie rule.
    Nearest,
    /// Output is no less than the exact mathematical result.
    Up,
}

/// A directed result together with the direction it was rounded in.
#[derive(Clone, Copy, Debug, PartialEq)]
pub struct Rounded<T> {
    pub value: T,
    pub direction: Direction,
}

impl<T> Rounded<T> {
    pub fn new(value: T, direction: Direction) -> (res: Self)
        ensures
            res.value == value,
            res.direction == direction,
    {
        Rounded { value, direction }
    }
}

} // verus!
