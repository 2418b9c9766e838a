//! The one recoverable error of the arithmetic.
use vstd::prelude::*;

verus! {

/// What an arithmetic operation can fail with.
#[derive(Debug, Clone, Copy, PartialEq, Eq, Structural)]
pub enum ArithmeticError {
    /// The divisor was zero.
    DividedByZero,
}

impl ArithmeticError {
    /// A short description of the error.
    pub fn message(&self) -> (r: &'static str)
        ensures
            r@ == "Division by zero"@,
    {
        match self {
            ArithmeticError::DividedByZero => "Division by zero",
        }
    }
}

} // verus!
