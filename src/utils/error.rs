//! Errors that the library reports to its callers.
use vstd::prelude::*;

verus! {

/// Why an operation could not produce a value.
#[derive(Debug, Clone, Copy, PartialEq, Eq, Structural)]
pub enum LoquatError {
    /// An inverse or a Legendre evaluation was asked for at zero modulo `P`.
    ArithmeticError,
    /// A byte string of the wrong length, or a value outside the field.
    EncodingError,
}

} // verus!
