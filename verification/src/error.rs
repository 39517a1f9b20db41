//! The failures that key generation reports to its caller.

use vstd::prelude::*;

verus! {

/// Why an operation of this library gave no result.
#[derive(Clone, Copy, Debug, PartialEq, Eq, Structural)]
pub enum KeygenError {
    /// An argument lies outside the domain of the operation: an empty range,
    /// a modulus not above one, a negative exponent, or a value too wide for
    /// the arithmetic to stay inside a key.
    InvalidArgument,
    /// The operand has no inverse for the modulus: the two share a factor.
    NotInvertible,
    /// A rejection-sampling search used up its attempts without a hit.
    ExhaustedSearch,
}

} // verus!
