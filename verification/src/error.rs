//! The failures that the library reports to its callers.

use vstd::prelude::*;
use vstd::string::*;

verus! {

/// Why an operation of the library could not produce its result.
#[derive(Clone, Copy, Debug, PartialEq, Eq, Structural)]
pub enum ShamirError {
    /// A split was asked for with a threshold above the number of shares.
    InvalidParameters,
    /// Fewer than two shares were offered for a reconstruction.
    InsufficientShares,
    /// Two of the shares offered for a reconstruction carry the same index.
    DuplicatePoints,
    /// A field element that had to be inverted has no inverse under the
    /// modulus: the modulus is not prime, or two share indices coincide
    /// modulo it.
    NonInvertible,
    /// A character of a text to decode is not a symbol of the alphabet.
    InvalidSymbol,
    /// A share text is not an index, a hyphen and a value.
    MalformedShare,
    /// The index of a share text does not fit a machine word.
    InvalidIndex,
}

impl ShamirError {
    /// The sentence that describes the failure to a person.
    pub open spec fn sentence(&self) -> Seq<char> {
        match *self {
            ShamirError::InvalidParameters => "can't have a threshold higher than the shares"@,
            ShamirError::InsufficientShares => "cannot use less than two shares"@,
            ShamirError::DuplicatePoints
                => "points for the lagrange interpolation are not distinct"@,
            ShamirError::NonInvertible => "a denominator has no inverse under the modulus"@,
            ShamirError::InvalidSymbol => "Invalid character"@,
            ShamirError::MalformedShare => "Invalid key"@,
            ShamirError::InvalidIndex => "Invalid share index"@,
        }
    }

    /// The sentence that describes the failure to a person.
    pub fn message(&self) -> (s: String)
        ensures
            s@ == self.sentence(),
    {
        match self {
            ShamirError::InvalidParameters => String::from_str(
                "can't have a threshold higher than the shares",
            ),
            ShamirError::InsufficientShares => String::from_str("cannot use less than two shares"),
            ShamirError::DuplicatePoints => String::from_str(
                "points for the lagrange interpolation are not distinct",
            ),
            ShamirError::NonInvertible => String::from_str(
                "a denominator has no inverse under the modulus",
            ),
            ShamirError::InvalidSymbol => String::from_str("Invalid character"),
            ShamirError::MalformedShare => String::from_str("Invalid key"),
            ShamirError::InvalidIndex => String::from_str("Invalid share index"),
        }
    }
}

} // verus!
