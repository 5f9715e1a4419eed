//! The value type and the error that reading one can give.

use vstd::prelude::*;

verus! {

/// A byte size which is displayed using SI prefixes.
#[derive(Debug, Clone, Copy, PartialEq, Eq, Structural)]
pub struct ByteSize(pub u64);

/// Why a text could not be read as a byte size.
#[derive(Debug, Clone, Copy, PartialEq, Eq, Structural)]
#[non_exhaustive]
pub enum ParseByteSizeError {
    /// The text is empty.
    Empty,
    /// The number holds more than one decimal point, or no digit where
    /// one is needed.
    InvalidNumber,
    /// What follows the number is not a known unit.
    InvalidUnits,
    /// The size does not fit in 64 bits.
    Overflow,
}

impl ParseByteSizeError {
    /// The text that describes each kind of error.
    pub open spec fn message_text(self) -> Seq<char> {
        match self {
            ParseByteSizeError::Empty => "cannot parse empty string"@,
            ParseByteSizeError::InvalidNumber => "string does not start with invalid number"@,
            ParseByteSizeError::InvalidUnits => "string has invalid units"@,
            ParseByteSizeError::Overflow => "number is too large"@,
        }
    }

    /// A human-readable description of the error.
    pub fn message(&self) -> (text: &'static str)
        ensures
            text@ == self.message_text(),
    {
        match self {
            ParseByteSizeError::Empty => "cannot parse empty string",
            ParseByteSizeError::InvalidNumber => "string does not start with invalid number",
            ParseByteSizeError::InvalidUnits => "string has invalid units",
            ParseByteSizeError::Overflow => "number is too large",
        }
    }
}

} // verus!
