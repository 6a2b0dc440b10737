//! The ways in which decoding can fail.

use vstd::prelude::*;

verus! {

/// Why a header or a data block could not be decoded.
#[derive(Clone, Copy, Debug, PartialEq, Eq, Structural)]
pub enum DecodeError {
    /// The input ends before the bytes that are needed.
    Truncated,
    /// The header's mode code names no known sample encoding.
    UnsupportedMode(i32),
    /// One of the header's dimensions is zero or negative.
    InvalidDimensions,
}

impl DecodeError {
    /// A short description, for reports to a person.
    pub fn describe(&self) -> (text: &'static str)
        ensures
            text@ == match *self {
                DecodeError::Truncated => "Unexpected end of data"@,
                DecodeError::UnsupportedMode(_) => "Unsupported data mode"@,
                DecodeError::InvalidDimensions => "Invalid dimensions"@,
            },
    {
        match self {
            DecodeError::Truncated => "Unexpected end of data",
            DecodeError::UnsupportedMode(_) => "Unsupported data mode",
            DecodeError::InvalidDimensions => "Invalid dimensions",
        }
    }
}

} // verus!
