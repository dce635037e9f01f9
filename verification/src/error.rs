//! The ways in which decoding can fail.

use vstd::prelude::*;

verus! {

/// Why a byte string was not accepted.
#[derive(Clone, Copy, Debug, PartialEq, Eq, Structural)]
pub enum DecodeError {
    /// A field that the message must carry does not occur.
    MissingField,
    /// The bytes of a primitive are invalid: text that is not UTF-8, an
    /// integer of more than 64 bits, a value of a shape that does not exist
    /// or that the part it stands for does not have.
    Malformed,
    /// The input ends in the middle of a field.
    Truncated,
    /// A union carries a field number that names none of its variants.
    UnknownVariant,
    /// The bytes are well formed but say nothing where something must be
    /// said: a union without a variant.
    InvalidEncoding,
}

impl DecodeError {
    /// A short description of the failure.
    pub fn message(&self) -> (text: String)
        ensures
            text@ == self.spec_message()@,
    {
        match self {
            DecodeError::MissingField => "required field is missing".to_string(),
            DecodeError::Malformed => "malformed value".to_string(),
            DecodeError::Truncated => "input ends inside a field".to_string(),
            DecodeError::UnknownVariant => "unknown union variant".to_string(),
            DecodeError::InvalidEncoding => "union has no variant set".to_string(),
        }
    }

    /// The text that [`DecodeError::message`] returns.
    pub open spec fn spec_message(&self) -> &'static str {
        match self {
            DecodeError::MissingField => "required field is missing",
            DecodeError::Malformed => "malformed value",
            DecodeError::Truncated => "input ends inside a field",
            DecodeError::UnknownVariant => "unknown union variant",
            DecodeError::InvalidEncoding => "union has no variant set",
        }
    }
}

} // verus!
