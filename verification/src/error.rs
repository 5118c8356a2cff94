use vstd::prelude::*;

verus! {

/// Why a request or a frame of the protocol was refused.
#[derive(Clone, Copy, Debug, PartialEq, Eq, Structural)]
pub enum RespError {
    /// A command was expected to be an array.
    NotArray,
    /// A frame starts with a byte that names no known type.
    UnrecognisedType,
    /// The bytes of a string are not well-formed UTF-8.
    InvalidString,
    /// A length line does not hold an `i64` in decimal.
    InvalidInteger,
    /// The expiry of a `SET` is empty.
    ExpiryEmpty,
    /// The expiry of a `SET` holds a character that is not a digit (or a
    /// sign where none is allowed).
    ExpiryInvalidDigit,
    /// The expiry of a `SET` is more than a `u64` holds.
    ExpiryTooLarge,
}

impl RespError {
    /// The text that describes the error.
    pub fn message(&self) -> (r: &'static str)
        ensures
            *self == RespError::NotArray ==> r@ == "not an array"@,
            *self == RespError::UnrecognisedType ==> r@ == "unrecognised message type"@,
            *self == RespError::InvalidString ==> r@ == "Could not parse string"@,
            *self == RespError::InvalidInteger ==> r@ == "Could not parse integer"@,
            *self == RespError::ExpiryEmpty ==> r@ == "cannot parse integer from empty string"@,
            *self == RespError::ExpiryInvalidDigit ==> r@ == "invalid digit found in string"@,
            *self == RespError::ExpiryTooLarge ==> r@ == "number too large to fit in target type"@,
    {
        match self {
            RespError::NotArray => "not an array",
            RespError::UnrecognisedType => "unrecognised message type",
            RespError::InvalidString => "Could not parse string",
            RespError::InvalidInteger => "Could not parse integer",
            RespError::ExpiryEmpty => "cannot parse integer from empty string",
            RespError::ExpiryInvalidDigit => "invalid digit found in string",
            RespError::ExpiryTooLarge => "number too large to fit in target type",
        }
    }
}

} // verus!
