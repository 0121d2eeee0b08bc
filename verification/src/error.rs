//! The failures that the library reports.

use vstd::prelude::*;
use vstd::string::*;

verus! {

/// Why an operation of this library failed.
#[derive(Clone, Copy, Debug, PartialEq, Eq, Structural)]
pub enum CryptoError {
    /// The input is empty, too short for any candidate key length, or two
    /// buffers that must match in length do not.
    InvalidInput,
    /// A text is not a well-formed hex, base64 or ASCII encoding.
    MalformedEncoding,
    /// A column holds no byte, so no key byte can be recovered from it.
    UnsolvableColumn,
}

impl CryptoError {
    /// A short description of the failure, for display.
    pub fn message(&self) -> (text: String)
        ensures
            text@ == match *self {
                CryptoError::InvalidInput => "invalid input"@,
                CryptoError::MalformedEncoding => "malformed encoding"@,
                CryptoError::UnsolvableColumn => "unsolvable column"@,
            },
    {
        match self {
            CryptoError::InvalidInput => String::from_str("invalid input"),
            CryptoError::MalformedEncoding => String::from_str("malformed encoding"),
            CryptoError::UnsolvableColumn => String::from_str("unsolvable column"),
        }
    }
}

} // verus!
