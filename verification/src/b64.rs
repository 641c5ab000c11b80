//! Errors of the "B64" encoding that password hashes use.

use vstd::prelude::*;
use vstd::string::*;

verus! {

/// Error type
#[derive(Copy, Clone, Debug, Eq, PartialEq, Structural)]
pub enum Error {
    /// Invalid encoding of provided "B64" string.
    InvalidEncoding,
    /// Insufficient output buffer length.
    InvalidLength,
}

/// Insufficient output buffer length.
#[derive(Copy, Clone, Debug, Eq, PartialEq, Structural)]
pub struct InvalidLengthError;

impl Error {
    /// The text of the error.
    pub open spec fn spec_message(self) -> Seq<char> {
        match self {
            Error::InvalidEncoding => "invalid B64 encoding"@,
            Error::InvalidLength => "invalid B64 length"@,
        }
    }

    /// The text of the error.
    pub fn message(&self) -> (s: String)
        ensures
            s@ == self.spec_message(),
    {
        match self {
            Error::InvalidEncoding => String::from_str("invalid B64 encoding"),
            Error::InvalidLength => String::from_str("invalid B64 length"),
        }
    }
}

impl From<InvalidLengthError> for Error {
    fn from(_err: InvalidLengthError) -> (r: Error) {
        Error::InvalidLength
    }
}

impl vstd::std_specs::convert::FromSpecImpl<InvalidLengthError> for Error {
    open spec fn obeys_from_spec() -> bool {
        true
    }

    open spec fn from_spec(_err: InvalidLengthError) -> Error {
        Error::InvalidLength
    }
}

} // verus!
