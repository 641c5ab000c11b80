//! Error types.

use crate::b64;
use vstd::prelude::*;
use vstd::string::*;

verus! {

/// `String::push`: appends one character.
#[verifier::external_body]
fn push_char(s: &mut String, c: char)
    ensures
        final(s)@ == old(s)@.push(c),
{
    s.push(c);
}

/// Password hash errors.
#[derive(Copy, Clone, Debug, Eq, PartialEq, Structural)]
pub enum HashError {
    /// Hash output error.
    Hash(OutputError),
    /// Params error.
    Params(ParamsError),
    /// Parse error.
    Parse(ParseError),
}

impl HashError {
    /// The text of the error.
    pub open spec fn spec_message(self) -> Seq<char> {
        match self {
            HashError::Hash(err) => "invalid password hash: "@ + err.spec_message(),
            HashError::Params(err) => "invalid params: "@ + err.spec_message(),
            HashError::Parse(err) => "parse error: "@ + err.spec_message(),
        }
    }

    /// The text of the error.
    pub fn message(&self) -> (s: String)
        ensures
            s@ == self.spec_message(),
    {
        match self {
            HashError::Hash(err) => {
                String::from_str("invalid password hash: ").concat(err.message().as_str())
            },
            HashError::Params(err) => {
                String::from_str("invalid params: ").concat(err.message().as_str())
            },
            HashError::Parse(err) => {
                String::from_str("parse error: ").concat(err.message().as_str())
            },
        }
    }
}

impl From<OutputError> for HashError {
    fn from(err: OutputError) -> (r: HashError) {
        HashError::Hash(err)
    }
}

impl vstd::std_specs::convert::FromSpecImpl<OutputError> for HashError {
    open spec fn obeys_from_spec() -> bool {
        true
    }

    open spec fn from_spec(err: OutputError) -> HashError {
        HashError::Hash(err)
    }
}

impl From<ParamsError> for HashError {
    fn from(err: ParamsError) -> (r: HashError) {
        match err {
            ParamsError::Parse(e) => HashError::Parse(e),
            _ => HashError::Params(err),
        }
    }
}

impl vstd::std_specs::convert::FromSpecImpl<ParamsError> for HashError {
    open spec fn obeys_from_spec() -> bool {
        true
    }

    open spec fn from_spec(err: ParamsError) -> HashError {
        match err {
            ParamsError::Parse(e) => HashError::Parse(e),
            _ => HashError::Params(err),
        }
    }
}

impl From<ParseError> for HashError {
    fn from(err: ParseError) -> (r: HashError) {
        HashError::Parse(err)
    }
}

impl vstd::std_specs::convert::FromSpecImpl<ParseError> for HashError {
    open spec fn obeys_from_spec() -> bool {
        true
    }

    open spec fn from_spec(err: ParseError) -> HashError {
        HashError::Parse(err)
    }
}

/// Errors generating password hashes using a password hasher.
#[derive(Copy, Clone, Debug, Eq, PartialEq, Structural)]
pub enum HasherError {
    /// Unsupported algorithm.
    Algorithm,
    /// "B64" encoding error.
    B64(b64::Error),
    /// Cryptographic error.
    Crypto,
    /// Error generating output.
    Output(OutputError),
    /// Invalid parameter.
    Params(ParamsError),
    /// Parse error.
    Parse(ParseError),
    /// Invalid password.
    Password,
}

impl HasherError {
    /// The text of the error.
    pub open spec fn spec_message(self) -> Seq<char> {
        match self {
            HasherError::Algorithm => "unsupported algorithm"@,
            HasherError::B64(err) => err.spec_message(),
            HasherError::Crypto => "cryptographic error"@,
            HasherError::Output(err) => "PHF output error: "@ + err.spec_message(),
            HasherError::Params(err) => err.spec_message(),
            HasherError::Parse(err) => err.spec_message(),
            HasherError::Password => "invalid password"@,
        }
    }

    /// The text of the error.
    pub fn message(&self) -> (s: String)
        ensures
            s@ == self.spec_message(),
    {
        match self {
            HasherError::Algorithm => String::from_str("unsupported algorithm"),
            HasherError::B64(err) => err.message(),
            HasherError::Crypto => String::from_str("cryptographic error"),
            HasherError::Output(err) => {
                String::from_str("PHF output error: ").concat(err.message().as_str())
            },
            HasherError::Params(err) => err.message(),
            HasherError::Parse(err) => err.message(),
            HasherError::Password => String::from_str("invalid password"),
        }
    }
}

impl From<b64::Error> for HasherError {
    fn from(err: b64::Error) -> (r: HasherError) {
        HasherError::B64(err)
    }
}

impl vstd::std_specs::convert::FromSpecImpl<b64::Error> for HasherError {
    open spec fn obeys_from_spec() -> bool {
        true
    }

    open spec fn from_spec(err: b64::Error) -> HasherError {
        HasherError::B64(err)
    }
}

impl From<b64::InvalidLengthError> for HasherError {
    fn from(_err: b64::InvalidLengthError) -> (r: HasherError) {
        HasherError::B64(b64::Error::InvalidLength)
    }
}

impl vstd::std_specs::convert::FromSpecImpl<b64::InvalidLengthError> for HasherError {
    open spec fn obeys_from_spec() -> bool {
        true
    }

    open spec fn from_spec(_err: b64::InvalidLengthError) -> HasherError {
        HasherError::B64(b64::Error::InvalidLength)
    }
}

impl From<OutputError> for HasherError {
    fn from(err: OutputError) -> (r: HasherError) {
        HasherError::Output(err)
    }
}

impl vstd::std_specs::convert::FromSpecImpl<OutputError> for HasherError {
    open spec fn obeys_from_spec() -> bool {
        true
    }

    open spec fn from_spec(err: OutputError) -> HasherError {
        HasherError::Output(err)
    }
}

impl From<ParamsError> for HasherError {
    fn from(err: ParamsError) -> (r: HasherError) {
        HasherError::Params(err)
    }
}

impl vstd::std_specs::convert::FromSpecImpl<ParamsError> for HasherError {
    open spec fn obeys_from_spec() -> bool {
        true
    }

    open spec fn from_spec(err: ParamsError) -> HasherError {
        HasherError::Params(err)
    }
}

impl From<ParseError> for HasherError {
    fn from(err: ParseError) -> (r: HasherError) {
        HasherError::Parse(err)
    }
}

impl vstd::std_specs::convert::FromSpecImpl<ParseError> for HasherError {
    open spec fn obeys_from_spec() -> bool {
        true
    }

    open spec fn from_spec(err: ParseError) -> HasherError {
        HasherError::Parse(err)
    }
}

/// Parameter-related errors.
#[derive(Copy, Clone, Debug, Eq, PartialEq, Structural)]
pub enum ParamsError {
    /// Duplicate parameter name encountered.
    DuplicateName,
    /// Invalid parameter name.
    InvalidName,
    /// Invalid parameter value.
    InvalidValue,
    /// Maximum number of parameters exceeded.
    MaxExceeded,
    /// Parse errors.
    Parse(ParseError),
}

impl ParamsError {
    /// The text of the error.
    pub open spec fn spec_message(self) -> Seq<char> {
        match self {
            ParamsError::DuplicateName => "duplicate parameter"@,
            ParamsError::InvalidName => "invalid parameter name"@,
            ParamsError::InvalidValue => "invalid parameter value"@,
            ParamsError::MaxExceeded => "maximum number of parameters reached"@,
            ParamsError::Parse(err) => err.spec_message(),
        }
    }

    /// The text of the error.
    pub fn message(&self) -> (s: String)
        ensures
            s@ == self.spec_message(),
    {
        match self {
            ParamsError::DuplicateName => String::from_str("duplicate parameter"),
            ParamsError::InvalidName => String::from_str("invalid parameter name"),
            ParamsError::InvalidValue => String::from_str("invalid parameter value"),
            ParamsError::MaxExceeded => String::from_str("maximum number of parameters reached"),
            ParamsError::Parse(err) => err.message(),
        }
    }
}

impl From<ParseError> for ParamsError {
    fn from(err: ParseError) -> (r: ParamsError) {
        ParamsError::Parse(err)
    }
}

impl vstd::std_specs::convert::FromSpecImpl<ParseError> for ParamsError {
    open spec fn obeys_from_spec() -> bool {
        true
    }

    open spec fn from_spec(err: ParseError) -> ParamsError {
        ParamsError::Parse(err)
    }
}

/// Parse errors.
#[derive(Copy, Clone, Debug, Eq, PartialEq, Structural)]
pub enum ParseError {
    /// Invalid empty input.
    Empty,
    /// Input contains invalid character.
    InvalidChar(char),
    /// Input too short.
    TooShort,
    /// Input too long.
    TooLong,
}

impl ParseError {
    /// The text of the error.
    pub open spec fn spec_message(self) -> Seq<char> {
        match self {
            ParseError::Empty => "invalid empty input"@,
            ParseError::InvalidChar(c) => "invalid character '"@.push(c) + "'"@,
            ParseError::TooShort => "too short"@,
            ParseError::TooLong => "too long"@,
        }
    }

    /// The text of the error.
    pub fn message(&self) -> (s: String)
        ensures
            s@ == self.spec_message(),
    {
        match self {
            ParseError::Empty => String::from_str("invalid empty input"),
            ParseError::InvalidChar(c) => {
                let mut s = String::from_str("invalid character '");
                push_char(&mut s, *c);
                s.concat("'")
            },
            ParseError::TooShort => String::from_str("too short"),
            ParseError::TooLong => String::from_str("too long"),
        }
    }
}

/// Password hash function output (i.e. hash/digest) errors.
#[derive(Copy, Clone, Debug, Eq, PartialEq, Structural)]
pub enum OutputError {
    /// "B64" encoding error.
    B64(b64::Error),
    /// Output too short (min 10-bytes).
    TooShort,
    /// Output too long (max 64-bytes).
    TooLong,
}

impl OutputError {
    /// The text of the error.
    pub open spec fn spec_message(self) -> Seq<char> {
        match self {
            OutputError::B64(err) => err.spec_message(),
            OutputError::TooShort => "PHF output too short (min 10-bytes)"@,
            OutputError::TooLong => "PHF output too long (max 64-bytes)"@,
        }
    }

    /// The text of the error.
    pub fn message(&self) -> (s: String)
        ensures
            s@ == self.spec_message(),
    {
        match self {
            OutputError::B64(err) => err.message(),
            OutputError::TooShort => String::from_str("PHF output too short (min 10-bytes)"),
            OutputError::TooLong => String::from_str("PHF output too long (max 64-bytes)"),
        }
    }
}

impl From<b64::Error> for OutputError {
    fn from(err: b64::Error) -> (r: OutputError) {
        OutputError::B64(err)
    }
}

impl vstd::std_specs::convert::FromSpecImpl<b64::Error> for OutputError {
    open spec fn obeys_from_spec() -> bool {
        true
    }

    open spec fn from_spec(err: b64::Error) -> OutputError {
        OutputError::B64(err)
    }
}

impl From<b64::InvalidLengthError> for OutputError {
    fn from(_err: b64::InvalidLengthError) -> (r: OutputError) {
        OutputError::B64(b64::Error::InvalidLength)
    }
}

impl vstd::std_specs::convert::FromSpecImpl<b64::InvalidLengthError> for OutputError {
    open spec fn obeys_from_spec() -> bool {
        true
    }

    open spec fn from_spec(_err: b64::InvalidLengthError) -> OutputError {
        OutputError::B64(b64::Error::InvalidLength)
    }
}

/// Password verification errors.
#[derive(Copy, Clone, Debug, Eq, PartialEq, Structural)]
pub struct VerifyError;

impl VerifyError {
    /// The text of the error.
    pub open spec fn spec_message(self) -> Seq<char> {
        "password verification error"@
    }

    /// The text of the error.
    pub fn message(&self) -> (s: String)
        ensures
            s@ == self.spec_message(),
    {
        String::from_str("password verification error")
    }
}

impl From<HasherError> for VerifyError {
    fn from(_err: HasherError) -> (r: VerifyError) {
        VerifyError
    }
}

impl vstd::std_specs::convert::FromSpecImpl<HasherError> for VerifyError {
    open spec fn obeys_from_spec() -> bool {
        true
    }

    open spec fn from_spec(_err: HasherError) -> VerifyError {
        VerifyError
    }
}

} // verus!
