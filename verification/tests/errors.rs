use crypto_traits::b64;
use crypto_traits::errors::HashError;
use crypto_traits::errors::HasherError;
use crypto_traits::errors::OutputError;
use crypto_traits::errors::ParamsError;
use crypto_traits::errors::ParseError;
use crypto_traits::errors::VerifyError;

#[test]
fn parse_error_messages() {
    assert_eq!(ParseError::Empty.message(), "invalid empty input");
    assert_eq!(ParseError::InvalidChar('x').message(), "invalid character 'x'");
    assert_eq!(ParseError::InvalidChar('\'').message(), "invalid character '''");
    assert_eq!(ParseError::InvalidChar('é').message(), "invalid character 'é'");
    assert_eq!(ParseError::TooShort.message(), "too short");
    assert_eq!(ParseError::TooLong.message(), "too long");
}

#[test]
fn params_error_messages() {
    assert_eq!(ParamsError::DuplicateName.message(), "duplicate parameter");
    assert_eq!(ParamsError::InvalidName.message(), "invalid parameter name");
    assert_eq!(ParamsError::InvalidValue.message(), "invalid parameter value");
    assert_eq!(ParamsError::MaxExceeded.message(), "maximum number of parameters reached");
    assert_eq!(ParamsError::Parse(ParseError::TooLong).message(), "too long");
}

#[test]
fn output_error_messages() {
    assert_eq!(OutputError::TooShort.message(), "PHF output too short (min 10-bytes)");
    assert_eq!(OutputError::TooLong.message(), "PHF output too long (max 64-bytes)");
    assert_eq!(
        OutputError::B64(b64::Error::InvalidEncoding).message(),
        b64::Error::InvalidEncoding.message()
    );
    assert_eq!(b64::Error::InvalidEncoding.message(), "invalid B64 encoding");
    assert_eq!(b64::Error::InvalidLength.message(), "invalid B64 length");
    assert_eq!(OutputError::B64(b64::Error::InvalidLength).message(), "invalid B64 length");
}

#[test]
fn hash_error_messages() {
    assert_eq!(
        HashError::Hash(OutputError::TooShort).message(),
        "invalid password hash: PHF output too short (min 10-bytes)"
    );
    assert_eq!(
        HashError::Params(ParamsError::InvalidName).message(),
        "invalid params: invalid parameter name"
    );
    assert_eq!(
        HashError::Parse(ParseError::InvalidChar('$')).message(),
        "parse error: invalid character '$'"
    );
}

#[test]
fn hasher_error_messages() {
    assert_eq!(HasherError::Algorithm.message(), "unsupported algorithm");
    assert_eq!(HasherError::Crypto.message(), "cryptographic error");
    assert_eq!(HasherError::Password.message(), "invalid password");
    assert_eq!(
        HasherError::Output(OutputError::TooLong).message(),
        "PHF output error: PHF output too long (max 64-bytes)"
    );
    assert_eq!(HasherError::Params(ParamsError::MaxExceeded).message(), "maximum number of parameters reached");
    assert_eq!(HasherError::Parse(ParseError::Empty).message(), "invalid empty input");
    assert_eq!(
        HasherError::B64(b64::Error::InvalidLength).message(),
        b64::Error::InvalidLength.message()
    );
}

#[test]
fn verify_error_message() {
    assert_eq!(VerifyError.message(), "password verification error");
}

#[test]
fn hash_error_conversions() {
    assert_eq!(HashError::from(OutputError::TooShort), HashError::Hash(OutputError::TooShort));
    assert_eq!(HashError::from(ParseError::Empty), HashError::Parse(ParseError::Empty));
    assert_eq!(
        HashError::from(ParamsError::InvalidValue),
        HashError::Params(ParamsError::InvalidValue)
    );
    // A parse error inside a params error comes out as a parse error.
    assert_eq!(
        HashError::from(ParamsError::Parse(ParseError::TooShort)),
        HashError::Parse(ParseError::TooShort)
    );
    assert_ne!(
        HashError::from(ParamsError::Parse(ParseError::TooShort)),
        HashError::Params(ParamsError::Parse(ParseError::TooShort))
    );
}

#[test]
fn hasher_error_conversions() {
    assert_eq!(
        HasherError::from(b64::Error::InvalidEncoding),
        HasherError::B64(b64::Error::InvalidEncoding)
    );
    assert_eq!(
        HasherError::from(b64::InvalidLengthError),
        HasherError::B64(b64::Error::InvalidLength)
    );
    assert_eq!(HasherError::from(OutputError::TooLong), HasherError::Output(OutputError::TooLong));
    assert_eq!(
        HasherError::from(ParamsError::DuplicateName),
        HasherError::Params(ParamsError::DuplicateName)
    );
    // Unlike in a hash error, a parse error inside a params error stays there.
    assert_eq!(
        HasherError::from(ParamsError::Parse(ParseError::Empty)),
        HasherError::Params(ParamsError::Parse(ParseError::Empty))
    );
    assert_eq!(
        HasherError::from(ParseError::InvalidChar('a')),
        HasherError::Parse(ParseError::InvalidChar('a'))
    );
}

#[test]
fn other_conversions() {
    assert_eq!(ParamsError::from(ParseError::TooLong), ParamsError::Parse(ParseError::TooLong));
    assert_eq!(
        OutputError::from(b64::Error::InvalidLength),
        OutputError::B64(b64::Error::InvalidLength)
    );
    assert_eq!(
        OutputError::from(b64::InvalidLengthError),
        OutputError::B64(b64::Error::InvalidLength)
    );
    assert_eq!(b64::Error::from(b64::InvalidLengthError), b64::Error::InvalidLength);
    assert_eq!(VerifyError::from(HasherError::Crypto), VerifyError);
    assert_eq!(VerifyError::from(HasherError::Password), VerifyError);
}
