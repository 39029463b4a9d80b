//! Fatal errors and non-fatal syntax violations of URL parsing.

use vstd::prelude::*;
use idna::Errors;

verus! {

/// The error of the IDNA mapping, carried through unread.
#[verifier::external_type_specification]
#[verifier::external_body]
pub struct ExIdnaErrors(Errors);

/// Errors that end a parse.
#[derive(PartialEq, Eq, Structural, Clone, Copy, Debug)]
#[non_exhaustive]
pub enum ParseError {
    EmptyHost,
    IdnaError,
    InvalidPort,
    InvalidIpv4Address,
    InvalidIpv6Address,
    InvalidDomainCharacter,
    RelativeUrlWithoutBase,
    RelativeUrlWithCannotBeABaseBase,
    SetHostOnCannotBeABaseUrl,
    Overflow,
}

impl ParseError {
    /// The fixed description of the error, as a sequence of characters.
    pub open spec fn text(&self) -> Seq<char> {
        match *self {
            ParseError::EmptyHost => "empty host"@,
            ParseError::IdnaError => "invalid international domain name"@,
            ParseError::InvalidPort => "invalid port number"@,
            ParseError::InvalidIpv4Address => "invalid IPv4 address"@,
            ParseError::InvalidIpv6Address => "invalid IPv6 address"@,
            ParseError::InvalidDomainCharacter => "invalid domain character"@,
            ParseError::RelativeUrlWithoutBase => "relative URL without a base"@,
            ParseError::RelativeUrlWithCannotBeABaseBase => "relative URL with a cannot-be-a-base base"@,
            ParseError::SetHostOnCannotBeABaseUrl => "a cannot-be-a-base URL doesn’t have a host to set"@,
            ParseError::Overflow => "URLs more than 4 GB are not supported"@,
        }
    }

    /// The fixed description of the error.
    pub fn description(&self) -> (r: &'static str)
        ensures
            r@ == self.text(),
    {
        match *self {
            ParseError::EmptyHost => "empty host",
            ParseError::IdnaError => "invalid international domain name",
            ParseError::InvalidPort => "invalid port number",
            ParseError::InvalidIpv4Address => "invalid IPv4 address",
            ParseError::InvalidIpv6Address => "invalid IPv6 address",
            ParseError::InvalidDomainCharacter => "invalid domain character",
            ParseError::RelativeUrlWithoutBase => "relative URL without a base",
            ParseError::RelativeUrlWithCannotBeABaseBase => "relative URL with a cannot-be-a-base base",
            ParseError::SetHostOnCannotBeABaseUrl => "a cannot-be-a-base URL doesn’t have a host to set",
            ParseError::Overflow => "URLs more than 4 GB are not supported",
        }
    }

    /// The description as owned text.
    pub fn to_string(&self) -> (r: String)
        ensures
            r@ == self.text(),
    {
        self.description().to_owned()
    }
}

impl vstd::std_specs::convert::FromSpecImpl<Errors> for ParseError {
    open spec fn obeys_from_spec() -> bool {
        true
    }

    open spec fn from_spec(v: Errors) -> ParseError {
        ParseError::IdnaError
    }
}

impl From<Errors> for ParseError {
    /// Every failure of the IDNA mapping is the one error `IdnaError`.
    fn from(e: Errors) -> (r: ParseError) {
        ParseError::IdnaError
    }
}

/// Deviations from the URL syntax that are reported and do not end a parse.
#[derive(PartialEq, Eq, Structural, Clone, Copy, Debug)]
#[non_exhaustive]
pub enum SyntaxViolation {
    Backslash,
    C0SpaceIgnored,
    EmbeddedCredentials,
    ExpectedDoubleSlash,
    ExpectedFileDoubleSlash,
    FileWithHostAndWindowsDrive,
    NonUrlCodePoint,
    NullInFragment,
    PercentDecode,
    TabOrNewlineIgnored,
    UnencodedAtSign,
}

impl SyntaxViolation {
    /// The fixed description of the violation, as a sequence of characters.
    pub open spec fn text(&self) -> Seq<char> {
        match *self {
            SyntaxViolation::Backslash => "backslash"@,
            SyntaxViolation::C0SpaceIgnored => "leading or trailing control or space character are ignored in URLs"@,
            SyntaxViolation::EmbeddedCredentials => "embedding authentication information (username or password) in an URL is not recommended"@,
            SyntaxViolation::ExpectedDoubleSlash => "expected //"@,
            SyntaxViolation::ExpectedFileDoubleSlash => "expected // after file:"@,
            SyntaxViolation::FileWithHostAndWindowsDrive => "file: with host and Windows drive letter"@,
            SyntaxViolation::NonUrlCodePoint => "non-URL code point"@,
            SyntaxViolation::NullInFragment => "NULL characters are ignored in URL fragment identifiers"@,
            SyntaxViolation::PercentDecode => "expected 2 hex digits after %"@,
            SyntaxViolation::TabOrNewlineIgnored => "tabs or newlines are ignored in URLs"@,
            SyntaxViolation::UnencodedAtSign => "unencoded @ sign in username or password"@,
        }
    }

    /// The fixed description of the violation.
    pub fn description(&self) -> (r: &'static str)
        ensures
            r@ == self.text(),
    {
        match *self {
            SyntaxViolation::Backslash => "backslash",
            SyntaxViolation::C0SpaceIgnored => "leading or trailing control or space character are ignored in URLs",
            SyntaxViolation::EmbeddedCredentials => "embedding authentication information (username or password) in an URL is not recommended",
            SyntaxViolation::ExpectedDoubleSlash => "expected //",
            SyntaxViolation::ExpectedFileDoubleSlash => "expected // after file:",
            SyntaxViolation::FileWithHostAndWindowsDrive => "file: with host and Windows drive letter",
            SyntaxViolation::NonUrlCodePoint => "non-URL code point",
            SyntaxViolation::NullInFragment => "NULL characters are ignored in URL fragment identifiers",
            SyntaxViolation::PercentDecode => "expected 2 hex digits after %",
            SyntaxViolation::TabOrNewlineIgnored => "tabs or newlines are ignored in URLs",
            SyntaxViolation::UnencodedAtSign => "unencoded @ sign in username or password",
        }
    }

    /// The description as owned text.
    pub fn to_string(&self) -> (r: String)
        ensures
            r@ == self.text(),
    {
        self.description().to_owned()
    }
}

} // verus!
