//! Scheme families and their default ports.

use vstd::prelude::*;
use vstd::string::StringSliceAdditionalSpecFns;

verus! {

/// Whether `s` is `http`.
pub open spec fn is_http(s: Seq<u8>) -> bool {
    s.len() == 4 && s[0] == 0x68 && s[1] == 0x74 && s[2] == 0x74 && s[3] == 0x70
}

/// Whether `s` is `https`.
pub open spec fn is_https(s: Seq<u8>) -> bool {
    s.len() == 5 && s[0] == 0x68 && s[1] == 0x74 && s[2] == 0x74 && s[3] == 0x70 && s[4] == 0x73
}

/// Whether `s` is `ws`.
pub open spec fn is_ws(s: Seq<u8>) -> bool {
    s.len() == 2 && s[0] == 0x77 && s[1] == 0x73
}

/// Whether `s` is `wss`.
pub open spec fn is_wss(s: Seq<u8>) -> bool {
    s.len() == 3 && s[0] == 0x77 && s[1] == 0x73 && s[2] == 0x73
}

/// Whether `s` is `ftp`.
pub open spec fn is_ftp(s: Seq<u8>) -> bool {
    s.len() == 3 && s[0] == 0x66 && s[1] == 0x74 && s[2] == 0x70
}

/// Whether `s` is `file`.
pub open spec fn is_file_scheme(s: Seq<u8>) -> bool {
    s.len() == 4 && s[0] == 0x66 && s[1] == 0x69 && s[2] == 0x6c && s[3] == 0x65
}

/// The family of the scheme `s`.
pub open spec fn scheme_type_of(s: Seq<u8>) -> SchemeType {
    if is_file_scheme(s) {
        SchemeType::File
    } else if is_http(s) || is_https(s) || is_ws(s) || is_wss(s) || is_ftp(s) {
        SchemeType::SpecialNotFile
    } else {
        SchemeType::NotSpecial
    }
}

/// The default port of the scheme `s`: 80 for `http` and `ws`, 443 for `https` and `wss`,
/// 21 for `ftp`, none for any other.
pub open spec fn default_port_of(s: Seq<u8>) -> Option<u16> {
    if is_http(s) || is_ws(s) {
        Some(80u16)
    } else if is_https(s) || is_wss(s) {
        Some(443u16)
    } else if is_ftp(s) {
        Some(21u16)
    } else {
        None
    }
}

/// Whether a query of the scheme `s` goes through the encoding override: `http`, `https`,
/// `file` and `ftp` do.
pub open spec fn takes_query_encoding(s: Seq<u8>) -> bool {
    is_http(s) || is_https(s) || is_file_scheme(s) || is_ftp(s)
}

/// The three families of schemes.
#[derive(Copy, Clone, PartialEq, Eq, Structural, Debug)]
pub enum SchemeType {
    File,
    SpecialNotFile,
    NotSpecial,
}

impl SchemeType {
    /// Whether the scheme is one of `http`, `https`, `ws`, `wss`, `ftp` and `file`.
    pub open spec fn special(self) -> bool {
        !(self is NotSpecial)
    }

    /// Whether the scheme is one of `http`, `https`, `ws`, `wss`, `ftp` and `file`.
    pub fn is_special(&self) -> (r: bool)
        ensures
            r == self.special(),
    {
        match *self {
            SchemeType::NotSpecial => false,
            _ => true,
        }
    }

    /// Whether the scheme is `file`.
    pub fn is_file(&self) -> (r: bool)
        ensures
            r == (*self is File),
    {
        match *self {
            SchemeType::File => true,
            _ => false,
        }
    }

    /// The family of the scheme that stands in `bytes` before index `end`.
    pub fn of(bytes: &[u8], end: usize) -> (r: SchemeType)
        requires
            end <= bytes@.len(),
        ensures
            r == scheme_type_of(bytes@.take(end as int)),
    {
        match Scheme::of(bytes, end) {
            Scheme::File => SchemeType::File,
            Scheme::Other => SchemeType::NotSpecial,
            _ => SchemeType::SpecialNotFile,
        }
    }
}

impl vstd::std_specs::convert::FromSpecImpl<&str> for SchemeType {
    open spec fn obeys_from_spec() -> bool {
        true
    }

    open spec fn from_spec(v: &str) -> SchemeType {
        scheme_type_of(v.spec_bytes())
    }
}

impl From<&str> for SchemeType {
    /// The family of the scheme `s`.
    fn from(s: &str) -> (r: SchemeType) {
        let bytes = s.as_bytes();
        proof {
            assert(bytes@.take(bytes@.len() as int) =~= bytes@);
        }
        SchemeType::of(bytes, bytes.len())
    }
}

/// The schemes that the parser tells apart.
#[derive(Copy, Clone, PartialEq, Eq, Structural, Debug)]
pub enum Scheme {
    Http,
    Https,
    Ws,
    Wss,
    Ftp,
    File,
    Other,
}

impl Scheme {
    /// The scheme `s`, where it is one that the parser knows.
    pub open spec fn named(s: Seq<u8>) -> Scheme {
        if is_http(s) {
            Scheme::Http
        } else if is_https(s) {
            Scheme::Https
        } else if is_ws(s) {
            Scheme::Ws
        } else if is_wss(s) {
            Scheme::Wss
        } else if is_ftp(s) {
            Scheme::Ftp
        } else if is_file_scheme(s) {
            Scheme::File
        } else {
            Scheme::Other
        }
    }

    /// The scheme that stands in `bytes` before index `end`.
    pub fn of(bytes: &[u8], end: usize) -> (r: Scheme)
        requires
            end <= bytes@.len(),
        ensures
            r == Scheme::named(bytes@.take(end as int)),
    {
        let b = bytes;
        if end == 2 && b[0] == 0x77 && b[1] == 0x73 {
            Scheme::Ws
        } else if end == 3 && b[0] == 0x77 && b[1] == 0x73 && b[2] == 0x73 {
            Scheme::Wss
        } else if end == 3 && b[0] == 0x66 && b[1] == 0x74 && b[2] == 0x70 {
            Scheme::Ftp
        } else if end == 4 && b[0] == 0x68 && b[1] == 0x74 && b[2] == 0x74 && b[3] == 0x70 {
            Scheme::Http
        } else if end == 4 && b[0] == 0x66 && b[1] == 0x69 && b[2] == 0x6c && b[3] == 0x65 {
            Scheme::File
        } else if end == 5 && b[0] == 0x68 && b[1] == 0x74 && b[2] == 0x74 && b[3] == 0x70 && b[4]
            == 0x73 {
            Scheme::Https
        } else {
            Scheme::Other
        }
    }

    /// The default port of the scheme.
    pub fn default_port(self) -> (r: Option<u16>)
        ensures
            r == match self {
                Scheme::Http | Scheme::Ws => Some(80u16),
                Scheme::Https | Scheme::Wss => Some(443u16),
                Scheme::Ftp => Some(21u16),
                _ => None,
            },
    {
        match self {
            Scheme::Http | Scheme::Ws => Some(80),
            Scheme::Https | Scheme::Wss => Some(443),
            Scheme::Ftp => Some(21),
            _ => None,
        }
    }
}

/// The default port of the scheme that stands in `bytes` before index `end`.
pub fn default_port_at(bytes: &[u8], end: usize) -> (r: Option<u16>)
    requires
        end <= bytes@.len(),
    ensures
        r == default_port_of(bytes@.take(end as int)),
{
    Scheme::of(bytes, end).default_port()
}

/// The default port of `scheme`: 80 for `http` and `ws`, 443 for `https` and `wss`, 21 for
/// `ftp`, none for any other.
pub fn default_port(scheme: &str) -> (r: Option<u16>)
    ensures
        r == default_port_of(scheme.spec_bytes()),
{
    let bytes = scheme.as_bytes();
    proof {
        assert(bytes@.take(bytes@.len() as int) =~= bytes@);
    }
    default_port_at(bytes, bytes.len())
}

} // verus!
