//! Percent-encoding and the core of a WHATWG URL parser, with machine-checked contracts.
//!
//! The percent codec stands alone. The URL parser turns a text, with an optional base
//! URL, into a normalized serialization and the offsets of its components. Parsing the
//! host is the work of a host parser outside this library: a parse that needs it ends
//! with the question for it, and is run again with the answer.

pub mod ascii_set;
pub mod chars;
pub mod error;
pub mod escape_table;
pub mod host;
pub mod input;
pub mod parser;
pub mod percent;
pub mod percent_laws;
pub mod scheme;
pub mod text;
pub mod url;
pub mod utf8_laws;

pub use crate::ascii_set::{controls, non_alphanumeric, AsciiSet};
pub use crate::error::{ParseError, SyntaxViolation};
pub use crate::escape_table::percent_encode_byte;
pub use crate::host::{Host, HostInternal, HostKind, HostRequest};
pub use crate::input::{Input, Pattern};
pub use crate::parser::assemble::Parsed;
pub use crate::parser::{Context, Parser, QueryEncoding, Stop};
pub use crate::percent::{
    percent_decode, percent_decode_str, percent_encode, utf8_percent_encode, PercentDecode,
    PercentEncode,
};
pub use crate::scheme::{default_port, SchemeType};
pub use crate::url::Url;
