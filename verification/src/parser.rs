//! The URL parser: a state machine over the characters of the input that writes the
//! normalized serialization and records where its components start.

use vstd::prelude::*;
use crate::error::{ParseError, SyntaxViolation};
use crate::host::{Host, HostRequest, HostRequestView, HostView};
use crate::url::{Url, UrlView};

pub mod assemble;
pub mod authority;
pub mod entry;
pub mod path;
pub mod scan;
pub mod sets;
pub mod special;
pub mod tail;

verus! {

/// The byte strings that the vectors of `v` hold.
pub open spec fn rows(v: Seq<Vec<u8>>) -> Seq<Seq<u8>> {
    Seq::new(v.len(), |i: int| v[i]@)
}

/// What the parser is used for: to parse a whole URL, or to parse one component for a
/// setter, or one path segment.
#[derive(PartialEq, Eq, Structural, Copy, Clone, Debug)]
pub enum Context {
    UrlParser,
    Setter,
    PathSegmentSetter,
}

/// How the query of an `http`, `https`, `file` or `ftp` URL is turned into bytes before
/// it is percent-encoded.
#[derive(Debug, Clone, PartialEq, Eq)]
pub enum QueryEncoding {
    /// As UTF-8: no override is in use.
    Utf8,
    /// By an override that has not been asked yet.
    Ask,
    /// By an override that has given these bytes for the parts of the query, in order.
    Answered(Vec<Vec<u8>>),
}

/// What a query encoding stands for.
pub enum QueryEncodingView {
    Utf8,
    Ask,
    Answered(Seq<Seq<u8>>),
}

impl View for QueryEncoding {
    type V = QueryEncodingView;

    open spec fn view(&self) -> QueryEncodingView {
        match self {
            QueryEncoding::Utf8 => QueryEncodingView::Utf8,
            QueryEncoding::Ask => QueryEncodingView::Ask,
            QueryEncoding::Answered(parts) => QueryEncodingView::Answered(rows(parts@)),
        }
    }
}

/// Why a parse ended without a URL: on an error, or on a question that only the caller
/// can have answered. A parse that ended on a question is run again with the answer.
#[derive(Debug, Clone, PartialEq, Eq)]
pub enum Stop {
    /// The input is no URL.
    Error(ParseError),
    /// The host parser has to be asked about this host text.
    Host(HostRequest),
    /// The encoding override has to be asked about these parts of the query.
    Query(Vec<Vec<u8>>),
}

/// What a stop stands for.
pub enum StopView {
    Error(ParseError),
    Host(HostRequestView),
    Query(Seq<Seq<u8>>),
}

impl View for Stop {
    type V = StopView;

    open spec fn view(&self) -> StopView {
        match self {
            Stop::Error(e) => StopView::Error(*e),
            Stop::Host(request) => StopView::Host(request@),
            Stop::Query(parts) => StopView::Query(rows(parts@)),
        }
    }
}

/// What the parser has written so far: the serialization, and the violations it has
/// reported, in order.
pub struct Written {
    pub ser: Seq<u8>,
    pub log: Seq<SyntaxViolation>,
}

/// Whether the log `new` starts with the log `old`: what was reported stays reported.
pub open spec fn grows(old: Seq<SyntaxViolation>, new: Seq<SyntaxViolation>) -> bool {
    old.len() <= new.len() && forall|i: int| 0 <= i < old.len() ==> #[trigger] new[i] == old[i]
}

/// What a parse is given besides its input.
pub struct Setup {
    pub context: Context,
    pub base: Option<UrlView>,
    pub host: Option<Result<HostView, ParseError>>,
    pub query: QueryEncodingView,
}

/// Whether a parse that was given `setup` can end with `stop`: with any error, with the
/// question for the host parser where it has no answer of it, and with the question for
/// the encoding override where that has not been asked.
pub open spec fn permitted(setup: Setup, stop: StopView) -> bool {
    match stop {
        StopView::Error(_) => true,
        StopView::Host(_) => setup.host is None,
        StopView::Query(_) => setup.query is Ask,
    }
}

/// The state of a parse.
pub struct Parser<'a> {
    /// The serialization written so far.
    pub serialization: Vec<u8>,
    /// The URL that a relative input is resolved against.
    pub base_url: Option<&'a Url>,
    /// How the query is turned into bytes.
    pub query_encoding_override: QueryEncoding,
    /// What the host parser has answered, once it has been asked.
    pub host: Option<Result<Host, ParseError>>,
    /// The violations reported so far, in order.
    pub violations: Vec<SyntaxViolation>,
    /// What the parser is used for.
    pub context: Context,
}

impl<'a> View for Parser<'a> {
    type V = Written;

    open spec fn view(&self) -> Written {
        Written { ser: self.serialization@, log: self.violations@ }
    }
}

impl<'a> Parser<'a> {
    /// What the parse was given besides its input.
    pub open spec fn setup(&self) -> Setup {
        Setup {
            context: self.context,
            base: match self.base_url {
                Some(base) => Some(base@),
                None => None,
            },
            host: match self.host {
                Some(Ok(host)) => Some(Ok(host@)),
                Some(Err(e)) => Some(Err(e)),
                None => None,
            },
            query: self.query_encoding_override@,
        }
    }

    /// Reports the violation `v`.
    pub fn log_violation(&mut self, v: SyntaxViolation)
        ensures
            final(self).setup() == old(self).setup(),
            final(self)@ == (Written { ser: old(self)@.ser, log: old(self)@.log.push(v) }),
    {
        self.violations.push(v);
    }

    /// Reports the violation `v` where `test` holds.
    pub fn log_violation_if(&mut self, v: SyntaxViolation, test: bool)
        ensures
            final(self).setup() == old(self).setup(),
            final(self)@.ser == old(self)@.ser,
            final(self)@.log == if test {
                old(self)@.log.push(v)
            } else {
                old(self)@.log
            },
    {
        if test {
            self.violations.push(v);
        }
    }

    /// A parser for a setter, which goes on from the serialization `serialization`.
    pub fn for_setter(serialization: Vec<u8>) -> (r: Parser<'a>)
        ensures
            r@ == (Written { ser: serialization@, log: Seq::<SyntaxViolation>::empty() }),
            r.setup() == (Setup {
                context: Context::Setter,
                base: None,
                host: None,
                query: QueryEncodingView::Utf8,
            }),
    {
        Parser {
            serialization,
            base_url: None,
            query_encoding_override: QueryEncoding::Utf8,
            host: None,
            violations: Vec::new(),
            context: Context::Setter,
        }
    }
}

} // verus!
