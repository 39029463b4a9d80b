//! The start of a parse: the scheme, and which way the parse goes from there.

use vstd::prelude::*;
use vstd::string::StringSliceAdditionalSpecFns;
use vstd::slice::slice_subrange;
use crate::chars::{is_alpha, to_u32};
use crate::error::{ParseError, SyntaxViolation};
use crate::host::{Host, HostInternal};
use crate::input::{
    after_next, has_tab_or_newline, lemma_skip_ignored, peek, separators,
    separators_are_two_slashes, separators_end, skip_ignored, trim, trim_violations, Input,
};
use crate::parser::assemble::{
    authority_outcome, failed, fragment_only_outcome, record_outcome, ParseOutcome, Parsed,
};
use crate::parser::path::{
    keeps, lemma_keeps_appended, lemma_keeps_twice, opaque_path_end, opaque_path_written,
    path_outcome,
};
use crate::parser::special::{file_outcome, relative_outcome, separators_are_slashes};
use crate::parser::{Context, Parser, QueryEncoding, Setup, Written};
use crate::scheme::{is_file_scheme, scheme_type_of, Scheme, SchemeType};
use crate::url::{all_clean, is_clean, is_scheme_byte, scheme_ok, Url, UrlView};

verus! {

/// Reads a scheme from `s` at index `i` on, behind the bytes `acc` of it: the scheme in
/// lower case and the index behind its `:`. `None` where another character comes before
/// the `:`, and at the end of the input, unless the parser works for a setter.
pub open spec fn scan_scheme(setter: bool, s: Seq<u8>, i: int, acc: Seq<u8>) -> Option<
    (Seq<u8>, int),
>
    decreases s.len() - i,
{
    if i < 0 || i > s.len() {
        None
    } else {
        let j = skip_ignored(s, i);
        if i <= j < s.len() {
            let c = s[j];
            if is_scheme_byte(c) {
                scan_scheme(setter, s, j + 1, acc.push(c))
            } else if 0x41 <= c <= 0x5a {
                scan_scheme(setter, s, j + 1, acc.push((c + 0x20) as u8))
            } else if c == 0x3a {
                Some((acc, j + 1))
            } else {
                None
            }
        } else if setter {
            Some((acc, j))
        } else {
            None
        }
    }
}

/// What parsing a scheme gives: what is written, and the index in the input behind the
/// `:`, where a scheme stands there. Where the input does not start with a letter
/// nothing changes. Where it does and no scheme follows, the serialization is emptied.
pub open spec fn scheme_outcome(context: Context, w: Written, s: Seq<u8>, pos: int) -> (
    Written,
    Option<int>,
) {
    if !(peek(s, pos) matches Some(c) && is_alpha(c)) {
        (w, None)
    } else {
        match scan_scheme(context == Context::Setter, s, pos, Seq::<u8>::empty()) {
            Some((scheme, rest)) => (Written { ser: w.ser + scheme, log: w.log }, Some(rest)),
            None => (Written { ser: Seq::<u8>::empty(), log: w.log }, None),
        }
    }
}

/// Whether `ser` is a scheme: it starts with a lower-case letter and is made of
/// lower-case letters, digits, `+`, `-` and `.`.
pub open spec fn scheme_body(ser: Seq<u8>) -> bool {
    &&& ser.len() > 0
    &&& 0x61 <= ser[0] <= 0x7a
    &&& forall|i: int| 0 <= i < ser.len() ==> is_scheme_byte(#[trigger] ser[i])
}

/// Whether the next two characters of `s` from `i` on are `//`.
pub open spec fn two_slashes_at(s: Seq<u8>, i: int) -> bool {
    peek(s, i) == Some(0x2fu8) && peek(s, after_next(s, i)) == Some(0x2fu8)
}

/// What parsing a URL of a scheme that is not special gives, the scheme and its `:`
/// written. Behind `//` comes an authority. Else the URL has no host: behind `/` comes a
/// path of segments, and anything else is a path that cannot be a base.
pub open spec fn non_special_outcome(
    setup: Setup,
    w: Written,
    scheme_type: SchemeType,
    scheme_end: int,
    s: Seq<u8>,
    pos: int,
) -> ParseOutcome {
    if two_slashes_at(s, pos) {
        authority_outcome(
            setup,
            w,
            scheme_type,
            scheme_end,
            s,
            after_next(s, after_next(s, pos)),
        )
    } else if w.ser.len() > u32::MAX {
        failed(ParseError::Overflow, w.log)
    } else {
        let path_start = w.ser.len() as int;
        if peek(s, pos) == Some(0x2fu8) {
            let path = path_outcome(
                setup.context,
                scheme_type,
                path_start,
                s,
                after_next(s, pos),
                Written { ser: w.ser.push(0x2f), log: w.log },
                false,
            );
            record_outcome(
                setup,
                path.written,
                scheme_type,
                scheme_end,
                path_start,
                path_start,
                path_start,
                HostInternal::NoHost,
                None,
                path_start,
                s,
                path.pos,
            )
        } else {
            record_outcome(
                setup,
                opaque_path_written(setup.context, w, s, pos),
                scheme_type,
                scheme_end,
                path_start,
                path_start,
                path_start,
                HostInternal::NoHost,
                None,
                path_start,
                s,
                opaque_path_end(setup.context, s, pos),
            )
        }
    }
}

/// The base URL where its scheme is `file`.
pub open spec fn file_base(base: Option<UrlView>) -> Option<UrlView> {
    match base {
        Some(base) => if is_file_scheme(base.scheme()) {
            Some(base)
        } else {
            None
        },
        None => None,
    }
}

/// What parsing a URL gives behind its scheme, which is written. A file URL is reported
/// where it does not go on with `//`. A URL of another special scheme that goes on with
/// fewer than two separators, and has the scheme of the base URL, is resolved against
/// that; else an authority follows, and the separators are reported where they are not
/// `//`.
pub open spec fn with_scheme_outcome(setup: Setup, w: Written, s: Seq<u8>, pos: int) -> ParseOutcome {
    if w.ser.len() > u32::MAX {
        failed(ParseError::Overflow, w.log)
    } else {
        let scheme_end = w.ser.len() as int;
        let scheme_type = scheme_type_of(w.ser);
        let marked = Written { ser: w.ser.push(0x3a), log: w.log };
        match scheme_type {
            SchemeType::File => file_outcome(
                setup,
                Written {
                    ser: Seq::<u8>::empty(),
                    log: if !two_slashes_at(s, pos) {
                        w.log.push(SyntaxViolation::ExpectedFileDoubleSlash)
                    } else {
                        w.log
                    },
                },
                s,
                pos,
                file_base(setup.base),
            ),
            SchemeType::SpecialNotFile => if setup.base is Some && separators(s, pos) < 2
                && setup.base->0.scheme() == w.ser {
                relative_outcome(
                    setup,
                    Written { ser: Seq::<u8>::empty(), log: w.log },
                    scheme_type,
                    setup.base->0,
                    s,
                    pos,
                )
            } else {
                authority_outcome(
                    setup,
                    Written {
                        ser: marked.ser,
                        log: if !separators_are_two_slashes(s, pos) {
                            w.log.push(SyntaxViolation::ExpectedDoubleSlash)
                        } else {
                            w.log
                        },
                    },
                    scheme_type,
                    scheme_end,
                    s,
                    separators_end(s, pos, pos),
                )
            },
            SchemeType::NotSpecial => non_special_outcome(
                setup,
                marked,
                scheme_type,
                scheme_end,
                s,
                pos,
            ),
        }
    }
}

/// What parsing the text `text` as a URL gives. C0 controls and spaces at its ends are
/// left out, which is reported, and so are tabs and newlines inside. A text with a
/// scheme is parsed as `with_scheme_outcome` says, one without as
/// `without_scheme_outcome` says.
pub open spec fn url_outcome(setup: Setup, w: Written, text: Seq<u8>) -> ParseOutcome {
    let s = trim(text, true);
    let start = Written { ser: w.ser, log: w.log + trim_violations(text, true) };
    let (written, rest) = scheme_outcome(setup.context, start, s, 0);
    match rest {
        Some(rest) => with_scheme_outcome(setup, written, s, rest),
        None => without_scheme_outcome(setup, written, s),
    }
}

/// What parsing a text without a scheme gives: it is resolved against the base URL. A
/// `#` at its start keeps all of the base but its fragment; a base that cannot be a base
/// is the error `RelativeUrlWithCannotBeABaseBase`; no base is the error
/// `RelativeUrlWithoutBase`.
pub open spec fn without_scheme_outcome(setup: Setup, w: Written, s: Seq<u8>) -> ParseOutcome {
    match setup.base {
        Some(base) => if peek(s, 0) == Some(0x23u8) {
            fragment_only_outcome(w, base, s, 0)
        } else if !(base.scheme_end + 1 < base.ser.len() && base.ser[base.scheme_end + 1]
            == 0x2f) {
            failed(ParseError::RelativeUrlWithCannotBeABaseBase, w.log)
        } else if is_file_scheme(base.scheme()) {
            file_outcome(setup, w, s, 0, Some(base))
        } else {
            relative_outcome(setup, w, scheme_type_of(base.scheme()), base, s, 0)
        },
        None => failed(ParseError::RelativeUrlWithoutBase, w.log),
    }
}

fn two_slashes(input: &Input) -> (r: bool)
    requires
        input@.wf(),
    ensures
        r == two_slashes_at(input@.text, input@.pos),
{
    input.starts_with_byte(0x2f) && input.advanced().starts_with_byte(0x2f)
}

fn same_bytes(a: &[u8], b: &[u8]) -> (r: bool)
    ensures
        r == (a@ == b@),
{
    if a.len() != b.len() {
        return false;
    }
    let mut i: usize = 0;
    while i < a.len()
        invariant
            i <= a@.len(),
            a@.len() == b@.len(),
            forall|k: int| 0 <= k < i ==> a@[k] == b@[k],
        decreases a@.len() - i,
    {
        if a[i] != b[i] {
            return false;
        }
        i += 1;
    }
    proof {
        assert(a@ =~= b@);
    }
    true
}

impl<'a> Parser<'a> {
    /// A parser for a whole URL, with the base URL to resolve a relative input against,
    /// the answer of the host parser where it has been asked, and the way the query is
    /// turned into bytes.
    pub fn new(
        base_url: Option<&'a Url>,
        host: Option<Result<Host, ParseError>>,
        query_encoding_override: QueryEncoding,
    ) -> (r: Parser<'a>)
        ensures
            r@ == (Written { ser: Seq::<u8>::empty(), log: Seq::<SyntaxViolation>::empty() }),
            r.base_url == base_url,
            r.host == host,
            r.query_encoding_override == query_encoding_override,
            r.context == Context::UrlParser,
    {
        Parser {
            serialization: Vec::new(),
            base_url,
            query_encoding_override,
            host,
            violations: Vec::new(),
            context: Context::UrlParser,
        }
    }

    /// Parses the scheme at the cursor and writes it in lower case. Returns the cursor
    /// behind the `:` of the scheme, or `Err` where no scheme stands at the cursor.
    pub fn parse_scheme<'i>(&mut self, input: Input<'i>) -> (r: Result<Input<'i>, ()>)
        requires
            input@.wf(),
        ensures
            final(self).setup() == old(self).setup(),
            crate::parser::grows(old(self)@.log, final(self)@.log),
            final(self)@ == scheme_outcome(
                old(self).context,
                old(self)@,
                input@.text,
                input@.pos,
            ).0,
            match scheme_outcome(old(self).context, old(self)@, input@.text, input@.pos).1 {
                Some(rest) => r matches Ok(cursor) && cursor@ == input@.at(rest) && cursor@.wf(),
                None => r is Err,
            },
            r is Err && old(self)@.ser.len() == 0 ==> final(self)@.ser.len() == 0,
            r is Ok && old(self)@.ser.len() == 0 ==> scheme_body(final(self)@.ser),
    {
        let first = input.peek_byte();
        match first {
            Some(c) => {
                if !((0x41 <= c && c <= 0x5a) || (0x61 <= c && c <= 0x7a)) {
                    return Err(());
                }
            },
            None => {
                return Err(());
            },
        }
        let mut cursor = input;
        let setter = self.context == Context::Setter;
        let ghost s = input@.text;
        let ghost start = old(self)@;
        let ghost goal = scan_scheme(setter, s, input@.pos, Seq::<u8>::empty());
        let ghost mut acc = Seq::<u8>::empty();
        proof {
            assert(start.ser + acc =~= start.ser);
            lemma_skip_ignored(s, input@.pos);
        }
        loop
            invariant
                cursor@.wf(),
                cursor@.text == s,
                s == input@.text,
                input@.wf(),
                start == old(self)@,
                setter == (old(self).context == Context::Setter),
                self.setup() == old(self).setup(),
                self@.log == start.log,
                self@.ser == start.ser + acc,
                peek(s, input@.pos) matches Some(c) && is_alpha(c),
                goal == scan_scheme(setter, s, input@.pos, Seq::<u8>::empty()),
                goal == scan_scheme(setter, s, cursor@.pos, acc),
                forall|i: int| 0 <= i < acc.len() ==> is_scheme_byte(#[trigger] acc[i]),
                acc.len() > 0 ==> 0x61 <= acc[0] <= 0x7a,
                acc.len() == 0 ==> cursor@.pos == input@.pos,
            decreases s.len() - cursor@.pos,
        {
            proof {
                lemma_skip_ignored(s, cursor@.pos);
            }
            let at = cursor.skipped();
            match at.peek_byte() {
                None => {
                    if setter {
                        return Ok(at);
                    } else {
                        self.serialization.clear();
                        return Err(());
                    }
                },
                Some(c) => {
                    let ghost before = acc;
                    if (0x61 <= c && c <= 0x7a) || (0x30 <= c && c <= 0x39) || c == 0x2b || c
                        == 0x2d || c == 0x2e {
                        self.serialization.push(c);
                        proof {
                            acc = acc.push(c);
                            assert(self@.ser =~= start.ser + acc);
                        }
                    } else if 0x41 <= c && c <= 0x5a {
                        self.serialization.push(c + 0x20);
                        proof {
                            acc = acc.push((c + 0x20) as u8);
                            assert(self@.ser =~= start.ser + acc);
                        }
                    } else if c == 0x3a {
                        proof {
                            if start.ser.len() == 0 {
                                assert(self@.ser =~= acc);
                            }
                        }
                        return Ok(at.at(at.position() + 1));
                    } else {
                        self.serialization.clear();
                        return Err(());
                    }
                    cursor = at.at(at.position() + 1);
                },
            }
        }
    }

    /// Parses a URL of a scheme that is not special, the scheme and its `:` written.
    pub fn parse_non_special(self, input: Input, scheme_type: SchemeType, scheme_end: u32) -> (r:
        Parsed)
        requires
            input@.wf(),
            all_clean(self@.ser),
            scheme_ok(self@.ser, scheme_end as int),
            self@.ser.len() == scheme_end + 1,
            scheme_type == scheme_type_of(self@.ser.take(scheme_end as int)),
            scheme_type is NotSpecial,
        ensures
            r@ == non_special_outcome(
                self.setup(),
                self@,
                scheme_type,
                scheme_end as int,
                input@.text,
                input@.pos,
            ),
            r@.result matches Ok(url) ==> url.wf(),
            crate::parser::grows(self@.log, r@.log),
            r@.result matches Err(stop) ==> crate::parser::permitted(self.setup(), stop),
    {
        let mut this = self;
        if two_slashes(&input) {
            return this.after_double_slash(input.advanced().advanced(), scheme_type, scheme_end);
        }
        let path_start = match to_u32(this.serialization.len()) {
            Ok(at) => at,
            Err(e) => {
                return this.fail(e);
            },
        };
        let ghost start = this@.ser;
        let remaining = if input.starts_with_byte(0x2f) {
            this.serialization.push(0x2f);
            let ghost pushed = this@.ser;
            proof {
                crate::url::lemma_settled_end(start, path_start as int);
                assert(crate::url::no_dots(start, path_start as int, path_start as int));
                crate::url::lemma_no_dots_push_slash(start, path_start as int);
            }
            let mut has_host = false;
            let r = this.parse_path(
                scheme_type,
                &mut has_host,
                path_start as usize,
                input.advanced(),
            );
            proof {
                lemma_keeps_appended(start, seq![0x2fu8]);
                assert(pushed =~= start + seq![0x2fu8]);
                lemma_keeps_twice(start, pushed, this@.ser, start.len() as int, start.len() as int);
            }
            r
        } else {
            this.parse_cannot_be_a_base_path(input)
        };
        proof {
            crate::url::lemma_head_kept(
                start,
                this@.ser,
                scheme_end as int,
                path_start as int,
                path_start as int,
                path_start as int,
                HostInternal::NoHost,
                path_start as int,
                None,
                start.len() as int,
            );
        }
        this.with_query_and_fragment(
            scheme_type,
            scheme_end,
            path_start,
            path_start,
            path_start,
            HostInternal::NoHost,
            None,
            path_start,
            remaining,
        )
    }

    /// Parses a URL behind its scheme, which is written.
    pub fn parse_with_scheme(self, input: Input) -> (r: Parsed)
        requires
            input@.wf(),
            scheme_body(self@.ser),
        ensures
            r@ == with_scheme_outcome(self.setup(), self@, input@.text, input@.pos),
            r@.result matches Ok(url) ==> url.wf(),
            crate::parser::grows(self@.log, r@.log),
            r@.result matches Err(stop) ==> crate::parser::permitted(self.setup(), stop),
    {
        let mut this = self;
        let scheme_end = match to_u32(this.serialization.len()) {
            Ok(at) => at,
            Err(e) => {
                return this.fail(e);
            },
        };
        let ghost scheme = this@.ser;
        proof {
            assert(scheme.take(scheme.len() as int) =~= scheme);
        }
        let scheme_type = SchemeType::of(this.serialization.as_slice(), scheme_end as usize);
        this.serialization.push(0x3a);
        proof {
            assert(all_clean(this@.ser)) by {
                assert forall|i: int| 0 <= i < this@.ser.len() implies is_clean(
                    #[trigger] this@.ser[i],
                ) by {
                    if i < scheme.len() {
                        assert(is_scheme_byte(scheme[i]));
                        assert(this@.ser[i] == scheme[i]);
                    }
                }
            }
            assert(scheme_ok(this@.ser, scheme_end as int)) by {
                assert forall|i: int| 0 <= i < scheme_end implies is_scheme_byte(
                    #[trigger] this@.ser[i],
                ) by {
                    assert(is_scheme_byte(scheme[i]));
                    assert(this@.ser[i] == scheme[i]);
                }
                assert(this@.ser[0] == scheme[0]);
            }
        }
        match scheme_type {
            SchemeType::File => {
                this.log_violation_if(
                    SyntaxViolation::ExpectedFileDoubleSlash,
                    !two_slashes(&input),
                );
                let base_file_url = match this.base_url {
                    Some(base) => {
                        let bytes = base.as_bytes();
                        match Scheme::of(bytes, base.scheme_end() as usize) {
                            Scheme::File => Some(base),
                            _ => None,
                        }
                    },
                    None => None,
                };
                this.serialization.clear();
                this.parse_file(input, scheme_type, base_file_url)
            },
            SchemeType::SpecialNotFile => {
                let (slashes_count, remaining) = input.count_separators();
                if let Some(base_url) = this.base_url {
                    let bytes = base_url.as_bytes();
                    if slashes_count < 2 && same_bytes(
                        slice_subrange(bytes, 0, base_url.scheme_end() as usize),
                        slice_subrange(this.serialization.as_slice(), 0, scheme_end as usize),
                    ) {
                        proof {
                            assert(bytes@.subrange(0, base_url@.scheme_end) =~= base_url@.scheme());
                            assert(this@.ser.subrange(0, scheme_end as int) =~= scheme);
                        }
                        this.serialization.clear();
                        return this.parse_relative(input, scheme_type, base_url);
                    }
                    proof {
                        assert(bytes@.subrange(0, base_url@.scheme_end) =~= base_url@.scheme());
                        assert(this@.ser.subrange(0, scheme_end as int) =~= scheme);
                    }
                }
                this.log_violation_if(
                    SyntaxViolation::ExpectedDoubleSlash,
                    !separators_are_slashes(&input),
                );
                this.after_double_slash(remaining, scheme_type, scheme_end)
            },
            SchemeType::NotSpecial => this.parse_non_special(input, scheme_type, scheme_end),
        }
    }

    /// Parses `input` as a URL.
    ///
    /// The parse ends with the record of the URL, or with an error, or with a question
    /// that the caller has answered before the parse is run again: about the host, for a
    /// parser without an answer of the host parser; about the parts of the query, for a
    /// parser with an encoding override that has not been asked.
    pub fn parse_url(self, input: &str) -> (r: Parsed)
        requires
            self@.ser.len() == 0,
        ensures
            r@ == url_outcome(self.setup(), self@, input.spec_bytes()),
            r@.result matches Ok(url) ==> url.wf(),
            crate::parser::grows(self@.log, r@.log),
            r@.result matches Err(stop) ==> crate::parser::permitted(self.setup(), stop),
            trim(input.spec_bytes(), true).len() < input.spec_bytes().len() ==> r@.log.contains(
                SyntaxViolation::C0SpaceIgnored,
            ),
            has_tab_or_newline(
                trim(input.spec_bytes(), true),
                0,
                trim(input.spec_bytes(), true).len() as int,
            ) ==> r@.log.contains(SyntaxViolation::TabOrNewlineIgnored),
    {
        let mut this = self;
        let ghost text = input.spec_bytes();
        let input = Input::new_trim_c0_control_and_space(input, &mut this.violations);
        let ghost trimmed = this@.log;
        let r = this.parse_trimmed(input);
        proof {
            let reported = trim_violations(text, true);
            let n = self@.log.len() as int;
            assert(trimmed =~= self@.log + reported);
            if trim(text, true).len() < text.len() {
                assert(trimmed[n] == SyntaxViolation::C0SpaceIgnored);
                assert(r@.log[n] == SyntaxViolation::C0SpaceIgnored);
            }
            if has_tab_or_newline(trim(text, true), 0, trim(text, true).len() as int) {
                let k = n + reported.len() - 1;
                assert(reported[reported.len() - 1] == SyntaxViolation::TabOrNewlineIgnored);
                assert(trimmed[k] == SyntaxViolation::TabOrNewlineIgnored);
                assert(r@.log[k] == SyntaxViolation::TabOrNewlineIgnored);
            }
        }
        r
    }

    /// Parses the trimmed input at the cursor, which stands at its start, as a URL.
    pub fn parse_trimmed(self, input: Input) -> (r: Parsed)
        requires
            self@.ser.len() == 0,
            input@.wf(),
            input@.pos == 0,
        ensures
            r@ == ({
                let (written, rest) = scheme_outcome(self.context, self@, input@.text, 0);
                match rest {
                    Some(rest) => with_scheme_outcome(self.setup(), written, input@.text, rest),
                    None => without_scheme_outcome(self.setup(), written, input@.text),
                }
            }),
            r@.result matches Ok(url) ==> url.wf(),
            crate::parser::grows(self@.log, r@.log),
            r@.result matches Err(stop) ==> crate::parser::permitted(self.setup(), stop),
    {
        let mut this = self;
        match this.parse_scheme(input) {
            Ok(remaining) => {
                return this.parse_with_scheme(remaining);
            },
            Err(_) => {},
        }
        if let Some(base_url) = this.base_url {
            if input.starts_with_byte(0x23) {
                this.fragment_only(base_url, input)
            } else if base_url.cannot_be_a_base() {
                this.fail(ParseError::RelativeUrlWithCannotBeABaseBase)
            } else {
                let bytes = base_url.as_bytes();
                let scheme_type = SchemeType::of(bytes, base_url.scheme_end() as usize);
                if scheme_type.is_file() {
                    this.parse_file(input, scheme_type, Some(base_url))
                } else {
                    this.parse_relative(input, scheme_type, base_url)
                }
            }
        } else {
            this.fail(ParseError::RelativeUrlWithoutBase)
        }
    }
}

} // verus!
