//! The authority of a URL: user name and password, host, and port.

use vstd::prelude::*;
use crate::chars::{
    char_width, decimal, decode_char, drive_letter, fast_u16_to_str, is_digit,
    is_path_delimiter, is_tab_or_newline, lemma_char_at_ascii, to_u32,
};
use crate::error::{ParseError, SyntaxViolation};
use crate::host::{Host, HostInternal, HostKind, HostRequest, HostRequestView, HostView};
use crate::input::{after_next, lemma_skip_ignored, peek, skip_ignored, Input};
use crate::parser::path::{ends_with_slash, keeps, kept_clean};
use crate::parser::scan::{check_url_code_point, code_point_log, stripped};
use crate::parser::sets::{
    append, append_encoded, lemma_encode_clean, lemma_sets_hold_controls, userinfo, userinfo_set,
};
use crate::parser::{Context, Parser, Setup, Stop, StopView, Written};
use crate::percent::encode;
use crate::scheme::{default_port_at, default_port_of, SchemeType};
use crate::url::{all_clean, is_clean};

verus! {

/// Whether `b` ends the authority: `/`, `?` or `#`, and `\` for a special scheme.
pub open spec fn ends_authority(special: bool, b: u8) -> bool {
    b == 0x2f || b == 0x3f || b == 0x23 || (special && b == 0x5c)
}

/// What looking for the user name and password finds: the index of the last `@` of the
/// authority, and the log.
pub struct AtScan {
    pub last: Option<int>,
    pub log: Seq<SyntaxViolation>,
}

/// Looks for the last `@` before the end of the authority that stands in `s` from `i` on.
/// The first `@` is reported as `EmbeddedCredentials`, each further one as
/// `UnencodedAtSign`.
pub open spec fn find_last_at(
    special: bool,
    s: Seq<u8>,
    i: int,
    last: Option<int>,
    log: Seq<SyntaxViolation>,
) -> AtScan
    decreases s.len() - i,
{
    if i < 0 || i >= s.len() {
        AtScan { last, log }
    } else if is_tab_or_newline(s[i]) {
        find_last_at(special, s, i + 1, last, log)
    } else if s[i] == 0x40 {
        find_last_at(
            special,
            s,
            i + 1,
            Some(i),
            log.push(
                if last is Some {
                    SyntaxViolation::UnencodedAtSign
                } else {
                    SyntaxViolation::EmbeddedCredentials
                },
            ),
        )
    } else if ends_authority(special, s[i]) {
        AtScan { last, log }
    } else {
        find_last_at(special, s, i + 1, last, log)
    }
}

/// Where writing the user name and password has come to.
pub struct UserinfoScan {
    pub ser: Seq<u8>,
    pub log: Seq<SyntaxViolation>,
    pub username_end: Option<int>,
    pub has_password: bool,
    pub has_username: bool,
    pub overflow: bool,
}

/// Writes the user name and password that stand in `s` from `i` up to the `@` at index
/// `at`. The first `:` ends the user name, and is written where a password follows.
/// Every other character is reported for what it gives and written percent-encoded under
/// the userinfo set.
pub open spec fn write_userinfo(s: Seq<u8>, i: int, at: int, scan: UserinfoScan) -> UserinfoScan
    decreases s.len() + 4 - i,
{
    if i < 0 || i >= at || i >= s.len() || scan.overflow {
        scan
    } else if is_tab_or_newline(s[i]) {
        write_userinfo(s, i + 1, at, scan)
    } else if s[i] == 0x3a && scan.username_end is None {
        if scan.ser.len() > u32::MAX {
            UserinfoScan { overflow: true, ..scan }
        } else if skip_ignored(s, i + 1) < at {
            write_userinfo(
                s,
                i + 1,
                at,
                UserinfoScan {
                    ser: scan.ser.push(0x3a),
                    username_end: Some(scan.ser.len() as int),
                    has_password: true,
                    ..scan
                },
            )
        } else {
            write_userinfo(
                s,
                i + 1,
                at,
                UserinfoScan { username_end: Some(scan.ser.len() as int), ..scan },
            )
        }
    } else {
        write_userinfo(
            s,
            i + char_width(s, i),
            at,
            UserinfoScan {
                ser: scan.ser + encode(s.subrange(i, i + char_width(s, i)), userinfo_set()),
                log: scan.log + code_point_log(s, i),
                has_username: scan.has_username || !scan.has_password,
                ..scan
            },
        )
    }
}

/// What parsing the user name and password gives: what is written, and the offset
/// behind the user name with the index in the input behind the `@`, or an error.
pub struct UserinfoOutcome {
    pub written: Written,
    pub result: Result<(int, int), ParseError>,
}

/// What parsing the user name and password of the authority that stands in `s` from
/// `pos` on gives. Without an `@` before the end of the authority nothing is written and
/// nothing read. An `@` with nothing before it is read, and is the error `EmptyHost`
/// where the authority ends behind it. Else what stands before the last `@` is written
/// as user name and password, and `@` behind it where either is not empty.
pub open spec fn userinfo_outcome(special: bool, w: Written, s: Seq<u8>, pos: int) -> UserinfoOutcome {
    let found = find_last_at(special, s, pos, None, w.log);
    let seen = Written { ser: w.ser, log: found.log };
    match found.last {
        None => UserinfoOutcome {
            written: seen,
            result: if w.ser.len() > u32::MAX {
                Err(ParseError::Overflow)
            } else {
                Ok((w.ser.len() as int, pos))
            },
        },
        Some(at) => if skip_ignored(s, pos) == at {
            UserinfoOutcome {
                written: seen,
                result: if peek(s, at + 1) matches Some(c) && ends_authority(special, c) {
                    Err(ParseError::EmptyHost)
                } else if w.ser.len() > u32::MAX {
                    Err(ParseError::Overflow)
                } else {
                    Ok((w.ser.len() as int, at + 1))
                },
            }
        } else {
            let scan = write_userinfo(
                s,
                pos,
                at,
                UserinfoScan {
                    ser: w.ser,
                    log: found.log,
                    username_end: None,
                    has_password: false,
                    has_username: false,
                    overflow: false,
                },
            );
            if scan.overflow || (scan.username_end is None && scan.ser.len() > u32::MAX) {
                UserinfoOutcome {
                    written: Written { ser: scan.ser, log: scan.log },
                    result: Err(ParseError::Overflow),
                }
            } else {
                UserinfoOutcome {
                    written: Written {
                        ser: if scan.has_username || scan.has_password {
                            scan.ser.push(0x40)
                        } else {
                            scan.ser
                        },
                        log: scan.log,
                    },
                    result: Ok(
                        (
                            match scan.username_end {
                                Some(end) => end,
                                None => scan.ser.len() as int,
                            },
                            at + 1,
                        ),
                    ),
                }
            }
        },
    }
}

/// Where reading a host text has come to: the index at which the text ends, and the
/// index behind its last byte that is no tab or newline.
pub struct HostScan {
    pub end: int,
    pub last: int,
}

/// Reads the host text that stands in `s` from `i` on. It ends before `/`, `?` and `#`,
/// before `\` where `backslash` is set, and before a `:` that stands outside square
/// brackets where `colon` is set.
pub open spec fn scan_host(
    colon: bool,
    backslash: bool,
    s: Seq<u8>,
    i: int,
    inside: bool,
    last: int,
) -> HostScan
    decreases s.len() - i,
{
    if i < 0 || i >= s.len() {
        HostScan { end: i, last }
    } else if colon && s[i] == 0x3a && !inside {
        HostScan { end: i, last }
    } else if backslash && s[i] == 0x5c {
        HostScan { end: i, last }
    } else if s[i] == 0x2f || s[i] == 0x3f || s[i] == 0x23 {
        HostScan { end: i, last }
    } else if is_tab_or_newline(s[i]) {
        scan_host(colon, backslash, s, i + 1, inside, last)
    } else if s[i] == 0x5b {
        scan_host(colon, backslash, s, i + 1, true, i + 1)
    } else if s[i] == 0x5d {
        scan_host(colon, backslash, s, i + 1, false, i + 1)
    } else {
        scan_host(colon, backslash, s, i + 1, inside, i + 1)
    }
}

/// What reading the host text of a file URL gives: the text, and the index in the input
/// behind it. A text that is a Windows drive letter is no host: the text is empty then,
/// and nothing is read.
pub open spec fn file_host_text(s: Seq<u8>, pos: int) -> (Seq<u8>, int) {
    let scan = scan_host(false, true, s, pos, false, pos);
    let text = stripped(s, pos, scan.end);
    if drive_letter(text) {
        (Seq::<u8>::empty(), pos)
    } else {
        (text, scan.last)
    }
}

/// What the host parser has answered, or the question for it.
pub open spec fn answer_of(
    answer: Option<Result<HostView, ParseError>>,
    text: Seq<u8>,
    kind: HostKind,
) -> Result<HostView, StopView> {
    match answer {
        None => Err(StopView::Host(HostRequestView { text, kind })),
        Some(Ok(host)) => Ok(host),
        Some(Err(e)) => Err(StopView::Error(e)),
    }
}

/// What parsing the host that stands in `s` from `pos` on gives: the host and the index
/// in the input behind its text. The text is read as `scan_host` says; a special scheme
/// that is not `file` has the error `EmptyHost` for an empty text. The host is what the
/// host parser has answered: for the text as a domain where the scheme is special, as an
/// opaque host where it is not. In a file URL the domain `localhost` gives the empty
/// domain.
pub open spec fn host_outcome(
    answer: Option<Result<HostView, ParseError>>,
    scheme_type: SchemeType,
    s: Seq<u8>,
    pos: int,
) -> Result<(HostView, int), StopView> {
    if scheme_type is File {
        let (text, rest) = file_host_text(s, pos);
        match answer_of(answer, text, HostKind::Domain) {
            Err(stop) => Err(stop),
            Ok(host) => Ok(
                (
                    if host.kind == HostInternal::Domain && crate::host::is_localhost(host.text) {
                        HostView { kind: HostInternal::Domain, text: Seq::<u8>::empty() }
                    } else {
                        host
                    },
                    rest,
                ),
            ),
        }
    } else {
        let scan = scan_host(true, scheme_type.special(), s, pos, false, pos);
        let text = stripped(s, pos, scan.end);
        if scheme_type is SpecialNotFile && text.len() == 0 {
            Err(StopView::Error(ParseError::EmptyHost))
        } else {
            match answer_of(
                answer,
                text,
                if scheme_type.special() {
                    HostKind::Domain
                } else {
                    HostKind::Opaque
                },
            ) {
                Err(stop) => Err(stop),
                Ok(host) => Ok((host, scan.last)),
            }
        }
    }
}

/// Where reading a port has come to: its value so far, whether a digit was read, and
/// the index in the input.
pub struct PortScan {
    pub port: int,
    pub any: bool,
    pub pos: int,
}

/// Reads the decimal digits of a port that stand in `s` from `i` on. A value above 65535
/// is the error `InvalidPort`, and so is, where a whole URL is parsed, a character behind
/// the digits that is none of `/`, `\`, `?` and `#`.
pub open spec fn scan_port(context: Context, s: Seq<u8>, i: int, port: int, any: bool) -> Result<
    PortScan,
    ParseError,
>
    decreases s.len() - i,
{
    if i < 0 || i > s.len() {
        Ok(PortScan { port, any, pos: i })
    } else {
        let j = skip_ignored(s, i);
        if i <= j < s.len() {
            if is_digit(s[j]) {
                let next = port * 10 + (s[j] - 0x30);
                if next > 0xffff {
                    Err(ParseError::InvalidPort)
                } else {
                    scan_port(context, s, j + 1, next, true)
                }
            } else if context == Context::UrlParser && !is_path_delimiter(s[j]) {
                Err(ParseError::InvalidPort)
            } else {
                Ok(PortScan { port, any, pos: i })
            }
        } else {
            Ok(PortScan { port, any, pos: i })
        }
    }
}

/// What parsing the port that stands in `s` from `pos` on gives: the port and the index
/// in the input behind its digits. For a setter, something other than digits is the error
/// `InvalidPort`. No port is given where no digit stands, and where the port is
/// `default_port`.
pub open spec fn port_outcome(
    context: Context,
    default_port: Option<u16>,
    s: Seq<u8>,
    pos: int,
) -> Result<(Option<u16>, int), ParseError> {
    match scan_port(context, s, pos, 0, false) {
        Err(e) => Err(e),
        Ok(scan) => if !scan.any && context == Context::Setter && peek(s, scan.pos) is Some {
            Err(ParseError::InvalidPort)
        } else if !scan.any || Some(scan.port as u16) == default_port {
            Ok((None, scan.pos))
        } else {
            Ok((Some(scan.port as u16), scan.pos))
        },
    }
}

/// What parsing host and port gives: what is written, and the offset behind the host,
/// the kind of the host, the port and the index in the input behind them, or why the
/// parse stops.
pub struct HostPortOutcome {
    pub written: Written,
    pub result: Result<(int, HostInternal, Option<u16>, int), StopView>,
}

/// What parsing the host and port that stand in `s` from `pos` on gives. The host is
/// written as the host parser serialized it. An empty domain is the error `EmptyHost`
/// before a `:` and for a special scheme. A port behind a `:` is written, behind a `:` and
/// in decimal digits, where it is not the default port of the scheme.
pub open spec fn host_and_port_outcome(
    setup: Setup,
    w: Written,
    scheme_end: int,
    scheme_type: SchemeType,
    s: Seq<u8>,
    pos: int,
) -> HostPortOutcome {
    match host_outcome(setup.host, scheme_type, s, pos) {
        Err(stop) => HostPortOutcome { written: w, result: Err(stop) },
        Ok((host, rest)) => {
            let with_host = Written { ser: w.ser + host.text, log: w.log };
            if with_host.ser.len() > u32::MAX {
                HostPortOutcome {
                    written: with_host,
                    result: Err(StopView::Error(ParseError::Overflow)),
                }
            } else if host.is_empty_domain() && (peek(s, rest) == Some(0x3au8)
                || scheme_type.special()) {
                HostPortOutcome {
                    written: with_host,
                    result: Err(StopView::Error(ParseError::EmptyHost)),
                }
            } else if peek(s, rest) == Some(0x3au8) {
                match port_outcome(
                    setup.context,
                    default_port_of(w.ser.take(scheme_end)),
                    s,
                    after_next(s, rest),
                ) {
                    Err(e) => HostPortOutcome {
                        written: with_host,
                        result: Err(StopView::Error(e)),
                    },
                    Ok((port, behind)) => HostPortOutcome {
                        written: Written {
                            ser: match port {
                                Some(p) => with_host.ser.push(0x3a) + decimal(p as nat),
                                None => with_host.ser,
                            },
                            log: w.log,
                        },
                        result: Ok((with_host.ser.len() as int, host.internal(), port, behind)),
                    },
                }
            } else {
                HostPortOutcome {
                    written: with_host,
                    result: Ok((with_host.ser.len() as int, host.internal(), None, rest)),
                }
            }
        },
    }
}

/// What parsing the host of a file URL gives: what is written, and whether the URL has a
/// host, the kind of the host and the index in the input behind it, or why the parse
/// stops.
pub struct FileHostOutcome {
    pub written: Written,
    pub result: Result<(bool, HostInternal, int), StopView>,
}

/// What parsing the host of the file URL that stands in `s` from `pos` on gives. An empty
/// text is no host, and neither is the domain `localhost`; any other host is written as
/// the host parser serialized it.
pub open spec fn file_host_outcome(setup: Setup, w: Written, s: Seq<u8>, pos: int) -> FileHostOutcome {
    let (text, rest) = file_host_text(s, pos);
    if text.len() == 0 {
        FileHostOutcome { written: w, result: Ok((false, HostInternal::NoHost, rest)) }
    } else {
        match answer_of(setup.host, text, HostKind::Domain) {
            Err(stop) => FileHostOutcome { written: w, result: Err(stop) },
            Ok(host) => if host.kind == HostInternal::Domain && crate::host::is_localhost(
                host.text,
            ) {
                FileHostOutcome { written: w, result: Ok((false, HostInternal::NoHost, rest)) }
            } else {
                FileHostOutcome {
                    written: Written { ser: w.ser + host.text, log: w.log },
                    result: Ok((true, host.internal(), rest)),
                }
            },
        }
    }
}

proof fn lemma_find_last_at(special: bool, s: Seq<u8>, i: int, last: Option<int>, log: Seq<SyntaxViolation>)
    requires
        0 <= i <= s.len(),
        last matches Some(p) ==> 0 <= p < i && s[p] == 0x40,
    ensures
        find_last_at(special, s, i, last, log).last matches Some(p) ==> 0 <= p < s.len() && s[p]
            == 0x40 && (p >= i || last == Some(p)),
        find_last_at(special, s, i, last, log).last is None ==> last is None,
    decreases s.len() - i,
{
    if i < s.len() {
        if is_tab_or_newline(s[i]) {
            lemma_find_last_at(special, s, i + 1, last, log);
        } else if s[i] == 0x40 {
            lemma_find_last_at(
                special,
                s,
                i + 1,
                Some(i),
                log.push(
                    if last is Some {
                        SyntaxViolation::UnencodedAtSign
                    } else {
                        SyntaxViolation::EmbeddedCredentials
                    },
                ),
            );
        } else if ends_authority(special, s[i]) {
        } else {
            lemma_find_last_at(special, s, i + 1, last, log);
        }
    }
}

proof fn lemma_scan_host(colon: bool, backslash: bool, s: Seq<u8>, i: int, inside: bool, last: int)
    requires
        0 <= last <= i <= s.len(),
    ensures
        i <= scan_host(colon, backslash, s, i, inside, last).end <= s.len(),
        last <= scan_host(colon, backslash, s, i, inside, last).last <= scan_host(
            colon,
            backslash,
            s,
            i,
            inside,
            last,
        ).end,
        scan_host(colon, backslash, s, i, inside, last).end < s.len() ==> s[scan_host(
            colon,
            backslash,
            s,
            i,
            inside,
            last,
        ).end] < 0x80,
    decreases s.len() - i,
{
    if i < s.len() {
        if colon && s[i] == 0x3a && !inside {
        } else if backslash && s[i] == 0x5c {
        } else if s[i] == 0x2f || s[i] == 0x3f || s[i] == 0x23 {
        } else if is_tab_or_newline(s[i]) {
            lemma_scan_host(colon, backslash, s, i + 1, inside, last);
        } else if s[i] == 0x5b {
            lemma_scan_host(colon, backslash, s, i + 1, true, i + 1);
        } else if s[i] == 0x5d {
            lemma_scan_host(colon, backslash, s, i + 1, false, i + 1);
        } else {
            lemma_scan_host(colon, backslash, s, i + 1, inside, i + 1);
        }
    }
}

/// The bytes of `bytes` from `from` to `to` that are no tab, line feed or carriage
/// return.
pub fn strip(bytes: &[u8], from: usize, to: usize) -> (r: Vec<u8>)
    requires
        from <= to <= bytes@.len(),
    ensures
        r@ == stripped(bytes@, from as int, to as int),
{
    let mut out = Vec::new();
    let mut i = from;
    while i < to
        invariant
            from <= i <= to <= bytes@.len(),
            out@ == stripped(bytes@, from as int, i as int),
        decreases to - i,
    {
        let b = bytes[i];
        if !(b == 0x09 || b == 0x0a || b == 0x0d) {
            out.push(b);
        }
        i += 1;
    }
    out
}

/// Reads a host text from index `from` of `bytes` on: the index at which it ends, and
/// the index behind its last byte that is no tab or newline.
pub fn read_host(bytes: &[u8], from: usize, colon: bool, backslash: bool) -> (r: (usize, usize))
    requires
        from <= bytes@.len(),
    ensures
        r.0 == scan_host(colon, backslash, bytes@, from as int, false, from as int).end,
        r.1 == scan_host(colon, backslash, bytes@, from as int, false, from as int).last,
        from <= r.1 <= r.0 <= bytes@.len(),
{
    let mut i = from;
    let mut inside = false;
    let mut last = from;
    let ghost s = bytes@;
    let ghost goal = scan_host(colon, backslash, s, from as int, false, from as int);
    proof {
        lemma_scan_host(colon, backslash, s, from as int, false, from as int);
    }
    while i < bytes.len()
        invariant
            from <= last <= i <= s.len(),
            s == bytes@,
            goal == scan_host(colon, backslash, s, from as int, false, from as int),
            goal == scan_host(colon, backslash, s, i as int, inside, last as int),
            from <= goal.last <= goal.end <= s.len(),
        decreases s.len() - i,
    {
        let b = bytes[i];
        if colon && b == 0x3a && !inside {
            return (i, last);
        } else if backslash && b == 0x5c {
            return (i, last);
        } else if b == 0x2f || b == 0x3f || b == 0x23 {
            return (i, last);
        } else if b == 0x09 || b == 0x0a || b == 0x0d {
        } else if b == 0x5b {
            inside = true;
            last = i + 1;
        } else if b == 0x5d {
            inside = false;
            last = i + 1;
        } else {
            last = i + 1;
        }
        i += 1;
    }
    (i, last)
}

/// What the host parser has answered about `text`, or the question for it.
pub fn host_answer(answer: &Option<Result<Host, ParseError>>, text: Vec<u8>, kind: HostKind) -> (r:
    Result<Host, Stop>)
    ensures
        match answer_of(
            match *answer {
                Some(Ok(host)) => Some(Ok(host@)),
                Some(Err(e)) => Some(Err(e)),
                None => None,
            },
            text@,
            kind,
        ) {
            Ok(host) => r matches Ok(h) && h@ == host && h@.wf(),
            Err(stop) => r matches Err(e) && e@ == stop,
        },
{
    match answer {
        None => Err(Stop::Host(HostRequest { text, kind })),
        Some(Ok(host)) => Ok(host.duplicate()),
        Some(Err(e)) => Err(Stop::Error(*e)),
    }
}

impl<'a> Parser<'a> {
    /// Reads the host text of a file URL at the cursor: whether a host text stands
    /// there, the text, and the cursor behind it. A Windows drive letter is no host text.
    pub fn file_host<'i>(input: Input<'i>) -> (r: Result<(bool, Vec<u8>, Input<'i>), ParseError>)
        requires
            input@.wf(),
        ensures
            r matches Ok((is_host, text, rest)) && ({
                let scan = scan_host(false, true, input@.text, input@.pos, false, input@.pos);
                &&& is_host == !drive_letter(stripped(input@.text, input@.pos, scan.end))
                &&& text@ == file_host_text(input@.text, input@.pos).0
                &&& rest@ == input@.at(file_host_text(input@.text, input@.pos).1)
                &&& rest@.wf()
            }),
    {
        let bytes = input.bytes();
        let pos = input.position();
        let (end, last) = read_host(bytes, pos, false, true);
        let text = strip(bytes, pos, end);
        if text.len() == 2 && crate::chars::is_drive_letter_at(text.as_slice(), 0, 2) {
            proof {
                assert(text@.subrange(0, 2) =~= text@);
            }
            return Ok((false, Vec::new(), input));
        }
        proof {
            if text@.len() == 2 {
                assert(text@.subrange(0, 2) =~= text@);
            }
        }
        Ok((true, text, input.at(last)))
    }

    /// Parses the host at the cursor: the host as `answer` gives it, and the cursor
    /// behind its text; or the question for the host parser where `answer` is `None`.
    pub fn parse_host<'i>(
        input: Input<'i>,
        scheme_type: SchemeType,
        answer: &Option<Result<Host, ParseError>>,
    ) -> (r: Result<(Host, Input<'i>), Stop>)
        requires
            input@.wf(),
        ensures
            match host_outcome(
                match *answer {
                    Some(Ok(host)) => Some(Ok(host@)),
                    Some(Err(e)) => Some(Err(e)),
                    None => None,
                },
                scheme_type,
                input@.text,
                input@.pos,
            ) {
                Ok((host, rest)) => r matches Ok((h, cursor)) && h@ == host && h@.wf() && cursor@
                    == input@.at(rest) && cursor@.wf(),
                Err(stop) => r matches Err(e) && e@ == stop,
            },
    {
        if scheme_type.is_file() {
            return Parser::get_file_host(input, answer);
        }
        let bytes = input.bytes();
        let pos = input.position();
        let (end, last) = read_host(bytes, pos, true, scheme_type.is_special());
        let text = strip(bytes, pos, end);
        if scheme_type == SchemeType::SpecialNotFile && text.len() == 0 {
            return Err(Stop::Error(ParseError::EmptyHost));
        }
        let kind = if scheme_type.is_special() {
            HostKind::Domain
        } else {
            HostKind::Opaque
        };
        match host_answer(answer, text, kind) {
            Ok(host) => Ok((host, input.at(last))),
            Err(stop) => Err(stop),
        }
    }

    /// Parses the host of a file URL at the cursor, as `parse_host` does for the scheme
    /// `file`.
    pub fn get_file_host<'i>(input: Input<'i>, answer: &Option<Result<Host, ParseError>>) -> (r:
        Result<(Host, Input<'i>), Stop>)
        requires
            input@.wf(),
        ensures
            match host_outcome(
                match *answer {
                    Some(Ok(host)) => Some(Ok(host@)),
                    Some(Err(e)) => Some(Err(e)),
                    None => None,
                },
                SchemeType::File,
                input@.text,
                input@.pos,
            ) {
                Ok((host, rest)) => r matches Ok((h, cursor)) && h@ == host && h@.wf() && cursor@
                    == input@.at(rest) && cursor@.wf(),
                Err(stop) => r matches Err(e) && e@ == stop,
            },
    {
        let (text, remaining) = match Parser::file_host(input) {
            Ok((_, text, remaining)) => (text, remaining),
            Err(e) => {
                return Err(Stop::Error(e));
            },
        };
        match host_answer(answer, text, HostKind::Domain) {
            Ok(host) => {
                if host.is_localhost() {
                    Ok((Host::empty_domain(), remaining))
                } else {
                    Ok((host, remaining))
                }
            },
            Err(stop) => Err(stop),
        }
    }

    /// Parses the host of a file URL at the cursor and writes it: whether the URL has a
    /// host, the kind of the host, and the cursor behind the host text.
    pub fn parse_file_host<'i>(&mut self, input: Input<'i>) -> (r: Result<
        (bool, HostInternal, Input<'i>),
        Stop,
    >)
        requires
            input@.wf(),
        ensures
            r matches Err(e) ==> crate::parser::permitted(old(self).setup(), e@),
            final(self).setup() == old(self).setup(),
            crate::parser::grows(old(self)@.log, final(self)@.log),
            final(self)@ == file_host_outcome(
                old(self).setup(),
                old(self)@,
                input@.text,
                input@.pos,
            ).written,
            match file_host_outcome(
                old(self).setup(),
                old(self)@,
                input@.text,
                input@.pos,
            ).result {
                Ok((has_host, host, rest)) => r matches Ok((b, h, cursor)) && b == has_host && h
                    == host && cursor@ == input@.at(rest) && cursor@.wf(),
                Err(stop) => r matches Err(e) && e@ == stop,
            },
            keeps(old(self)@.ser, final(self)@.ser, old(self)@.ser.len() as int),
            kept_clean(old(self)@.ser, final(self)@.ser),
            r matches Ok((_, h, _)) ==> (h == HostInternal::NoHost) == (final(self)@.ser.len()
                == old(self)@.ser.len()),
    {
        let ghost before = self@.ser;
        proof {
            assert(before.take(before.len() as int) =~= before);
        }
        let (text, remaining) = match Parser::file_host(input) {
            Ok((_, text, remaining)) => (text, remaining),
            Err(e) => {
                return Err(Stop::Error(e));
            },
        };
        if text.len() == 0 {
            return Ok((false, HostInternal::NoHost, remaining));
        }
        match host_answer(&self.host, text, HostKind::Domain) {
            Err(stop) => Err(stop),
            Ok(host) => {
                if host.is_localhost() {
                    Ok((false, HostInternal::NoHost, remaining))
                } else {
                    let written = host.text();
                    append(&mut self.serialization, written, 0, written.len());
                    proof {
                        assert(written@.subrange(0, written@.len() as int) =~= written@);
                        assert(self@.ser.take(before.len() as int) =~= before);
                        assert(all_clean(host@.text)) by {
                            assert forall|i: int| 0 <= i < host@.text.len() implies is_clean(
                                #[trigger] host@.text[i],
                            ) by {
                                assert(crate::host::is_host_byte(host@.text[i]));
                            }
                        }
                    }
                    Ok((true, host.internal(), remaining))
                }
            },
        }
    }

    /// Parses the port at the cursor, behind its `:`: the port, where one stands there
    /// that is not `default_port`, and the cursor behind its digits.
    pub fn parse_port<'i>(input: Input<'i>, default_port: Option<u16>, context: Context) -> (r:
        Result<(Option<u16>, Input<'i>), ParseError>)
        requires
            input@.wf(),
        ensures
            match port_outcome(context, default_port, input@.text, input@.pos) {
                Ok((port, rest)) => r matches Ok((p, cursor)) && p == port && cursor@ == input@.at(
                    rest,
                ) && cursor@.wf(),
                Err(e) => r == Err::<(Option<u16>, Input<'i>), ParseError>(e),
            },
            r matches Ok((Some(p), _)) ==> Some(p) != default_port,
    {
        let mut port: u32 = 0;
        let mut has_any_digit = false;
        let mut cursor = input;
        let ghost s = input@.text;
        let ghost goal = scan_port(context, s, input@.pos, 0, false);
        loop
            invariant
                cursor@.wf(),
                cursor@.text == s,
                s == input@.text,
                port <= 0xffff,
                goal == scan_port(context, s, input@.pos, 0, false),
                goal == scan_port(context, s, cursor@.pos, port as int, has_any_digit),
            ensures
                cursor@.wf(),
                cursor@.text == s,
                port <= 0xffff,
                goal == Ok::<PortScan, ParseError>(
                    PortScan { port: port as int, any: has_any_digit, pos: cursor@.pos },
                ),
            decreases s.len() - cursor@.pos,
        {
            proof {
                lemma_skip_ignored(s, cursor@.pos);
            }
            let at = cursor.skipped();
            match at.peek_byte() {
                None => {
                    break ;
                },
                Some(c) => {
                    if 0x30 <= c && c <= 0x39 {
                        port = port * 10 + (c - 0x30) as u32;
                        if port > 0xffff {
                            return Err(ParseError::InvalidPort);
                        }
                        has_any_digit = true;
                    } else if context == Context::UrlParser && !(c == 0x2f || c == 0x5c || c == 0x3f
                        || c == 0x23) {
                        return Err(ParseError::InvalidPort);
                    } else {
                        break ;
                    }
                    cursor = at.at(at.position() + 1);
                },
            }
        }
        if !has_any_digit && context == Context::Setter && !cursor.is_empty() {
            return Err(ParseError::InvalidPort);
        }
        let mut opt_port = Some(port as u16);
        if !has_any_digit || same_port(opt_port, default_port) {
            opt_port = None;
        }
        Ok((opt_port, cursor))
    }
}

fn same_port(a: Option<u16>, b: Option<u16>) -> (r: bool)
    ensures
        r == (a == b),
{
    match (a, b) {
        (Some(x), Some(y)) => x == y,
        (None, None) => true,
        _ => false,
    }
}


impl<'a> Parser<'a> {
    /// Parses the user name and password of the authority at the cursor, and writes
    /// them. Returns the offset behind the user name, and the cursor behind the `@`, or
    /// the cursor as it was where the authority holds no `@`.
    pub fn parse_userinfo<'i>(&mut self, input: Input<'i>, scheme_type: SchemeType) -> (r: Result<
        (u32, Input<'i>),
        ParseError,
    >)
        requires
            input@.wf(),
        ensures
            final(self).setup() == old(self).setup(),
            crate::parser::grows(old(self)@.log, final(self)@.log),
            final(self)@ == userinfo_outcome(
                scheme_type.special(),
                old(self)@,
                input@.text,
                input@.pos,
            ).written,
            match userinfo_outcome(
                scheme_type.special(),
                old(self)@,
                input@.text,
                input@.pos,
            ).result {
                Ok((username_end, rest)) => r matches Ok((u, cursor)) && u == username_end
                    && cursor@ == input@.at(rest) && cursor@.wf(),
                Err(e) => r == Err::<(u32, Input<'i>), ParseError>(e),
            },
            keeps(old(self)@.ser, final(self)@.ser, old(self)@.ser.len() as int),
            kept_clean(old(self)@.ser, final(self)@.ser),
            r matches Ok((u, _)) ==> old(self)@.ser.len() <= u <= final(self)@.ser.len(),
    {
        let bytes = input.bytes();
        let pos = input.position();
        let len = bytes.len();
        let special = scheme_type.is_special();
        let ghost s = bytes@;
        let ghost start = old(self)@;
        let ghost found = find_last_at(special, s, pos as int, None, start.log);
        let mut last_at: Option<usize> = None;
        let mut i = pos;
        proof {
            lemma_find_last_at(special, s, pos as int, None, start.log);
            assert(start.ser.take(start.ser.len() as int) =~= start.ser);
        }
        while i < len
            invariant
                pos <= i <= len,
                len == s.len(),
                s == bytes@,
                s == input@.text,
                self.setup() == old(self).setup(),
                crate::parser::grows(old(self)@.log, self@.log),
                self@.ser == start.ser,
                start == old(self)@,
                last_at matches Some(p) ==> pos <= p < i && s[p as int] == 0x40,
                found == find_last_at(special, s, pos as int, None, start.log),
                found == find_last_at(
                    special,
                    s,
                    i as int,
                    match last_at {
                        Some(p) => Some(p as int),
                        None => None,
                    },
                    self@.log,
                ),
            ensures
                self.setup() == old(self).setup(),
                crate::parser::grows(old(self)@.log, self@.log),
                self@.ser == start.ser,
                pos <= i <= len,
                last_at matches Some(p) ==> pos <= p < i && s[p as int] == 0x40,
                found == (AtScan {
                    last: match last_at {
                        Some(p) => Some(p as int),
                        None => None,
                    },
                    log: self@.log,
                }),
            decreases len - i,
        {
            let b = bytes[i];
            if b == 0x09 || b == 0x0a || b == 0x0d {
            } else if b == 0x40 {
                if last_at.is_some() {
                    self.log_violation(SyntaxViolation::UnencodedAtSign);
                } else {
                    self.log_violation(SyntaxViolation::EmbeddedCredentials);
                }
                last_at = Some(i);
            } else if b == 0x2f || b == 0x3f || b == 0x23 || (special && b == 0x5c) {
                break ;
            }
            i += 1;
        }
        let at = match last_at {
            None => {
                return match to_u32(self.serialization.len()) {
                    Ok(u) => Ok((u, input)),
                    Err(e) => Err(e),
                };
            },
            Some(at) => at,
        };
        let remaining = input.at(at + 1);
        proof {
            lemma_skip_ignored(s, pos as int);
        }
        if input.skipped().position() == at {
            if let Some(c) = remaining.peek_byte() {
                if c == 0x2f || c == 0x3f || c == 0x23 || (special && c == 0x5c) {
                    return Err(ParseError::EmptyHost);
                }
            }
            return match to_u32(self.serialization.len()) {
                Ok(u) => Ok((u, remaining)),
                Err(e) => Err(e),
            };
        }
        let set = userinfo();
        let mut username_end: Option<u32> = None;
        let mut has_password = false;
        let mut has_username = false;
        let mut j = pos;
        let ghost goal = write_userinfo(
            s,
            pos as int,
            at as int,
            UserinfoScan {
                ser: start.ser,
                log: found.log,
                username_end: None,
                has_password: false,
                has_username: false,
                overflow: false,
            },
        );
        proof {
            lemma_sets_hold_controls();
        }
        while j < at
            invariant
                pos <= j <= at < len,
                len == s.len(),
                s == bytes@,
                s == input@.text,
                input@.wf(),
                s[at as int] == 0x40,
                special == scheme_type.special(),
                pos == input@.pos,
                found == find_last_at(special, s, pos as int, None, start.log),
                found.last == Some(at as int),
                skip_ignored(s, pos as int) != at,
                set@ == userinfo_set(),
                self.setup() == old(self).setup(),
                crate::parser::grows(old(self)@.log, self@.log),
                start == old(self)@,
                start.ser.len() <= self@.ser.len(),
                self@.ser.take(start.ser.len() as int) == start.ser,
                kept_clean(start.ser, self@.ser),
                username_end matches Some(u) ==> start.ser.len() <= u <= self@.ser.len(),
                goal == write_userinfo(
                    s,
                    pos as int,
                    at as int,
                    UserinfoScan {
                        ser: start.ser,
                        log: found.log,
                        username_end: None,
                        has_password: false,
                        has_username: false,
                        overflow: false,
                    },
                ),
                goal == write_userinfo(
                    s,
                    j as int,
                    at as int,
                    UserinfoScan {
                        ser: self@.ser,
                        log: self@.log,
                        username_end: match username_end {
                            Some(u) => Some(u as int),
                            None => None,
                        },
                        has_password,
                        has_username,
                        overflow: false,
                    },
                ),
            decreases at - j,
        {
            let b = bytes[j];
            let ghost before = self@.ser;
            if b == 0x09 || b == 0x0a || b == 0x0d {
                j += 1;
            } else if b == 0x3a && username_end.is_none() {
                let u = match to_u32(self.serialization.len()) {
                    Ok(u) => u,
                    Err(e) => {
                        proof {
                            assert(start.ser.take(start.ser.len() as int) =~= start.ser);
                        }
                        return Err(e);
                    },
                };
                username_end = Some(u);
                proof {
                    lemma_skip_ignored(s, j + 1);
                }
                if input.at(j + 1).skipped().position() < at {
                    self.serialization.push(0x3a);
                    has_password = true;
                    proof {
                        assert(self@.ser.take(start.ser.len() as int) =~= before.take(
                            start.ser.len() as int,
                        ));
                    }
                }
                j += 1;
            } else {
                let (c, w) = decode_char(bytes, j);
                proof {
                    lemma_char_at_ascii(s, j as int);
                    crate::parser::scan::lemma_char_within(s, j as int, at as int);
                }
                if !has_password {
                    has_username = true;
                }
                check_url_code_point(&mut self.violations, c, &input.at(j + w));
                append_encoded(&mut self.serialization, bytes, j, j + w, &set);
                proof {
                    lemma_encode_clean(s.subrange(j as int, j + w), set@);
                    assert(self@.ser.take(start.ser.len() as int) =~= before.take(
                        start.ser.len() as int,
                    ));
                }
                j += w;
            }
        }
        let username_end = match username_end {
            Some(u) => u,
            None => match to_u32(self.serialization.len()) {
                Ok(u) => u,
                Err(e) => {
                    return Err(e);
                },
            },
        };
        if has_username || has_password {
            let ghost before = self@.ser;
            self.serialization.push(0x40);
            proof {
                assert(self@.ser.take(start.ser.len() as int) =~= before.take(
                    start.ser.len() as int,
                ));
            }
        }
        Ok((username_end, remaining))
    }

    /// Parses the host and port at the cursor, and writes them. Returns the offset
    /// behind the host, the kind of the host, the port, and the cursor behind them.
    pub fn parse_host_and_port<'i>(
        &mut self,
        input: Input<'i>,
        scheme_end: u32,
        scheme_type: SchemeType,
    ) -> (r: Result<(u32, HostInternal, Option<u16>, Input<'i>), Stop>)
        requires
            input@.wf(),
            scheme_end <= old(self)@.ser.len(),
        ensures
            r matches Err(e) ==> crate::parser::permitted(old(self).setup(), e@),
            final(self).setup() == old(self).setup(),
            crate::parser::grows(old(self)@.log, final(self)@.log),
            final(self)@ == host_and_port_outcome(
                old(self).setup(),
                old(self)@,
                scheme_end as int,
                scheme_type,
                input@.text,
                input@.pos,
            ).written,
            match host_and_port_outcome(
                old(self).setup(),
                old(self)@,
                scheme_end as int,
                scheme_type,
                input@.text,
                input@.pos,
            ).result {
                Ok((host_end, host, port, rest)) => r matches Ok((e, h, p, cursor)) && e
                    == host_end && h == host && p == port && cursor@ == input@.at(rest)
                    && cursor@.wf(),
                Err(stop) => r matches Err(e) && e@ == stop,
            },
            keeps(old(self)@.ser, final(self)@.ser, old(self)@.ser.len() as int),
            kept_clean(old(self)@.ser, final(self)@.ser),
            r matches Ok((e, h, p, _)) ==> old(self)@.ser.len() <= e <= final(self)@.ser.len() && (
            p is Some ==> p != default_port_of(old(self)@.ser.take(scheme_end as int))) && (
            scheme_type.special() ==> h != HostInternal::NoHost),
            r matches Ok((e, h, p, _)) ==> ((h == HostInternal::NoHost) == (e == old(self)@.ser.len())) && (p matches Some(v) ==> final(self)@.ser.subrange(
                e as int,
                final(self)@.ser.len() as int,
            ) == seq![0x3au8] + decimal(v as nat)) && (p is None ==> final(self)@.ser.len() == e)
                && (final(self)@.ser.len() > old(self)@.ser.len() ==> !ends_with_slash(
                final(self)@.ser,
            )),
    {
        let ghost before = self@.ser;
        proof {
            assert(before.take(before.len() as int) =~= before);
        }
        let (host, remaining) = match Parser::parse_host(input, scheme_type, &self.host) {
            Ok(found) => found,
            Err(stop) => {
                return Err(stop);
            },
        };
        let written = host.text();
        append(&mut self.serialization, written, 0, written.len());
        let ghost with_host = self@.ser;
        proof {
            assert(written@.subrange(0, written@.len() as int) =~= written@);
            assert(with_host.take(before.len() as int) =~= before);
            assert(with_host.take(scheme_end as int) =~= before.take(scheme_end as int));
            assert(all_clean(host@.text)) by {
                assert forall|i: int| 0 <= i < host@.text.len() implies is_clean(
                    #[trigger] host@.text[i],
                ) by {
                    assert(crate::host::is_host_byte(host@.text[i]));
                }
            }
        }
        let host_end = match to_u32(self.serialization.len()) {
            Ok(u) => u,
            Err(e) => {
                return Err(Stop::Error(e));
            },
        };
        proof {
            if host@.text.len() > 0 {
                assert(with_host.last() == host@.text.last());
                assert(crate::host::is_host_byte(host@.text[host@.text.len() - 1]));
            }
        }
        let next = remaining.peek_byte();
        if host.is_empty_domain() {
            if next == Some(0x3a) {
                return Err(Stop::Error(ParseError::EmptyHost));
            }
            if scheme_type.is_special() {
                return Err(Stop::Error(ParseError::EmptyHost));
            }
        }
        if next == Some(0x3a) {
            let default = default_port_at(self.serialization.as_slice(), scheme_end as usize);
            let (port, remaining) = match Parser::parse_port(
                remaining.advanced(),
                default,
                self.context,
            ) {
                Ok(found) => found,
                Err(e) => {
                    return Err(Stop::Error(e));
                },
            };
            if let Some(port) = port {
                self.serialization.push(0x3a);
                fast_u16_to_str(&mut self.serialization, port);
                proof {
                    assert(self@.ser =~= with_host.push(0x3a) + decimal(port as nat));
                    assert(self@.ser.take(before.len() as int) =~= before);
                    lemma_decimal_clean(port as nat);
                    assert(self@.ser.subrange(host_end as int, self@.ser.len() as int) =~= seq![
                        0x3au8,
                    ] + decimal(port as nat));
                    assert(is_clean(self@.ser.last()) && self@.ser.last() != 0x2f) by {
                        lemma_decimal_digits(port as nat);
                        assert(self@.ser.last() == decimal(port as nat).last());
                    }
                }
            }
            Ok((host_end, host.internal(), port, remaining))
        } else {
            Ok((host_end, host.internal(), None, remaining))
        }
    }
}

/// Decimal digits are digits.
pub proof fn lemma_decimal_digits(n: nat)
    ensures
        decimal(n).len() >= 1,
        is_digit(decimal(n).last()),
    decreases n,
{
    if n >= 10 {
        lemma_decimal_digits(n / 10);
    }
}

/// Decimal digits are clean.
pub proof fn lemma_decimal_clean(n: nat)
    ensures
        all_clean(decimal(n)),
        decimal(n).len() >= 1,
    decreases n,
{
    if n >= 10 {
        lemma_decimal_clean(n / 10);
    }
}

} // verus!
