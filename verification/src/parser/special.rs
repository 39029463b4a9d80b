//! File URLs, and the resolution of a relative input against a base URL.

use vstd::prelude::*;
use vstd::slice::slice_subrange;
use crate::chars::{
    is_alpha, is_normalized_drive_letter_at, is_path_delimiter, normalized_drive_letter, to_u32,
};
use crate::error::{ParseError, SyntaxViolation};
use crate::host::HostInternal;
use crate::input::{
    after_next, lemma_skip_ignored, peek, separators, separators_are_two_slashes, separators_end,
    Input,
};
use crate::parser::assemble::{
    authority_outcome, failed, fragment_only_outcome, record_outcome, stopped, ParseOutcome,
    Parsed,
};
use crate::parser::authority::file_host_outcome;
use crate::parser::path::{
    keeps, kept_clean, lemma_keeps_appended, lemma_keeps_index, lemma_keeps_less,
    lemma_keeps_twice, lemma_kept_dots, lemma_shortened_tidy, lemma_slash_is_tidy, path_outcome,
    path_start_outcome, popped, shortened,
};
use crate::parser::scan::{find_first_of, first_of};
use crate::parser::sets::append;
use crate::parser::tail::{tail_outcome, TailOutcome};
use crate::parser::{Parser, Setup, Stop, Written};
use crate::scheme::{is_file_scheme, scheme_type_of, SchemeType};
use crate::url::{
    all_clean, as_int, is_clean, lemma_head_kept, lemma_no_dots_kept, lemma_no_dots_moved,
    no_dots, path_end_of, rooted, scheme_ok, special_scheme, tail_ok, tidy, Url, UrlView,
};

verus! {

/// The bytes of `file://`.
pub open spec fn file_prefix() -> Seq<u8> {
    seq![0x66u8, 0x69u8, 0x6cu8, 0x65u8, 0x3au8, 0x2fu8, 0x2fu8]
}

/// The record of a file URL that is written `ser`: the scheme ends at 4, the host
/// starts at 7 and ends where the path starts.
pub open spec fn file_record(
    ser: Seq<u8>,
    host_end: int,
    host: HostInternal,
    query_start: Option<int>,
    fragment_start: Option<int>,
) -> UrlView {
    UrlView {
        ser,
        scheme_end: 4,
        username_end: 7,
        host_start: 7,
        host_end,
        host,
        port: None,
        path_start: host_end,
        query_start,
        fragment_start,
    }
}

/// The outcome of a file URL whose query and fragment gave `tail`.
pub open spec fn file_tail(tail: TailOutcome, host_end: int, host: HostInternal) -> ParseOutcome {
    ParseOutcome {
        result: match tail.starts {
            Ok((query_start, fragment_start)) => Ok(
                file_record(tail.written.ser, host_end, host, query_start, fragment_start),
            ),
            Err(stop) => Err(stop),
        },
        log: tail.written.log,
    }
}

/// The outcome of a URL that has everything up to its path from `base`, and whose query
/// and fragment gave `tail`.
pub open spec fn based_tail(tail: TailOutcome, base: UrlView) -> ParseOutcome {
    ParseOutcome {
        result: match tail.starts {
            Ok((query_start, fragment_start)) => Ok(
                UrlView { ser: tail.written.ser, query_start, fragment_start, ..base },
            ),
            Err(stop) => Err(stop),
        },
        log: tail.written.log,
    }
}

/// Whether the next characters of `s` from `i` on are a Windows drive letter that ends
/// the input or stands before one of `/`, `\`, `?` and `#`.
pub open spec fn drive_letter_segment_at(s: Seq<u8>, i: int) -> bool {
    let a = peek(s, i);
    let second = after_next(s, i);
    let b = peek(s, second);
    let third = after_next(s, second);
    let c = peek(s, third);
    a is Some && is_alpha(a->0) && b is Some && (b->0 == 0x3a || b->0 == 0x7c) && (c is None || (
    c is Some && is_path_delimiter(c->0)))
}

/// The index at which the first segment of the path of `base` ends: at the first `/`
/// behind the `/` that the path starts with, or at the end of the path.
pub open spec fn first_segment_end(base: UrlView) -> int {
    let end = first_of(base.ser.take(base.path_end()), base.path_start + 1, 0x2f, 0x2f);
    if end < base.path_start + 1 {
        base.path_start + 1
    } else {
        end
    }
}

/// The first segment of the path of `base`; empty where the path is.
pub open spec fn first_segment(base: UrlView) -> Seq<u8> {
    if base.path_start < base.path_end() {
        base.ser.subrange(base.path_start + 1, first_segment_end(base))
    } else {
        Seq::<u8>::empty()
    }
}

/// What parsing a file URL gives that starts with two separators: `file://`, the host,
/// the path, and query and fragment. A URL that loses its host to a Windows drive letter
/// has the text of the host taken out.
pub open spec fn file_host_branch(setup: Setup, w: Written, s: Seq<u8>, pos: int) -> ParseOutcome {
    let start = Written { ser: w.ser + file_prefix(), log: w.log };
    let h = file_host_outcome(setup, start, s, pos);
    match h.result {
        Err(stop) => stopped(stop, h.written.log),
        Ok((has_host, host, rest)) => if h.written.ser.len() > u32::MAX {
            failed(ParseError::Overflow, h.written.log)
        } else {
            let host_end = h.written.ser.len() as int;
            let path = if has_host {
                path_start_outcome(
                    setup.context,
                    SchemeType::File,
                    s,
                    rest,
                    h.written,
                    host != HostInternal::NoHost,
                )
            } else {
                path_outcome(
                    setup.context,
                    SchemeType::File,
                    host_end,
                    s,
                    rest,
                    Written { ser: h.written.ser.push(0x2f), log: h.written.log },
                    host != HostInternal::NoHost,
                )
            };
            if !path.has_host {
                file_tail(
                    tail_outcome(
                        setup,
                        Written {
                            ser: path.written.ser.take(7) + path.written.ser.skip(host_end),
                            log: path.written.log,
                        },
                        SchemeType::File,
                        4,
                        s,
                        path.pos,
                    ),
                    7,
                    HostInternal::NoHost,
                )
            } else {
                file_tail(
                    tail_outcome(setup, path.written, SchemeType::File, 4, s, path.pos),
                    host_end,
                    host,
                )
            }
        },
    }
}

/// What a file URL that starts with one separator has before its path: `file://`, and
/// from a base file URL, where the input does not start with a Windows drive letter, the
/// normalized Windows drive letter that is the first segment of its path, or else its
/// host. Given are the serialization, the offset behind the host, and the kind of the
/// host.
pub open spec fn file_slash_head(
    w: Written,
    s: Seq<u8>,
    after_first: int,
    base: Option<UrlView>,
) -> (Seq<u8>, int, HostInternal) {
    let start = w.ser + file_prefix();
    if !drive_letter_segment_at(s, after_first) && base is Some {
        let base = base->0;
        if normalized_drive_letter(first_segment(base)) {
            (start.push(0x2f) + first_segment(base), 7, HostInternal::NoHost)
        } else if base.host != HostInternal::NoHost {
            (
                start + base.ser.subrange(base.host_start, base.host_end),
                7 + (base.host_end - base.host_start),
                base.host,
            )
        } else {
            (start, 7, HostInternal::NoHost)
        }
    } else {
        (start, 7, HostInternal::NoHost)
    }
}

/// What parsing a file URL gives that starts with one separator: what `file_slash_head`
/// says, the path, and query and fragment.
pub open spec fn file_slash_branch(
    setup: Setup,
    w: Written,
    s: Seq<u8>,
    pos: int,
    base: Option<UrlView>,
) -> ParseOutcome {
    let (ser, host_end, host) = file_slash_head(w, s, after_next(s, pos), base);
    if host_end > u32::MAX {
        failed(ParseError::Overflow, w.log)
    } else {
        let path = path_outcome(
            setup.context,
            SchemeType::File,
            host_end,
            s,
            pos,
            Written { ser, log: w.log },
            false,
        );
        file_tail(
            tail_outcome(setup, path.written, SchemeType::File, 4, s, path.pos),
            host_end,
            host,
        )
    }
}

/// What parsing a file URL gives that starts with no separator and has nothing from a
/// base: `file:///`, the path, and query and fragment.
pub open spec fn file_plain_branch(setup: Setup, w: Written, s: Seq<u8>, pos: int) -> ParseOutcome {
    let path = path_outcome(
        setup.context,
        SchemeType::File,
        7,
        s,
        pos,
        Written { ser: (w.ser + file_prefix()).push(0x2f), log: w.log },
        false,
    );
    file_tail(
        tail_outcome(setup, path.written, SchemeType::File, 4, s, path.pos),
        7,
        HostInternal::NoHost,
    )
}

/// What resolving an empty input gives: the base URL without its fragment.
pub open spec fn base_copy_outcome(w: Written, base: UrlView) -> ParseOutcome {
    ParseOutcome {
        result: Ok(
            UrlView {
                ser: w.ser + base.ser.take(base.before_fragment()),
                fragment_start: None,
                ..base
            },
        ),
        log: w.log,
    }
}

/// What resolving an input that starts with `?` gives: the base URL up to its query, and
/// the query and fragment of the input.
pub open spec fn base_query_outcome(
    setup: Setup,
    w: Written,
    scheme_type: SchemeType,
    base: UrlView,
    s: Seq<u8>,
    pos: int,
) -> ParseOutcome {
    based_tail(
        tail_outcome(
            setup,
            Written { ser: w.ser + base.ser.take(base.path_end()), log: w.log },
            scheme_type,
            base.scheme_end,
            s,
            pos,
        ),
        base,
    )
}

/// What parsing a file URL gives, the scheme read or taken from the base. Two separators
/// at the start come before a host, one before a path. Without a separator, and with a
/// base file URL, an empty input gives the base, a `?` keeps its path, a `#` its query
/// too; any other input is a path that goes on from the path of the base shortened by a
/// segment, unless it starts with a Windows drive letter.
pub open spec fn file_outcome(
    setup: Setup,
    w: Written,
    s: Seq<u8>,
    pos: int,
    base: Option<UrlView>,
) -> ParseOutcome {
    let first = peek(s, pos);
    let second_at = after_next(s, pos);
    let second = peek(s, second_at);
    let slash_log = if first == Some(0x5cu8) {
        w.log.push(SyntaxViolation::Backslash)
    } else {
        w.log
    };
    if first == Some(0x2fu8) || first == Some(0x5cu8) {
        if second == Some(0x2fu8) || second == Some(0x5cu8) {
            file_host_branch(
                setup,
                Written {
                    ser: w.ser,
                    log: if second == Some(0x5cu8) {
                        slash_log.push(SyntaxViolation::Backslash)
                    } else {
                        slash_log
                    },
                },
                s,
                after_next(s, second_at),
            )
        } else {
            file_slash_branch(setup, Written { ser: w.ser, log: slash_log }, s, pos, base)
        }
    } else {
        match base {
            Some(base) => if first is None {
                base_copy_outcome(w, base)
            } else if first == Some(0x3fu8) {
                base_query_outcome(setup, w, SchemeType::File, base, s, pos)
            } else if first == Some(0x23u8) {
                fragment_only_outcome(w, base, s, pos)
            } else if !drive_letter_segment_at(s, pos) {
                let path = path_outcome(
                    setup.context,
                    SchemeType::File,
                    base.path_start,
                    s,
                    pos,
                    Written {
                        ser: shortened(
                            w.ser + base.ser.take(base.path_end()),
                            true,
                            base.path_start,
                        ),
                        log: w.log,
                    },
                    true,
                );
                record_outcome(
                    setup,
                    path.written,
                    SchemeType::File,
                    base.scheme_end,
                    base.username_end,
                    base.host_start,
                    base.host_end,
                    base.host,
                    base.port,
                    base.path_start,
                    s,
                    path.pos,
                )
            } else {
                file_plain_branch(setup, w, s, pos)
            },
            None => file_plain_branch(setup, w, s, pos),
        }
    }
}

/// What resolving a relative input against the base URL `base` gives, whose scheme is of
/// the family `scheme_type` and is not `file`. An empty input gives the base, a `?` keeps
/// its path, a `#` its query too. Two separators or more at the start come before an
/// authority behind the scheme of the base; the separators are reported where they are
/// not `//`. One separator comes before a path behind the authority of the base. Any
/// other input is a path that goes on from the path of the base without its last
/// segment.
pub open spec fn relative_outcome(
    setup: Setup,
    w: Written,
    scheme_type: SchemeType,
    base: UrlView,
    s: Seq<u8>,
    pos: int,
) -> ParseOutcome {
    let first = peek(s, pos);
    if first is None {
        base_copy_outcome(w, base)
    } else if first == Some(0x3fu8) {
        base_query_outcome(setup, w, scheme_type, base, s, pos)
    } else if first == Some(0x23u8) {
        fragment_only_outcome(w, base, s, pos)
    } else if first == Some(0x2fu8) || first == Some(0x5cu8) {
        if separators(s, pos) >= 2 {
            let log = if !separators_are_two_slashes(s, pos) {
                w.log.push(SyntaxViolation::ExpectedDoubleSlash)
            } else {
                w.log
            };
            let second_at = after_next(s, pos);
            authority_outcome(
                setup,
                Written { ser: w.ser + base.ser.take(base.scheme_end + 1), log },
                scheme_type,
                base.scheme_end,
                s,
                if first == Some(0x2fu8) && peek(s, second_at) == Some(0x2fu8) {
                    after_next(s, second_at)
                } else {
                    separators_end(s, pos, pos)
                },
            )
        } else {
            let path = path_outcome(
                setup.context,
                scheme_type,
                base.path_start,
                s,
                after_next(s, pos),
                Written { ser: (w.ser + base.ser.take(base.path_start)).push(0x2f), log: w.log },
                true,
            );
            record_outcome(
                setup,
                path.written,
                scheme_type,
                base.scheme_end,
                base.username_end,
                base.host_start,
                base.host_end,
                base.host,
                base.port,
                base.path_start,
                s,
                path.pos,
            )
        }
    } else {
        let cut = popped(
            w.ser + base.ser.take(base.path_end()),
            scheme_type is File,
            base.path_start,
        );
        let path = path_outcome(
            setup.context,
            scheme_type,
            base.path_start,
            s,
            pos,
            Written {
                ser: if cut.len() == base.path_start {
                    cut.push(0x2f)
                } else {
                    cut
                },
                log: w.log,
            },
            true,
        );
        record_outcome(
            setup,
            path.written,
            scheme_type,
            base.scheme_end,
            base.username_end,
            base.host_start,
            base.host_end,
            base.host,
            base.port,
            base.path_start,
            s,
            path.pos,
        )
    }
}


/// Whether the next characters at the cursor are a Windows drive letter that ends the
/// input or stands before one of `/`, `\`, `?` and `#`.
pub fn starts_with_windows_drive_letter_segment(input: &Input) -> (r: bool)
    requires
        input@.wf(),
    ensures
        r == drive_letter_segment_at(input@.text, input@.pos),
{
    let a = input.peek_byte();
    let second = input.advanced();
    let b = second.peek_byte();
    let c = second.advanced().peek_byte();
    match (a, b) {
        (Some(a), Some(b)) => ((0x41 <= a && a <= 0x5a) || (0x61 <= a && a <= 0x7a)) && (b == 0x3a
            || b == 0x7c) && (match c {
            None => true,
            Some(c) => c == 0x2f || c == 0x5c || c == 0x3f || c == 0x23,
        }),
        _ => false,
    }
}

/// A serialization that holds the path of a base URL holds no dot segment in it, where
/// the path starts with `/`.
pub proof fn lemma_based_dots(base: UrlView, ser: Seq<u8>)
    requires
        base.wf(),
        base.path_end() <= ser.len(),
        forall|i: int| 0 <= i < base.path_end() ==> ser[i] == base.ser[i],
    ensures
        rooted(ser, base.path_start) ==> no_dots(ser, base.path_start, base.path_end()),
{
    let ps = base.path_start;
    let pe = base.path_end();
    if rooted(ser, ps) {
        if ps < pe {
            assert(ser[ps] == base.ser[ps]);
            lemma_no_dots_kept(base.ser, ser, ps, pe);
        } else {
            crate::url::lemma_settled_end(ser.take(ps), ps);
            lemma_no_dots_kept(ser.take(ps), ser, ps, ps);
        }
    }
}

/// The file prefix is clean, and a scheme with its `:` and `//`.
pub proof fn lemma_file_prefix(ser: Seq<u8>)
    requires
        ser.len() >= 7,
        ser.take(7) == file_prefix(),
    ensures
        scheme_ok(ser, 4),
        ser[5] == 0x2f,
        ser[6] == 0x2f,
        forall|i: int| 0 <= i < 7 ==> is_clean(#[trigger] ser[i]),
        is_file_scheme(ser.take(4)),
{
    assert forall|i: int| 0 <= i < 7 implies ser[i] == file_prefix()[i] by {
        assert(ser[i] == ser.take(7)[i]);
    }
    assert(ser.take(4) =~= file_prefix().take(4));
}

impl<'a> Parser<'a> {
    /// Writes the bytes of `base` before index `end`.
    pub fn copy_base(&mut self, base: &Url, end: usize)
        requires
            end <= base@.ser.len(),
        ensures
            final(self).setup() == old(self).setup(),
            crate::parser::grows(old(self)@.log, final(self)@.log),
            final(self)@ == (Written {
                ser: old(self)@.ser + base@.ser.take(end as int),
                log: old(self)@.log,
            }),
            kept_clean(old(self)@.ser, final(self)@.ser),
            base@.wf(),
    {
        let bytes = base.as_bytes();
        append(&mut self.serialization, bytes, 0, end);
        proof {
            assert(bytes@.subrange(0, end as int) =~= base@.ser.take(end as int));
            if all_clean(old(self)@.ser) {
                assert forall|i: int| 0 <= i < self@.ser.len() implies is_clean(
                    #[trigger] self@.ser[i],
                ) by {
                    if i >= old(self)@.ser.len() {
                        assert(self@.ser[i] == base@.ser[i - old(self)@.ser.len()]);
                    } else {
                        assert(self@.ser[i] == old(self)@.ser[i]);
                    }
                }
            }
        }
    }

    /// Writes `file://`.
    pub fn push_file_prefix(&mut self)
        ensures
            final(self).setup() == old(self).setup(),
            crate::parser::grows(old(self)@.log, final(self)@.log),
            final(self)@ == (Written {
                ser: old(self)@.ser + file_prefix(),
                log: old(self)@.log,
            }),
            kept_clean(old(self)@.ser, final(self)@.ser),
    {
        self.serialization.push(0x66);
        self.serialization.push(0x69);
        self.serialization.push(0x6c);
        self.serialization.push(0x65);
        self.serialization.push(0x3a);
        self.serialization.push(0x2f);
        self.serialization.push(0x2f);
        proof {
            assert(self@.ser =~= old(self)@.ser + file_prefix());
        }
    }

    /// The record of the URL that has everything up to its path from `base`, and its
    /// query and fragment as `tail` gives them.
    pub fn based_record(self, base: &Url, tail: Result<(Option<u32>, Option<u32>), Stop>) -> (r:
        Parsed)
        requires
            all_clean(self@.ser),
            keeps(base@.ser, self@.ser, base@.path_start),
            base@.path_start <= base@.ser.len(),
            tail matches Ok((q, f)) ==> tail_ok(self@.ser, base@.path_start, as_int(q), as_int(f)),
            special_scheme(base@.ser, base@.scheme_end) ==> rooted(self@.ser, base@.path_start) && (
            tail matches Ok((q, f)) ==> tail_ok(
                self@.ser,
                base@.path_start + 1,
                as_int(q),
                as_int(f),
            )),
            tail matches Ok((q, f)) ==> (rooted(self@.ser, base@.path_start) ==> no_dots(
                self@.ser,
                base@.path_start,
                path_end_of(self@.ser.len() as int, as_int(q), as_int(f)),
            )),
            tail matches Err(stop) ==> crate::parser::permitted(self.setup(), stop@),
        ensures
            r@ == (ParseOutcome {
                result: match tail {
                    Ok((q, f)) => Ok(
                        UrlView {
                            ser: self@.ser,
                            query_start: as_int(q),
                            fragment_start: as_int(f),
                            ..base@
                        },
                    ),
                    Err(stop) => Err(stop@),
                },
                log: self@.log,
            }),
            r@.result matches Ok(url) ==> url.wf(),
            crate::parser::grows(self@.log, r@.log),
            r@.result matches Err(stop) ==> crate::parser::permitted(self.setup(), stop),
    {
        let (query_start, fragment_start) = match tail {
            Ok(starts) => starts,
            Err(stop) => {
                return self.finish(Err(stop));
            },
        };
        let bytes = base.as_bytes();
        proof {
            let view = base@;
            lemma_head_kept(
                view.ser,
                self@.ser,
                view.scheme_end,
                view.username_end,
                view.host_start,
                view.host_end,
                view.host,
                view.path_start,
                view.port,
                view.path_start,
            );
        }
        let url = Url::new(
            self.serialization,
            base.scheme_end(),
            base.username_end(),
            base.host_start(),
            base.host_end(),
            base.host(),
            base.port(),
            base.path_start(),
            query_start,
            fragment_start,
        );
        Parsed { result: Ok(url), violations: self.violations }
    }

    /// The record of the file URL that is written, its host ending at `host_end`, and
    /// its query and fragment as `tail` gives them.
    pub fn file_record(
        self,
        host_end: u32,
        host: HostInternal,
        tail: Result<(Option<u32>, Option<u32>), Stop>,
    ) -> (r: Parsed)
        requires
            all_clean(self@.ser),
            self@.ser.len() >= 7,
            self@.ser.take(7) == file_prefix(),
            7 <= host_end <= self@.ser.len(),
            (host == HostInternal::NoHost) == (host_end == 7),
            rooted(self@.ser, host_end as int),
            tail matches Ok((q, f)) ==> tail_ok(self@.ser, host_end + 1, as_int(q), as_int(f)),
            tail matches Ok((q, f)) ==> no_dots(
                self@.ser,
                host_end as int,
                path_end_of(self@.ser.len() as int, as_int(q), as_int(f)),
            ),
            tail matches Err(stop) ==> crate::parser::permitted(self.setup(), stop@),
        ensures
            r@ == (ParseOutcome {
                result: match tail {
                    Ok((q, f)) => Ok(
                        file_record(self@.ser, host_end as int, host, as_int(q), as_int(f)),
                    ),
                    Err(stop) => Err(stop@),
                },
                log: self@.log,
            }),
            r@.result matches Ok(url) ==> url.wf(),
            crate::parser::grows(self@.log, r@.log),
            r@.result matches Err(stop) ==> crate::parser::permitted(self.setup(), stop),
    {
        let (query_start, fragment_start) = match tail {
            Ok(starts) => starts,
            Err(stop) => {
                return self.finish(Err(stop));
            },
        };
        proof {
            lemma_file_prefix(self@.ser);
        }
        let url = Url::new(
            self.serialization,
            4,
            7,
            7,
            host_end,
            host,
            None,
            host_end,
            query_start,
            fragment_start,
        );
        Parsed { result: Ok(url), violations: self.violations }
    }

    /// Resolves an empty input: the base URL without its fragment.
    pub fn base_copy(self, base: &Url) -> (r: Parsed)
        requires
            self@.ser.len() == 0,
        ensures
            r@ == base_copy_outcome(self@, base@),
            r@.result matches Ok(url) ==> url.wf(),
            crate::parser::grows(self@.log, r@.log),
            r@.result matches Err(stop) ==> crate::parser::permitted(self.setup(), stop),
    {
        let mut this = self;
        let end = base.before_fragment();
        this.copy_base(base, end);
        proof {
            let view = base@;
            assert(this@.ser =~= view.ser.take(end as int));
            assert(this@.ser.take(view.path_start) =~= view.ser.take(view.path_start));
            if view.query_start is Some {
                assert(this@.ser[view.query_start->0] == view.ser[view.query_start->0]);
            }
            lemma_based_dots(view, this@.ser);
        }
        let query_start = base.query_start();
        this.based_record(base, Ok((query_start, None)))
    }

    /// Resolves an input that starts with `?`: the base URL up to its query, and the
    /// query and fragment at the cursor.
    pub fn base_query(self, scheme_type: SchemeType, base: &Url, input: Input) -> (r: Parsed)
        requires
            input@.wf(),
            self@.ser.len() == 0,
            peek(input@.text, input@.pos) == Some(0x3fu8),
        ensures
            r@ == base_query_outcome(
                self.setup(),
                self@,
                scheme_type,
                base@,
                input@.text,
                input@.pos,
            ),
            r@.result matches Ok(url) ==> url.wf(),
            crate::parser::grows(self@.log, r@.log),
            r@.result matches Err(stop) ==> crate::parser::permitted(self.setup(), stop),
    {
        let mut this = self;
        let end = base.path_end();
        this.copy_base(base, end);
        let ghost copied = this@.ser;
        proof {
            let view = base@;
            assert(copied =~= view.ser.take(end as int));
            assert(copied.take(view.path_start) =~= view.ser.take(view.path_start));
        }
        let tail = this.parse_query_and_fragment(scheme_type, base.scheme_end(), input);
        proof {
            let view = base@;
            lemma_keeps_less(copied, this@.ser, copied.len() as int, view.path_start);
            assert(this@.ser.take(view.path_start) =~= view.ser.take(view.path_start));
            assert forall|i: int| 0 <= i < view.path_end() implies this@.ser[i] == view.ser[i] by {
                lemma_keeps_index(copied, this@.ser, copied.len() as int, i);
            }
            lemma_based_dots(view, this@.ser);
        }
        this.based_record(base, tail)
    }

    /// Parses the path at the cursor behind what is written, which has everything up to
    /// the path from `base`, and then query and fragment.
    pub fn based_path(self, scheme_type: SchemeType, base: &Url, input: Input) -> (r: Parsed)
        requires
            input@.wf(),
            all_clean(self@.ser),
            keeps(base@.ser, self@.ser, base@.path_start),
            special_scheme(base@.ser, base@.scheme_end) ==> rooted(self@.ser, base@.path_start),
            scheme_type is File || rooted(self@.ser, base@.path_start) || self@.ser.len()
                == base@.path_start ==> tidy(self@.ser, base@.path_start),
        ensures
            ({
                let path = path_outcome(
                    self.context,
                    scheme_type,
                    base@.path_start,
                    input@.text,
                    input@.pos,
                    self@,
                    true,
                );
                r@ == record_outcome(
                    self.setup(),
                    path.written,
                    scheme_type,
                    base@.scheme_end,
                    base@.username_end,
                    base@.host_start,
                    base@.host_end,
                    base@.host,
                    base@.port,
                    base@.path_start,
                    input@.text,
                    path.pos,
                )
            }),
            r@.result matches Ok(url) ==> url.wf(),
            crate::parser::grows(self@.log, r@.log),
            r@.result matches Err(stop) ==> crate::parser::permitted(self.setup(), stop),
    {
        let mut this = self;
        let bytes = base.as_bytes();
        let ghost before = this@.ser;
        let mut has_host = true;
        let remaining = this.parse_path(
            scheme_type,
            &mut has_host,
            base.path_start() as usize,
            input,
        );
        proof {
            let view = base@;
            lemma_keeps_twice(view.ser, before, this@.ser, view.path_start, view.path_start);
            lemma_head_kept(
                view.ser,
                this@.ser,
                view.scheme_end,
                view.username_end,
                view.host_start,
                view.host_end,
                view.host,
                view.path_start,
                view.port,
                view.path_start,
            );
        }
        this.with_query_and_fragment(
            scheme_type,
            base.scheme_end(),
            base.username_end(),
            base.host_start(),
            base.host_end(),
            base.host(),
            base.port(),
            base.path_start(),
            remaining,
        )
    }

    /// Parses a file URL behind the two separators that it starts with.
    pub fn parse_file_with_host(self, input: Input) -> (r: Parsed)
        requires
            input@.wf(),
            self@.ser.len() == 0,
        ensures
            r@ == file_host_branch(self.setup(), self@, input@.text, input@.pos),
            r@.result matches Ok(url) ==> url.wf(),
            crate::parser::grows(self@.log, r@.log),
            r@.result matches Err(stop) ==> crate::parser::permitted(self.setup(), stop),
    {
        let mut this = self;
        this.push_file_prefix();
        let ghost start = this@.ser;
        proof {
            assert(start =~= file_prefix());
        }
        let found = this.parse_file_host(input);
        let (path_start, host, remaining) = match found {
            Ok(found) => found,
            Err(stop) => {
                return this.finish(Err(stop));
            },
        };
        let ghost hosted = this@.ser;
        let host_end = match to_u32(this.serialization.len()) {
            Ok(at) => at,
            Err(e) => {
                return this.fail(e);
            },
        };
        let mut has_host = host != HostInternal::NoHost;
        let remaining = if path_start {
            this.parse_path_start(SchemeType::File, &mut has_host, remaining)
        } else {
            let path_start = this.serialization.len();
            this.serialization.push(0x2f);
            proof {
                lemma_keeps_appended(hosted, seq![0x2fu8]);
                assert(this@.ser =~= hosted + seq![0x2fu8]);
                lemma_slash_is_tidy(hosted);
            }
            let ghost pushed = this@.ser;
            let r = this.parse_path(SchemeType::File, &mut has_host, path_start, remaining);
            proof {
                lemma_keeps_twice(hosted, pushed, this@.ser, hosted.len() as int, hosted.len() as int);
            }
            r
        };
        let ghost pathed = this@.ser;
        proof {
            lemma_keeps_twice(start, hosted, pathed, 7, hosted.len() as int);
            assert(pathed.take(7) =~= file_prefix());
        }
        if !has_host {
            this.drop_host(host_end as usize);
            let ghost dropped = this@.ser;
            let tail = this.parse_query_and_fragment(SchemeType::File, 4, remaining);
            proof {
                lemma_keeps_less(dropped, this@.ser, dropped.len() as int, 7);
                lemma_keeps_index(dropped, this@.ser, dropped.len() as int, 7);
                lemma_kept_dots(dropped, this@.ser, 7);
            }
            this.file_record(7, HostInternal::NoHost, tail)
        } else {
            let tail = this.parse_query_and_fragment(SchemeType::File, 4, remaining);
            proof {
                lemma_keeps_less(pathed, this@.ser, pathed.len() as int, 7);
                lemma_keeps_index(pathed, this@.ser, pathed.len() as int, host_end as int);
                lemma_kept_dots(pathed, this@.ser, host_end as int);
            }
            this.file_record(host_end, host, tail)
        }
    }

    /// Takes the text of the host out of a file URL, which stands in the serialization
    /// from index 7 to index `host_end`.
    pub fn drop_host(&mut self, host_end: usize)
        requires
            7 <= host_end <= old(self)@.ser.len(),
            old(self)@.ser.take(7) == file_prefix(),
        ensures
            final(self).setup() == old(self).setup(),
            final(self)@.log == old(self)@.log,
            final(self)@.ser == old(self)@.ser.take(7) + old(self)@.ser.skip(host_end as int),
            final(self)@.ser.take(7) == file_prefix(),
            kept_clean(old(self)@.ser, final(self)@.ser),
            rooted(old(self)@.ser, host_end as int) ==> rooted(final(self)@.ser, 7),
            no_dots(old(self)@.ser, host_end as int, old(self)@.ser.len() as int) ==> no_dots(
                final(self)@.ser,
                7,
                final(self)@.ser.len() as int,
            ),
    {
        let ghost pathed = self@.ser;
        let mut tail = self.serialization.split_off(host_end);
        self.serialization.truncate(7);
        self.serialization.append(&mut tail);
        proof {
            assert(self@.ser =~= pathed.take(7) + pathed.skip(host_end as int));
            assert(self@.ser.take(7) =~= file_prefix());
            if no_dots(pathed, host_end as int, pathed.len() as int) {
                assert forall|j: int| 0 <= j < pathed.len() - host_end implies #[trigger] self@.ser[7
                    + j] == pathed[host_end + j] by {}
                lemma_no_dots_moved(pathed, self@.ser, host_end as int, 7, pathed.len() - host_end);
            }
            if all_clean(pathed) {
                assert forall|i: int| 0 <= i < self@.ser.len() implies is_clean(
                    #[trigger] self@.ser[i],
                ) by {
                    if i < 7 {
                        assert(self@.ser[i] == pathed[i]);
                    } else {
                        assert(self@.ser[i] == pathed[i - 7 + host_end]);
                    }
                }
            }
        }
    }

    /// Parses a file URL that starts with no separator and has nothing from a base.
    pub fn parse_file_plain(self, input: Input) -> (r: Parsed)
        requires
            input@.wf(),
            self@.ser.len() == 0,
        ensures
            r@ == file_plain_branch(self.setup(), self@, input@.text, input@.pos),
            r@.result matches Ok(url) ==> url.wf(),
            crate::parser::grows(self@.log, r@.log),
            r@.result matches Err(stop) ==> crate::parser::permitted(self.setup(), stop),
    {
        let mut this = self;
        this.push_file_prefix();
        this.serialization.push(0x2f);
        let ghost start = this@.ser;
        proof {
            assert(start =~= file_prefix().push(0x2f));
            assert(start.take(7) =~= file_prefix());
            lemma_slash_is_tidy(file_prefix());
        }
        let mut has_host = false;
        let remaining = this.parse_path(SchemeType::File, &mut has_host, 7, input);
        let ghost pathed = this@.ser;
        let tail = this.parse_query_and_fragment(SchemeType::File, 4, remaining);
        proof {
            lemma_keeps_less(pathed, this@.ser, pathed.len() as int, 7);
            lemma_keeps_index(pathed, this@.ser, pathed.len() as int, 7);
            lemma_kept_dots(pathed, this@.ser, 7);
        }
        this.file_record(7, HostInternal::NoHost, tail)
    }

    /// Writes what a file URL that starts with one separator has before its path.
    /// Returns the offset behind the host and the kind of the host.
    pub fn write_file_slash_head(&mut self, after_first: Input, base: Option<&Url>) -> (r: (
        usize,
        HostInternal,
    ))
        requires
            after_first@.wf(),
            old(self)@.ser.len() == 0,
        ensures
            final(self).setup() == old(self).setup(),
            crate::parser::grows(old(self)@.log, final(self)@.log),
            final(self)@.log == old(self)@.log,
            (final(self)@.ser, r.0 as int, r.1) == file_slash_head(
                old(self)@,
                after_first@.text,
                after_first@.pos,
                match base {
                    Some(base) => Some(base@),
                    None => None,
                },
            ),
            all_clean(final(self)@.ser),
            7 <= r.0 <= final(self)@.ser.len(),
            final(self)@.ser.take(7) == file_prefix(),
            (r.1 == HostInternal::NoHost) == (r.0 == 7),
            tidy(final(self)@.ser, r.0 as int),
    {
        self.push_file_prefix();
        let ghost start = self@.ser;
        proof {
            assert(start =~= file_prefix());
            assert(start.take(7) =~= file_prefix());
            lemma_slash_is_tidy(start);
        }
        let mut host_end: usize = 7;
        let mut host = HostInternal::NoHost;
        if !starts_with_windows_drive_letter_segment(&after_first) {
            if let Some(base_url) = base {
                let bytes = base_url.as_bytes();
                let ps = base_url.path_start() as usize;
                let pe = base_url.path_end();
                let (from, to) = if ps < pe {
                    let path = slice_subrange(bytes, 0, pe);
                    proof {
                        assert(path@ =~= base_url@.ser.take(pe as int));
                    }
                    (ps + 1, find_first_of(path, ps + 1, 0x2f, 0x2f))
                } else {
                    (ps, ps)
                };
                proof {
                    if ps < pe {
                        assert(bytes@.subrange(from as int, to as int) =~= first_segment(base_url@));
                    } else {
                        assert(bytes@.subrange(from as int, to as int) =~= first_segment(base_url@));
                    }
                }
                if is_normalized_drive_letter_at(bytes, from, to) {
                    self.serialization.push(0x2f);
                    append(&mut self.serialization, bytes, from, to);
                    proof {
                        assert(self@.ser =~= start.push(0x2f) + first_segment(base_url@));
                        assert(self@.ser.take(7) =~= file_prefix());
                        let drive = first_segment(base_url@);
                        assert(self@.ser[8] == drive[0] && self@.ser[9] == drive[1]);
                        crate::url::lemma_no_dots_before_grown(start.push(0x2f), self@.ser, 7);
                        assert forall|i: int| 0 <= i < self@.ser.len() implies is_clean(
                            #[trigger] self@.ser[i],
                        ) by {
                            if i >= 8 {
                                assert(self@.ser[i] == bytes@[from + i - 8]);
                                assert(is_clean(base_url@.ser[from + i - 8]));
                            }
                        }
                    }
                } else if base_url.host() != HostInternal::NoHost {
                    let hs = base_url.host_start() as usize;
                    let he = base_url.host_end() as usize;
                    append(&mut self.serialization, bytes, hs, he);
                    host_end = self.serialization.len();
                    host = base_url.host();
                    proof {
                        lemma_slash_is_tidy(self@.ser);
                        assert(self@.ser.take(7) =~= file_prefix());
                        assert forall|i: int| 0 <= i < self@.ser.len() implies is_clean(
                            #[trigger] self@.ser[i],
                        ) by {
                            if i >= 7 {
                                assert(self@.ser[i] == bytes@[hs + i - 7]);
                                assert(is_clean(base_url@.ser[hs + i - 7]));
                            }
                        }
                    }
                }
            }
        }
        (host_end, host)
    }

    /// Parses a file URL that starts with one separator.
    pub fn parse_file_slash(self, input: Input, base: Option<&Url>) -> (r: Parsed)
        requires
            input@.wf(),
            self@.ser.len() == 0,
            base matches Some(base) ==> is_file_scheme(base@.scheme()),
        ensures
            r@ == file_slash_branch(
                self.setup(),
                self@,
                input@.text,
                input@.pos,
                match base {
                    Some(base) => Some(base@),
                    None => None,
                },
            ),
            r@.result matches Ok(url) ==> url.wf(),
            crate::parser::grows(self@.log, r@.log),
            r@.result matches Err(stop) ==> crate::parser::permitted(self.setup(), stop),
    {
        let mut this = self;
        let (host_end, host) = this.write_file_slash_head(input.advanced(), base);
        let host_start = match to_u32(host_end) {
            Ok(at) => at,
            Err(e) => {
                return this.fail(e);
            },
        };
        let ghost start = this@.ser;
        let mut has_host = false;
        let remaining = this.parse_path(SchemeType::File, &mut has_host, host_end, input);
        let ghost pathed = this@.ser;
        let tail = this.parse_query_and_fragment(SchemeType::File, 4, remaining);
        proof {
            lemma_keeps_less(start, pathed, host_end as int, 7);
            lemma_keeps_twice(start, pathed, this@.ser, 7, pathed.len() as int);
            lemma_keeps_index(pathed, this@.ser, pathed.len() as int, host_end as int);
            lemma_kept_dots(pathed, this@.ser, host_end as int);
        }
        this.file_record(host_start, host, tail)
    }
}


impl<'a> Parser<'a> {
    /// Parses a file URL, the scheme read or taken from the base.
    pub fn parse_file(self, input: Input, scheme_type: SchemeType, base_file_url: Option<&Url>) -> (r:
        Parsed)
        requires
            input@.wf(),
            self@.ser.len() == 0,
            base_file_url matches Some(base) ==> is_file_scheme(base@.scheme()),
        ensures
            r@ == file_outcome(
                self.setup(),
                self@,
                input@.text,
                input@.pos,
                match base_file_url {
                    Some(base) => Some(base@),
                    None => None,
                },
            ),
            r@.result matches Ok(url) ==> url.wf(),
            crate::parser::grows(self@.log, r@.log),
            r@.result matches Err(stop) ==> crate::parser::permitted(self.setup(), stop),
    {
        let mut this = self;
        let first_char = input.peek_byte();
        let input_after_first_char = input.advanced();
        if first_char == Some(0x2f) || first_char == Some(0x5c) {
            this.log_violation_if(SyntaxViolation::Backslash, first_char == Some(0x5c));
            let next_char = input_after_first_char.peek_byte();
            let input_after_next_char = input_after_first_char.advanced();
            if next_char == Some(0x2f) || next_char == Some(0x5c) {
                this.log_violation_if(SyntaxViolation::Backslash, next_char == Some(0x5c));
                return this.parse_file_with_host(input_after_next_char);
            } else {
                return this.parse_file_slash(input, base_file_url);
            }
        }
        if let Some(base_url) = base_file_url {
            if first_char.is_none() {
                this.base_copy(base_url)
            } else if first_char == Some(0x3f) {
                this.base_query(SchemeType::File, base_url, input)
            } else if first_char == Some(0x23) {
                this.fragment_only(base_url, input)
            } else if !starts_with_windows_drive_letter_segment(&input) {
                let end = base_url.path_end();
                this.copy_base(base_url, end);
                let ghost copied = this@.ser;
                this.shorten_path(SchemeType::File, base_url.path_start() as usize);
                proof {
                    let view = base_url@;
                    assert(copied =~= view.ser.take(end as int));
                    assert(copied.take(view.path_start) =~= view.ser.take(view.path_start));
                    lemma_keeps_twice(view.ser, copied, this@.ser, view.path_start, view.path_start);
                    if special_scheme(view.ser, view.scheme_end) {
                        assert(rooted(copied, view.path_start));
                        lemma_keeps_index(copied, this@.ser, view.path_start + 1, view.path_start);
                    }
                    assert(special_scheme(view.ser, view.scheme_end));
                    lemma_based_dots(view, copied);
                    lemma_shortened_tidy(copied, this@.ser, view.path_start);
                }
                this.based_path(SchemeType::File, base_url, input)
            } else {
                this.parse_file_plain(input)
            }
        } else {
            this.parse_file_plain(input)
        }
    }

    /// Resolves a relative input against `base_url`, whose scheme is of the family
    /// `scheme_type` and is not `file`.
    pub fn parse_relative(self, input: Input, scheme_type: SchemeType, base_url: &Url) -> (r:
        Parsed)
        requires
            input@.wf(),
            self@.ser.len() == 0,
            scheme_type == scheme_type_of(base_url@.scheme()),
        ensures
            r@ == relative_outcome(
                self.setup(),
                self@,
                scheme_type,
                base_url@,
                input@.text,
                input@.pos,
            ),
            r@.result matches Ok(url) ==> url.wf(),
            crate::parser::grows(self@.log, r@.log),
            r@.result matches Err(stop) ==> crate::parser::permitted(self.setup(), stop),
    {
        let mut this = self;
        let first_char = input.peek_byte();
        let input_after_first_char = input.advanced();
        let bytes = base_url.as_bytes();
        if first_char.is_none() {
            this.base_copy(base_url)
        } else if first_char == Some(0x3f) {
            this.base_query(scheme_type, base_url, input)
        } else if first_char == Some(0x23) {
            this.fragment_only(base_url, input)
        } else if first_char == Some(0x2f) || first_char == Some(0x5c) {
            let (slashes_count, remaining) = input.count_separators();
            if slashes_count >= 2 {
                this.relative_authority(input, scheme_type, base_url)
            } else {
                this.relative_rooted_path(input_after_first_char, scheme_type, base_url)
            }
        } else {
            this.relative_path(input, scheme_type, base_url)
        }
    }

    /// Resolves an input that starts with two separators or more: an authority behind
    /// the scheme of `base_url`.
    pub fn relative_authority(self, input: Input, scheme_type: SchemeType, base_url: &Url) -> (r:
        Parsed)
        requires
            input@.wf(),
            self@.ser.len() == 0,
            scheme_type == scheme_type_of(base_url@.scheme()),
        ensures
            r@ == ({
                let s = input@.text;
                let pos = input@.pos;
                let base = base_url@;
                let second_at = after_next(s, pos);
                authority_outcome(
                    self.setup(),
                    Written {
                        ser: self@.ser + base.ser.take(base.scheme_end + 1),
                        log: if !separators_are_two_slashes(s, pos) {
                            self@.log.push(SyntaxViolation::ExpectedDoubleSlash)
                        } else {
                            self@.log
                        },
                    },
                    scheme_type,
                    base.scheme_end,
                    s,
                    if peek(s, pos) == Some(0x2fu8) && peek(s, second_at) == Some(0x2fu8) {
                        after_next(s, second_at)
                    } else {
                        separators_end(s, pos, pos)
                    },
                )
            }),
            r@.result matches Ok(url) ==> url.wf(),
            crate::parser::grows(self@.log, r@.log),
            r@.result matches Err(stop) ==> crate::parser::permitted(self.setup(), stop),
    {
        let mut this = self;
        let bytes = base_url.as_bytes();
        let (_, remaining) = input.count_separators();
        this.log_violation_if(
            SyntaxViolation::ExpectedDoubleSlash,
            !separators_are_slashes(&input),
        );
        let scheme_end = base_url.scheme_end();
        let base_len = bytes.len();
        this.copy_base(base_url, scheme_end as usize + 1);
        proof {
            let view = base_url@;
            assert(this@.ser =~= view.ser.take(view.scheme_end + 1));
            assert(this@.ser.take(view.scheme_end) =~= view.ser.take(view.scheme_end));
            assert(scheme_ok(this@.ser, view.scheme_end)) by {
                assert forall|i: int| 0 <= i < view.scheme_end implies crate::url::is_scheme_byte(
                    #[trigger] this@.ser[i],
                ) by {
                    assert(crate::url::is_scheme_byte(view.ser[i]));
                }
            }
        }
        let first_char = input.peek_byte();
        let input_after_first_char = input.advanced();
        if first_char == Some(0x2f) && input_after_first_char.peek_byte() == Some(0x2f) {
            return this.after_double_slash(
                input_after_first_char.advanced(),
                scheme_type,
                scheme_end,
            );
        }
        this.after_double_slash(remaining, scheme_type, scheme_end)
    }

    /// Resolves an input that starts with one separator, behind that separator: a path
    /// behind the authority of `base_url`.
    pub fn relative_rooted_path(self, input: Input, scheme_type: SchemeType, base_url: &Url) -> (r:
        Parsed)
        requires
            input@.wf(),
            self@.ser.len() == 0,
        ensures
            r@ == ({
                let base = base_url@;
                let path = path_outcome(
                    self.context,
                    scheme_type,
                    base.path_start,
                    input@.text,
                    input@.pos,
                    Written {
                        ser: (self@.ser + base.ser.take(base.path_start)).push(0x2f),
                        log: self@.log,
                    },
                    true,
                );
                record_outcome(
                    self.setup(),
                    path.written,
                    scheme_type,
                    base.scheme_end,
                    base.username_end,
                    base.host_start,
                    base.host_end,
                    base.host,
                    base.port,
                    base.path_start,
                    input@.text,
                    path.pos,
                )
            }),
            r@.result matches Ok(url) ==> url.wf(),
            crate::parser::grows(self@.log, r@.log),
            r@.result matches Err(stop) ==> crate::parser::permitted(self.setup(), stop),
    {
        let mut this = self;
        let path_start = base_url.path_start();
        let bytes = base_url.as_bytes();
        this.copy_base(base_url, path_start as usize);
        this.serialization.push(0x2f);
        proof {
            let view = base_url@;
            assert(this@.ser =~= view.ser.take(view.path_start).push(0x2f));
            assert(this@.ser.take(view.path_start) =~= view.ser.take(view.path_start));
            lemma_slash_is_tidy(view.ser.take(view.path_start));
        }
        this.based_path(scheme_type, base_url, input)
    }

    /// Resolves an input that starts with a character of a path: a path that goes on
    /// from the path of `base_url` without its last segment.
    pub fn relative_path(self, input: Input, scheme_type: SchemeType, base_url: &Url) -> (r:
        Parsed)
        requires
            input@.wf(),
            self@.ser.len() == 0,
            scheme_type == scheme_type_of(base_url@.scheme()),
        ensures
            r@ == ({
                let base = base_url@;
                let cut = popped(
                    self@.ser + base.ser.take(base.path_end()),
                    scheme_type is File,
                    base.path_start,
                );
                let path = path_outcome(
                    self.context,
                    scheme_type,
                    base.path_start,
                    input@.text,
                    input@.pos,
                    Written {
                        ser: if cut.len() == base.path_start {
                            cut.push(0x2f)
                        } else {
                            cut
                        },
                        log: self@.log,
                    },
                    true,
                );
                record_outcome(
                    self.setup(),
                    path.written,
                    scheme_type,
                    base.scheme_end,
                    base.username_end,
                    base.host_start,
                    base.host_end,
                    base.host,
                    base.port,
                    base.path_start,
                    input@.text,
                    path.pos,
                )
            }),
            r@.result matches Ok(url) ==> url.wf(),
            crate::parser::grows(self@.log, r@.log),
            r@.result matches Err(stop) ==> crate::parser::permitted(self.setup(), stop),
    {
        let mut this = self;
        let end = base_url.path_end();
        this.copy_base(base_url, end);
        let ghost copied = this@.ser;
        this.pop_path(scheme_type, base_url.path_start() as usize);
        let ghost cut = this@.ser;
        if this.serialization.len() == base_url.path_start() as usize {
            this.serialization.push(0x2f);
        }
        proof {
            let view = base_url@;
            assert(copied =~= view.ser.take(end as int));
            assert(copied.take(view.path_start) =~= view.ser.take(view.path_start));
            lemma_keeps_twice(view.ser, copied, cut, view.path_start, view.path_start);
            assert(this@.ser.take(view.path_start) =~= cut.take(view.path_start));
            if special_scheme(view.ser, view.scheme_end) {
                assert(rooted(copied, view.path_start));
                lemma_keeps_index(copied, cut, view.path_start + 1, view.path_start);
            }
            if rooted(copied, view.path_start) {
                lemma_based_dots(view, copied);
                lemma_shortened_tidy(copied, cut, view.path_start);
                assert(this@.ser == cut);
            } else if copied.len() == view.path_start {
                assert(cut == copied);
                lemma_slash_is_tidy(copied);
                assert(this@.ser == copied.push(0x2f));
            } else {
                assert(!special_scheme(view.ser, view.scheme_end));
                assert(view.path_start < cut.len());
                assert(cut[view.path_start] == copied[view.path_start]);
                assert(this@.ser == cut);
                assert(!rooted(this@.ser, view.path_start));
            }
        }
        this.based_path(scheme_type, base_url, input)
    }
}

/// Whether the `/` and `\` at the cursor are exactly `//`.
pub fn separators_are_slashes(input: &Input) -> (r: bool)
    requires
        input@.wf(),
    ensures
        r == separators_are_two_slashes(input@.text, input@.pos),
{
    let (count, _) = input.count_separators();
    let first = input.skipped();
    proof {
        lemma_skip_ignored(input@.text, input@.pos);
    }
    if count != 2 || first.position() >= first.bytes().len() {
        return false;
    }
    let at = first.position();
    let second = first.at(at + 1).skipped();
    proof {
        lemma_skip_ignored(input@.text, at + 1);
    }
    first.bytes()[at] == 0x2f && second.position() < second.bytes().len() && second.bytes()[second.position()]
        == 0x2f
}

} // verus!
