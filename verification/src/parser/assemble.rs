//! From the parsed components to the URL record.

use vstd::prelude::*;
use crate::chars::to_u32;
use crate::error::{ParseError, SyntaxViolation};
use crate::host::HostInternal;
use crate::input::{after_next, Input};
use crate::parser::authority::{host_and_port_outcome, userinfo_outcome};
use crate::parser::path::{
    at_tail, lemma_keeps_appended, lemma_keeps_index, lemma_keeps_less, lemma_keeps_twice,
    path_start_outcome,
};
use crate::parser::sets::append;
use crate::parser::tail::{fragment_written, tail_outcome};
use crate::parser::{Parser, Setup, Stop, StopView, Written};
use crate::scheme::{scheme_type_of, SchemeType};
use crate::url::{
    all_clean, head_ok, is_clean, lemma_head_kept, lemma_no_dots_kept, lemma_no_dots_moved,
    no_dots, rooted, scheme_ok, special_scheme, Url, UrlView,
};

verus! {

/// How a parse ended: with a URL or why not, and the violations that were reported.
#[derive(Debug, PartialEq, Eq)]
pub struct Parsed {
    pub result: Result<Url, Stop>,
    pub violations: Vec<SyntaxViolation>,
}

/// What the end of a parse stands for.
pub struct ParseOutcome {
    pub result: Result<UrlView, StopView>,
    pub log: Seq<SyntaxViolation>,
}

impl View for Parsed {
    type V = ParseOutcome;

    open spec fn view(&self) -> ParseOutcome {
        ParseOutcome {
            result: match self.result {
                Ok(url) => Ok(url@),
                Err(stop) => Err(stop@),
            },
            log: self.violations@,
        }
    }
}

/// The outcome that is the stop `stop`.
pub open spec fn stopped(stop: StopView, log: Seq<SyntaxViolation>) -> ParseOutcome {
    ParseOutcome { result: Err(stop), log }
}

/// The outcome that is the error `e`.
pub open spec fn failed(e: ParseError, log: Seq<SyntaxViolation>) -> ParseOutcome {
    ParseOutcome { result: Err(StopView::Error(e)), log }
}

/// What the serialization and the start of the path are once a path that starts with
/// `//` can no longer be taken for an authority. Where the path stands right behind the
/// `:` of the scheme and starts with `//`, `/.` is put before it. Where `/.` stands
/// between the `:` and the path and the path starts with one `/` only, the `/.` goes.
pub open spec fn anarchist_fixup(ser: Seq<u8>, scheme_end: int, path_start: int) -> (Seq<u8>, int) {
    if path_start == scheme_end + 1 {
        if 0 <= path_start && path_start + 1 < ser.len() && ser[path_start] == 0x2f
            && ser[path_start + 1] == 0x2f {
            (ser.take(path_start).push(0x2f).push(0x2e) + ser.skip(path_start), path_start + 2)
        } else {
            (ser, path_start)
        }
    } else if path_start == scheme_end + 3 && 0 <= scheme_end && path_start < ser.len()
        && ser[scheme_end] == 0x3a && ser[scheme_end + 1] == 0x2f && ser[scheme_end + 2] == 0x2e
        && ser[path_start] == 0x2f && !(path_start + 1 < ser.len() && ser[path_start + 1]
        == 0x2f) {
        (ser.take(scheme_end + 1) + ser.skip(path_start), path_start - 2)
    } else {
        (ser, path_start)
    }
}

/// What parsing the query and fragment of a URL whose earlier components are written
/// gives: the record with the given offsets, the path moved as `anarchist_fixup` says.
pub open spec fn record_outcome(
    setup: Setup,
    w: Written,
    scheme_type: SchemeType,
    scheme_end: int,
    username_end: int,
    host_start: int,
    host_end: int,
    host: HostInternal,
    port: Option<u16>,
    path_start: int,
    s: Seq<u8>,
    pos: int,
) -> ParseOutcome {
    let (ser, moved) = anarchist_fixup(w.ser, scheme_end, path_start);
    if moved > u32::MAX {
        failed(ParseError::Overflow, w.log)
    } else {
        let tail = tail_outcome(setup, Written { ser, log: w.log }, scheme_type, scheme_end, s, pos);
        ParseOutcome {
            result: match tail.starts {
                Ok((query_start, fragment_start)) => Ok(
                    UrlView {
                        ser: tail.written.ser,
                        scheme_end,
                        username_end,
                        host_start,
                        host_end,
                        host,
                        port,
                        path_start: moved,
                        query_start,
                        fragment_start,
                    },
                ),
                Err(stop) => Err(stop),
            },
            log: tail.written.log,
        }
    }
}

/// What resolving an input that is a fragment only gives: the base URL up to its
/// fragment, and the fragment that stands in `s` behind the `#` at `pos`.
pub open spec fn fragment_only_outcome(w: Written, base: UrlView, s: Seq<u8>, pos: int) -> ParseOutcome {
    let head = base.ser.take(base.before_fragment());
    let written = fragment_written(
        Written { ser: (w.ser + head).push(0x23), log: w.log },
        s,
        after_next(s, pos),
    );
    if head.len() > u32::MAX {
        failed(ParseError::Overflow, written.log)
    } else {
        ParseOutcome {
            result: Ok(UrlView { ser: written.ser, fragment_start: Some(head.len() as int), ..base }),
            log: written.log,
        }
    }
}

/// What parsing a URL from its authority on gives, the scheme and its `:` written:
/// `//`, then user name and password, host and port, the path, and query and fragment.
/// A host that is empty behind a user name or password is the error `EmptyHost`.
pub open spec fn authority_outcome(
    setup: Setup,
    w: Written,
    scheme_type: SchemeType,
    scheme_end: int,
    s: Seq<u8>,
    pos: int,
) -> ParseOutcome {
    let slashes = Written { ser: w.ser.push(0x2f).push(0x2f), log: w.log };
    let user = userinfo_outcome(scheme_type.special(), slashes, s, pos);
    match user.result {
        Err(e) => failed(e, user.written.log),
        Ok((username_end, rest)) => if user.written.ser.len() > u32::MAX {
            failed(ParseError::Overflow, user.written.log)
        } else {
            let host_start = user.written.ser.len() as int;
            let hp = host_and_port_outcome(setup, user.written, scheme_end, scheme_type, s, rest);
            match hp.result {
                Err(stop) => stopped(stop, hp.written.log),
                Ok((host_end, host, port, behind)) => if host == HostInternal::NoHost
                    && slashes.ser.len() != user.written.ser.len() {
                    failed(ParseError::EmptyHost, hp.written.log)
                } else if hp.written.ser.len() > u32::MAX {
                    failed(ParseError::Overflow, hp.written.log)
                } else {
                    let path = path_start_outcome(
                        setup.context,
                        scheme_type,
                        s,
                        behind,
                        hp.written,
                        true,
                    );
                    record_outcome(
                        setup,
                        path.written,
                        scheme_type,
                        scheme_end,
                        username_end,
                        host_start,
                        host_end,
                        host,
                        port,
                        hp.written.ser.len() as int,
                        s,
                        path.pos,
                    )
                },
            }
        },
    }
}

impl<'a> Parser<'a> {
    /// Ends the parse with `result`.
    pub fn finish(self, result: Result<Url, Stop>) -> (r: Parsed)
        ensures
            r.result == result,
            r.violations == self.violations,
    {
        Parsed { result, violations: self.violations }
    }

    /// Ends the parse with the error `e`.
    pub fn fail(self, e: ParseError) -> (r: Parsed)
        ensures
            r@ == failed(e, self@.log),
    {
        Parsed { result: Err(Stop::Error(e)), violations: self.violations }
    }

    /// Puts `/.` before a path that starts with `//` and stands right behind the scheme,
    /// and takes it away before a path that no longer does, as `anarchist_fixup` says.
    /// Returns the offset at which the path starts then.
    pub fn move_path(
        &mut self,
        scheme_end: u32,
        username_end: u32,
        host_start: u32,
        host_end: u32,
        host: HostInternal,
        port: Option<u16>,
        path_start: u32,
    ) -> (r: Result<u32, ParseError>)
        requires
            all_clean(old(self)@.ser),
            head_ok(
                old(self)@.ser,
                scheme_end as int,
                username_end as int,
                host_start as int,
                host_end as int,
                host,
                path_start as int,
                port,
            ),
        ensures
            final(self).setup() == old(self).setup(),
            crate::parser::grows(old(self)@.log, final(self)@.log),
            final(self)@.log == old(self)@.log,
            ({
                let (ser, moved) = anarchist_fixup(
                    old(self)@.ser,
                    scheme_end as int,
                    path_start as int,
                );
                if moved > u32::MAX {
                    r == Err::<u32, ParseError>(ParseError::Overflow)
                } else {
                    r == Ok::<u32, ParseError>(moved as u32) && final(self)@.ser == ser
                }
            }),
            r matches Ok(moved) ==> all_clean(final(self)@.ser) && head_ok(
                final(self)@.ser,
                scheme_end as int,
                username_end as int,
                host_start as int,
                host_end as int,
                host,
                moved as int,
                port,
            ),
            r matches Ok(moved) ==> (special_scheme(old(self)@.ser, scheme_end as int) ==> moved
                == path_start && final(self)@.ser == old(self)@.ser),
            r matches Ok(moved) ==> final(self)@.ser.len() - moved == old(self)@.ser.len()
                - path_start && forall|j: int|
                0 <= j < old(self)@.ser.len() - path_start ==> #[trigger] final(self)@.ser[moved
                    + j] == old(self)@.ser[path_start + j],
    {
        let ghost before = self@.ser;
        let se = scheme_end as usize;
        let ps = path_start as usize;
        let len = self.serialization.len();
        if ps >= 1 && ps - 1 == se {
            if ps < len && len - ps > 1 && self.serialization[ps] == 0x2f && self.serialization[ps
                + 1] == 0x2f {
                if path_start > u32::MAX - 2 {
                    return Err(ParseError::Overflow);
                }
                let mut tail = self.serialization.split_off(ps);
                self.serialization.push(0x2f);
                self.serialization.push(0x2e);
                self.serialization.append(&mut tail);
                proof {
                    assert(self@.ser =~= before.take(ps as int).push(0x2f).push(0x2e) + before.skip(
                        ps as int,
                    ));
                    assert(self@.ser.take(ps as int) =~= before.take(ps as int));
                    assert(all_clean(self@.ser)) by {
                        assert forall|i: int| 0 <= i < self@.ser.len() implies is_clean(
                            #[trigger] self@.ser[i],
                        ) by {
                            if i < ps {
                                assert(self@.ser[i] == before[i]);
                            } else if i >= ps + 2 {
                                assert(self@.ser[i] == before[i - 2]);
                            }
                        }
                    }
                    lemma_head_kept(
                        before,
                        self@.ser,
                        scheme_end as int,
                        username_end as int,
                        host_start as int,
                        host_end as int,
                        host,
                        path_start as int,
                        port,
                        ps as int,
                    );
                }
                return Ok(path_start + 2);
            }
        } else if se < len && ps >= 3 && ps - 3 == se && ps < len && self.serialization[se] == 0x3a
            && self.serialization[se + 1] == 0x2f && self.serialization[se + 2] == 0x2e
            && self.serialization[ps] == 0x2f && !(len - ps > 1 && self.serialization[ps + 1]
            == 0x2f) {
            let mut tail = self.serialization.split_off(ps);
            self.serialization.truncate(se + 1);
            self.serialization.append(&mut tail);
            proof {
                assert(self@.ser =~= before.take(se + 1) + before.skip(ps as int));
                assert(self@.ser.take(se + 1) =~= before.take(se + 1));
                assert(all_clean(self@.ser)) by {
                    assert forall|i: int| 0 <= i < self@.ser.len() implies is_clean(
                        #[trigger] self@.ser[i],
                    ) by {
                        if i <= se {
                            assert(self@.ser[i] == before[i]);
                        } else {
                            assert(self@.ser[i] == before[i + 2]);
                        }
                    }
                }
                lemma_head_kept(
                    before,
                    self@.ser,
                    scheme_end as int,
                    username_end as int,
                    host_start as int,
                    host_end as int,
                    host,
                    se + 1,
                    port,
                    se + 1,
                );
            }
            return Ok(path_start - 2);
        }
        Ok(path_start)
    }

    /// Parses query and fragment at the cursor and makes the record of the URL whose
    /// earlier components are written and stand at the given offsets.
    pub fn with_query_and_fragment(
        self,
        scheme_type: SchemeType,
        scheme_end: u32,
        username_end: u32,
        host_start: u32,
        host_end: u32,
        host: HostInternal,
        port: Option<u16>,
        path_start: u32,
        remaining: Input,
    ) -> (r: Parsed)
        requires
            remaining@.wf(),
            at_tail(remaining@),
            all_clean(self@.ser),
            head_ok(
                self@.ser,
                scheme_end as int,
                username_end as int,
                host_start as int,
                host_end as int,
                host,
                path_start as int,
                port,
            ),
            special_scheme(self@.ser, scheme_end as int) ==> rooted(self@.ser, path_start as int),
            rooted(self@.ser, path_start as int) ==> no_dots(
                self@.ser,
                path_start as int,
                self@.ser.len() as int,
            ),
        ensures
            r@ == record_outcome(
                self.setup(),
                self@,
                scheme_type,
                scheme_end as int,
                username_end as int,
                host_start as int,
                host_end as int,
                host,
                port,
                path_start as int,
                remaining@.text,
                remaining@.pos,
            ),
            r@.result matches Ok(url) ==> url.wf(),
            crate::parser::grows(self@.log, r@.log),
            r@.result matches Err(stop) ==> crate::parser::permitted(self.setup(), stop),
    {
        let mut this = self;
        let ghost entry_start = path_start;
        let path_start = match this.move_path(
            scheme_end,
            username_end,
            host_start,
            host_end,
            host,
            port,
            path_start,
        ) {
            Ok(moved) => moved,
            Err(e) => {
                return this.fail(e);
            },
        };
        let ghost fixed = this@.ser;
        let tail = this.parse_query_and_fragment(scheme_type, scheme_end, remaining);
        let (query_start, fragment_start) = match tail {
            Ok(starts) => starts,
            Err(stop) => {
                return this.finish(Err(stop));
            },
        };
        proof {
            lemma_head_kept(
                fixed,
                this@.ser,
                scheme_end as int,
                username_end as int,
                host_start as int,
                host_end as int,
                host,
                path_start as int,
                port,
                fixed.len() as int,
            );
            lemma_keeps_less(fixed, this@.ser, fixed.len() as int, scheme_end as int);
            if special_scheme(self@.ser, scheme_end as int) {
                lemma_keeps_index(fixed, this@.ser, fixed.len() as int, path_start as int);
            }
            assert forall|i: int| 0 <= i < fixed.len() implies this@.ser[i] == fixed[i] by {
                lemma_keeps_index(fixed, this@.ser, fixed.len() as int, i);
            }
            if rooted(this@.ser, path_start as int) {
                let moved = path_start as int;
                let from = entry_start as int;
                assert(fixed[moved + 0] == self@.ser[from + 0]);
                lemma_no_dots_moved(self@.ser, fixed, from, moved, self@.ser.len() - from);
                lemma_no_dots_kept(fixed, this@.ser, moved, fixed.len() as int);
            }
        }
        let url = Url::new(
            this.serialization,
            scheme_end,
            username_end,
            host_start,
            host_end,
            host,
            port,
            path_start,
            query_start,
            fragment_start,
        );
        Parsed { result: Ok(url), violations: this.violations }
    }

    /// Resolves an input that is a fragment only: the base URL up to its fragment, and
    /// the fragment at the cursor, which stands at its `#`.
    pub fn fragment_only(self, base_url: &Url, input: Input) -> (r: Parsed)
        requires
            input@.wf(),
            self@.ser.len() == 0,
        ensures
            r@ == fragment_only_outcome(self@, base_url@, input@.text, input@.pos),
            r@.result matches Ok(url) ==> url.wf(),
            crate::parser::grows(self@.log, r@.log),
            r@.result matches Err(stop) ==> crate::parser::permitted(self.setup(), stop),
    {
        let mut this = self;
        let ghost entry = this@;
        let base = base_url.as_bytes();
        let end = base_url.before_fragment();
        append(&mut this.serialization, base, 0, end);
        this.serialization.push(0x23);
        let ghost marked = this@.ser;
        let ghost head = base_url@.ser.take(end as int);
        proof {
            assert(base@.subrange(0, end as int) =~= head);
            assert(marked =~= (entry.ser + head).push(0x23));
            assert(marked =~= head.push(0x23));
            assert(all_clean(marked)) by {
                assert forall|i: int| 0 <= i < marked.len() implies is_clean(
                    #[trigger] marked[i],
                ) by {
                    if i < end {
                        assert(marked[i] == base_url@.ser[i]);
                    }
                }
            }
        }
        this.parse_fragment(input.advanced());
        let fragment_start = match to_u32(end) {
            Ok(at) => at,
            Err(e) => {
                return this.fail(e);
            },
        };
        proof {
            let view = base_url@;
            assert(marked.take(view.path_end()) =~= view.ser.take(view.path_end()));
            lemma_keeps_twice(
                view.ser,
                marked,
                this@.ser,
                view.path_end(),
                marked.len() as int,
            );
            lemma_keeps_less(view.ser, this@.ser, view.path_end(), view.path_start);
            lemma_head_kept(
                view.ser,
                this@.ser,
                view.scheme_end,
                view.username_end,
                view.host_start,
                view.host_end,
                view.host,
                view.path_start,
                view.port,
                view.path_start,
            );
            lemma_keeps_index(marked, this@.ser, marked.len() as int, end as int);
            if view.query_start is Some {
                lemma_keeps_index(marked, this@.ser, marked.len() as int, view.query_start->0);
            }
            assert forall|i: int| 0 <= i < end implies this@.ser[i] == view.ser[i] by {
                lemma_keeps_index(marked, this@.ser, marked.len() as int, i);
                assert(marked[i] == view.ser[i]);
            }
            if view.path_start < view.path_end() {
                if rooted(view.ser, view.path_start) {
                    lemma_no_dots_kept(view.ser, this@.ser, view.path_start, view.path_end());
                }
            }
        }
        let url = Url::new(
            this.serialization,
            base_url.scheme_end(),
            base_url.username_end(),
            base_url.host_start(),
            base_url.host_end(),
            base_url.host(),
            base_url.port(),
            base_url.path_start(),
            base_url.query_start(),
            Some(fragment_start),
        );
        Parsed { result: Ok(url), violations: this.violations }
    }

    /// Parses a URL from its authority on, the scheme and its `:` written.
    #[verifier::rlimit(40)]
    pub fn after_double_slash(
        self,
        input: Input,
        scheme_type: SchemeType,
        scheme_end: u32,
    ) -> (r: Parsed)
        requires
            input@.wf(),
            all_clean(self@.ser),
            scheme_ok(self@.ser, scheme_end as int),
            self@.ser.len() == scheme_end + 1,
            scheme_type == scheme_type_of(self@.ser.take(scheme_end as int)),
        ensures
            r@ == authority_outcome(
                self.setup(),
                self@,
                scheme_type,
                scheme_end as int,
                input@.text,
                input@.pos,
            ),
            r@.result matches Ok(url) ==> url.wf(),
            crate::parser::grows(self@.log, r@.log),
            r@.result matches Err(stop) ==> crate::parser::permitted(self.setup(), stop),
    {
        let mut this = self;
        let ghost start = this@.ser;
        this.serialization.push(0x2f);
        this.serialization.push(0x2f);
        let ghost slashes = this@.ser;
        let before_authority = this.serialization.len();
        let (username_end, remaining) = match this.parse_userinfo(input, scheme_type) {
            Ok(found) => found,
            Err(e) => {
                return this.fail(e);
            },
        };
        let ghost user = this@.ser;
        let has_authority = before_authority != this.serialization.len();
        let host_start = match to_u32(this.serialization.len()) {
            Ok(at) => at,
            Err(e) => {
                return this.fail(e);
            },
        };
        let found = this.parse_host_and_port(remaining, scheme_end, scheme_type);
        let (host_end, host, port, remaining) = match found {
            Ok(found) => found,
            Err(stop) => {
                return this.finish(Err(stop));
            },
        };
        if host == HostInternal::NoHost && has_authority {
            return this.fail(ParseError::EmptyHost);
        }
        let path_start = match to_u32(this.serialization.len()) {
            Ok(at) => at,
            Err(e) => {
                return this.fail(e);
            },
        };
        let ghost hosted = this@.ser;
        let mut has_host = true;
        let remaining = this.parse_path_start(scheme_type, &mut has_host, remaining);
        proof {
            let se = scheme_end as int;
            lemma_keeps_appended(start, seq![0x2fu8, 0x2fu8]);
            assert(slashes =~= start + seq![0x2fu8, 0x2fu8]);
            lemma_keeps_twice(slashes, user, hosted, slashes.len() as int, user.len() as int);
            lemma_keeps_twice(slashes, hosted, this@.ser, slashes.len() as int, hosted.len() as int);
            lemma_keeps_twice(user, hosted, this@.ser, user.len() as int, hosted.len() as int);
            assert forall|i: int| 0 <= i < slashes.len() implies this@.ser[i] == slashes[i] by {
                lemma_keeps_index(slashes, this@.ser, slashes.len() as int, i);
            }
            assert(this@.ser.take(se) =~= user.take(se)) by {
                assert forall|i: int| 0 <= i < se implies this@.ser[i] == user[i] by {
                    lemma_keeps_index(user, this@.ser, user.len() as int, i);
                }
            }
            assert forall|i: int| 0 <= i < se implies crate::url::is_scheme_byte(
                #[trigger] this@.ser[i],
            ) by {
                lemma_keeps_index(slashes, this@.ser, slashes.len() as int, i);
                assert(slashes[i] == start[i]);
                assert(crate::url::is_scheme_byte(start[i]));
            }
            lemma_keeps_index(slashes, this@.ser, slashes.len() as int, 0);
            lemma_keeps_index(slashes, this@.ser, slashes.len() as int, se);
            lemma_keeps_index(slashes, this@.ser, slashes.len() as int, se + 1);
            lemma_keeps_index(slashes, this@.ser, slashes.len() as int, se + 2);
            assert(user.take(se) =~= slashes.take(se)) by {
                assert forall|i: int| 0 <= i < se implies user[i] == slashes[i] by {
                    lemma_keeps_index(slashes, user, slashes.len() as int, i);
                }
            }
            assert(slashes.take(se) =~= start.take(se));
            assert(this@.ser.subrange(host_end as int, path_start as int) =~= hosted.subrange(
                host_end as int,
                path_start as int,
            )) by {
                assert forall|i: int| host_end <= i < path_start implies this@.ser[i]
                    == hosted[i] by {
                    lemma_keeps_index(hosted, this@.ser, hosted.len() as int, i);
                }
            }
        }
        this.with_query_and_fragment(
            scheme_type,
            scheme_end,
            username_end,
            host_start,
            host_end,
            host,
            port,
            path_start,
            remaining,
        )
    }
}

} // verus!
