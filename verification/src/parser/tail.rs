//! The end of a URL: the query and the fragment.

use vstd::prelude::*;
use vstd::slice::{slice_subrange, slice_to_vec};
use crate::chars::{is_tab_or_newline, to_u32};
use crate::error::ParseError;
use crate::input::{after_next, peek, Input, InputView};
use crate::parser::scan::{find_first_of, first_of, scan_log, stripped};
use crate::parser::path::{
    keeps, kept_clean, lemma_keeps_appended, lemma_keeps_index, lemma_keeps_twice,
};
use crate::parser::sets::{
    append_encoded, fragment, fragment_set, holds_controls, lemma_encode_clean,
    lemma_sets_hold_controls, query, query_set, special_query, special_query_set,
};
use crate::url::{all_clean, as_int, path_end_of, tail_ok};
use crate::parser::{
    rows, Context, Parser, QueryEncoding, QueryEncodingView, Setup, Stop, StopView, Written,
};
use crate::percent::encode;
use crate::scheme::{takes_query_encoding, Scheme, SchemeType};

verus! {

/// The index at which the part of the query starts that is open at index `j`: behind the
/// last tab or newline between `i` and `j`, or `i`.
pub open spec fn part_start(s: Seq<u8>, i: int, j: int) -> int
    decreases j - i,
{
    if j <= i || j > s.len() || i < 0 {
        i
    } else if is_tab_or_newline(s[j - 1]) {
        j
    } else {
        part_start(s, i, j - 1)
    }
}

/// The parts of the query that a tab or newline between `i` and `j` ends.
pub open spec fn closed_parts(s: Seq<u8>, i: int, j: int) -> Seq<Seq<u8>>
    decreases j - i,
{
    if j <= i || j > s.len() || i < 0 {
        Seq::<Seq<u8>>::empty()
    } else if is_tab_or_newline(s[j - 1]) {
        closed_parts(s, i, j - 1).push(s.subrange(part_start(s, i, j - 1), j - 1))
    } else {
        closed_parts(s, i, j - 1)
    }
}

/// The parts of the query that stands in `s` from `i` to `end`: what stands between its
/// tabs and newlines. The last part counts where a `#` ends it, and where it is not empty.
pub open spec fn query_parts(s: Seq<u8>, i: int, end: int) -> Seq<Seq<u8>> {
    let last = s.subrange(part_start(s, i, end), end);
    if end < s.len() || last.len() > 0 {
        closed_parts(s, i, end).push(last)
    } else {
        closed_parts(s, i, end)
    }
}

/// The encoding of the first `k` parts of a query under `set`, each part turned into the
/// bytes that `answers` holds for it, and into its own bytes where `answers` holds none.
pub open spec fn encode_parts(
    parts: Seq<Seq<u8>>,
    answers: Seq<Seq<u8>>,
    set: Set<u8>,
    k: int,
) -> Seq<u8>
    decreases k,
{
    if k <= 0 || k > parts.len() {
        Seq::<u8>::empty()
    } else {
        encode_parts(parts, answers, set, k - 1) + encode(
            if k - 1 < answers.len() {
                answers[k - 1]
            } else {
                parts[k - 1]
            },
            set,
        )
    }
}

/// The index behind the query that starts at `i`: that of the next `#` where a whole URL
/// is parsed, else the end of the input.
pub open spec fn query_end(context: Context, s: Seq<u8>, i: int) -> int {
    if context == Context::UrlParser {
        first_of(s, i, 0x23, 0x23)
    } else {
        s.len() as int
    }
}

/// The set that the query of a scheme of the family `scheme_type` is encoded under.
pub open spec fn query_set_of(scheme_type: SchemeType) -> Set<u8> {
    if scheme_type.special() {
        special_query_set()
    } else {
        query_set()
    }
}

/// What parsing a query gives: what is written then, and the index behind the `#` that
/// ended the query, or `None` at the end of the input, or the question about the parts of
/// the query.
pub struct QueryOutcome {
    pub written: Written,
    pub rest: Result<Option<int>, StopView>,
}

/// What parsing the query that stands in `s` from `pos` on gives. The query ends at the
/// next `#`, or at the end of the input where no whole URL is parsed. Its characters are
/// reported, and its bytes are written percent-encoded, tabs and newlines left out. Where
/// an override is in use and the scheme is one of `http`, `https`, `file` and `ftp`, the
/// parts of the query are written as the override has answered, and asked for where it
/// has not.
pub open spec fn query_outcome(
    setup: Setup,
    w: Written,
    scheme_type: SchemeType,
    scheme_end: int,
    s: Seq<u8>,
    pos: int,
) -> QueryOutcome {
    let end = query_end(setup.context, s, pos);
    let log = scan_log(s, pos, end, false, w.log);
    let set = query_set_of(scheme_type);
    let rest = if end < s.len() {
        Some(end + 1)
    } else {
        None
    };
    let parts = query_parts(s, pos, end);
    if setup.query is Utf8 || !takes_query_encoding(w.ser.take(scheme_end)) {
        QueryOutcome {
            written: Written { ser: w.ser + encode(stripped(s, pos, end), set), log },
            rest: Ok(rest),
        }
    } else {
        match setup.query {
            QueryEncodingView::Answered(answers) => QueryOutcome {
                written: Written {
                    ser: w.ser + encode_parts(parts, answers, set, parts.len() as int),
                    log,
                },
                rest: Ok(rest),
            },
            _ => QueryOutcome { written: Written { ser: w.ser, log }, rest: Err(StopView::Query(parts)) },
        }
    }
}

/// What parsing the fragment that stands in `s` from `pos` on writes: its bytes
/// percent-encoded under the fragment set, tabs and newlines left out; and what its
/// characters are reported for, a NUL as `NullInFragment`.
pub open spec fn fragment_written(w: Written, s: Seq<u8>, pos: int) -> Written {
    Written {
        ser: w.ser + encode(stripped(s, pos, s.len() as int), fragment_set()),
        log: scan_log(s, pos, s.len() as int, true, w.log),
    }
}

/// What parsing the query and the fragment gives: what is written then, and the offsets
/// of `?` and `#`, or why the parse stops.
pub struct TailOutcome {
    pub written: Written,
    pub starts: Result<(Option<int>, Option<int>), StopView>,
}

/// What parsing the query and the fragment that stand in `s` from `pos` on gives, where
/// the next character is `?` or `#` or none is left. An offset that does not fit in 32
/// bits is the error `Overflow`.
pub open spec fn tail_outcome(
    setup: Setup,
    w: Written,
    scheme_type: SchemeType,
    scheme_end: int,
    s: Seq<u8>,
    pos: int,
) -> TailOutcome {
    let next = after_next(s, pos);
    match peek(s, pos) {
        None => TailOutcome { written: w, starts: Ok((None, None)) },
        Some(c) => if c == 0x3f {
            if w.ser.len() > u32::MAX {
                TailOutcome { written: w, starts: Err(StopView::Error(ParseError::Overflow)) }
            } else {
                let asked = Written { ser: w.ser.push(0x3f), log: w.log };
                let q = query_outcome(setup, asked, scheme_type, scheme_end, s, next);
                match q.rest {
                    Err(stop) => TailOutcome { written: q.written, starts: Err(stop) },
                    Ok(None) => TailOutcome {
                        written: q.written,
                        starts: Ok((Some(w.ser.len() as int), None)),
                    },
                    Ok(Some(behind)) => if q.written.ser.len() > u32::MAX {
                        TailOutcome {
                            written: q.written,
                            starts: Err(StopView::Error(ParseError::Overflow)),
                        }
                    } else {
                        TailOutcome {
                            written: fragment_written(
                                Written { ser: q.written.ser.push(0x23), log: q.written.log },
                                s,
                                behind,
                            ),
                            starts: Ok(
                                (Some(w.ser.len() as int), Some(q.written.ser.len() as int)),
                            ),
                        }
                    },
                }
            }
        } else {
            if w.ser.len() > u32::MAX {
                TailOutcome { written: w, starts: Err(StopView::Error(ParseError::Overflow)) }
            } else {
                TailOutcome {
                    written: fragment_written(
                        Written { ser: w.ser.push(0x23), log: w.log },
                        s,
                        next,
                    ),
                    starts: Ok((None, Some(w.ser.len() as int))),
                }
            }
        },
    }
}

/// Whether the cursor `r` stands in the text `text` where `expected` says.
pub open spec fn stands_at(r: Option<Input>, text: Seq<u8>, expected: Option<int>) -> bool {
    match (r, expected) {
        (Some(input), Some(pos)) => input@ == (InputView { text, pos }) && input@.wf(),
        (None, None) => true,
        _ => false,
    }
}

/// The parts of the query that stands in `bytes` from `from` to `end`.
fn split_query(bytes: &[u8], from: usize, end: usize) -> (r: Vec<Vec<u8>>)
    requires
        from <= end <= bytes@.len(),
    ensures
        rows(r@) == query_parts(bytes@, from as int, end as int),
{
    let mut parts: Vec<Vec<u8>> = Vec::new();
    let mut start = from;
    let mut j = from;
    let ghost s = bytes@;
    proof {
        assert(rows(parts@) =~= closed_parts(s, from as int, j as int));
    }
    while j < end
        invariant
            from <= start <= j <= end <= s.len(),
            s == bytes@,
            start == part_start(s, from as int, j as int),
            rows(parts@) == closed_parts(s, from as int, j as int),
        decreases end - j,
    {
        let b = bytes[j];
        if b == 0x09 || b == 0x0a || b == 0x0d {
            let ghost before = parts@;
            parts.push(slice_to_vec(slice_subrange(bytes, start, j)));
            proof {
                assert(rows(parts@) =~= rows(before).push(s.subrange(start as int, j as int)));
            }
            start = j + 1;
        }
        j += 1;
    }
    if end < bytes.len() || start < end {
        let ghost before = parts@;
        parts.push(slice_to_vec(slice_subrange(bytes, start, end)));
        proof {
            assert(rows(parts@) =~= rows(before).push(s.subrange(start as int, end as int)));
        }
    }
    parts
}

impl<'a> Parser<'a> {
    /// Parses the fragment that starts at the cursor, behind its `#`: writes its bytes
    /// percent-encoded under the fragment set, tabs and newlines left out, and reports
    /// what its characters give.
    pub fn parse_fragment(&mut self, input: Input)
        requires
            input@.wf(),
        ensures
            final(self).setup() == old(self).setup(),
            crate::parser::grows(old(self)@.log, final(self)@.log),
            final(self)@ == fragment_written(old(self)@, input@.text, input@.pos),
            keeps(old(self)@.ser, final(self)@.ser, old(self)@.ser.len() as int),
            kept_clean(old(self)@.ser, final(self)@.ser),
    {
        let set = fragment();
        let end = input.bytes().len();
        self.encode_run(input, end, &set, true);
        proof {
            lemma_sets_hold_controls();
            lemma_encode_clean(stripped(input@.text, input@.pos, end as int), set@);
            assert(self@.ser.take(old(self)@.ser.len() as int) =~= old(self)@.ser.take(
                old(self)@.ser.len() as int,
            ));
        }
    }

    /// Parses the query that starts at the cursor, behind its `?`. Returns the cursor
    /// behind the `#` that ended the query, or `None` at the end of the input.
    pub fn parse_query<'i>(
        &mut self,
        scheme_type: SchemeType,
        scheme_end: u32,
        input: Input<'i>,
    ) -> (r: Result<Option<Input<'i>>, Stop>)
        requires
            input@.wf(),
            scheme_end <= old(self)@.ser.len(),
        ensures
            r matches Err(e) ==> crate::parser::permitted(old(self).setup(), e@),
            final(self).setup() == old(self).setup(),
            crate::parser::grows(old(self)@.log, final(self)@.log),
            final(self)@ == query_outcome(
                old(self).setup(),
                old(self)@,
                scheme_type,
                scheme_end as int,
                input@.text,
                input@.pos,
            ).written,
            match query_outcome(
                old(self).setup(),
                old(self)@,
                scheme_type,
                scheme_end as int,
                input@.text,
                input@.pos,
            ).rest {
                Ok(rest) => r matches Ok(cursor) && stands_at(cursor, input@.text, rest),
                Err(stop) => r matches Err(e) && e@ == stop,
            },
            keeps(old(self)@.ser, final(self)@.ser, old(self)@.ser.len() as int),
            kept_clean(old(self)@.ser, final(self)@.ser),
    {
        let bytes = input.bytes();
        let pos = input.position();
        proof {
            lemma_sets_hold_controls();
            assert(old(self)@.ser.take(old(self)@.ser.len() as int) =~= old(self)@.ser);
        }
        let end = if self.context == Context::UrlParser {
            find_first_of(bytes, pos, 0x23, 0x23)
        } else {
            bytes.len()
        };
        let set = if scheme_type.is_special() {
            special_query()
        } else {
            query()
        };
        let rest = if end < bytes.len() {
            Some(input.at(end + 1))
        } else {
            None
        };
        let overridden = match self.query_encoding_override {
            QueryEncoding::Utf8 => false,
            _ => match Scheme::of(self.serialization.as_slice(), scheme_end as usize) {
                Scheme::Http | Scheme::Https | Scheme::File | Scheme::Ftp => true,
                _ => false,
            },
        };
        if !overridden {
            self.encode_run(input, end, &set, false);
            proof {
                lemma_encode_clean(stripped(input@.text, input@.pos, end as int), set@);
                assert(self@.ser.take(old(self)@.ser.len() as int) =~= old(self)@.ser);
            }
            return Ok(rest);
        }
        let ghost before = self.serialization@;
        self.report_run(input, end, false);
        let parts = split_query(bytes, pos, end);
        match &self.query_encoding_override {
            QueryEncoding::Answered(answers) => {
                let mut k: usize = 0;
                proof {
                    assert(self.serialization@ =~= before + encode_parts(
                        rows(parts@),
                        rows(answers@),
                        set@,
                        k as int,
                    ));
                }
                while k < parts.len()
                    invariant
                        k <= parts@.len(),
                        self.setup() == old(self).setup(),
                        old(self).setup().query == QueryEncodingView::Answered(rows(answers@)),
                        holds_controls(set@),
                        before == old(self)@.ser,
                        all_clean(before) ==> all_clean(self.serialization@),
                        self@.log == scan_log(
                            input@.text,
                            input@.pos,
                            end as int,
                            false,
                            old(self)@.log,
                        ),
                        self.serialization@ == before + encode_parts(
                            rows(parts@),
                            rows(answers@),
                            set@,
                            k as int,
                        ),
                    decreases parts@.len() - k,
                {
                    if k < answers.len() {
                        let answer = answers[k].as_slice();
                        append_encoded(&mut self.serialization, answer, 0, answer.len(), &set);
                        proof {
                            assert(answer@.subrange(0, answer@.len() as int) =~= answer@);
                            lemma_encode_clean(answer@, set@);
                        }
                    } else {
                        let part = parts[k].as_slice();
                        append_encoded(&mut self.serialization, part, 0, part.len(), &set);
                        proof {
                            assert(part@.subrange(0, part@.len() as int) =~= part@);
                            lemma_encode_clean(part@, set@);
                        }
                    }
                    proof {
                        assert(self.serialization@ =~= before + encode_parts(
                            rows(parts@),
                            rows(answers@),
                            set@,
                            k + 1,
                        ));
                    }
                    k += 1;
                }
                proof {
                    assert(self@.ser.take(before.len() as int) =~= before);
                }
                Ok(rest)
            },
            _ => Err(Stop::Query(parts)),
        }
    }

    /// Parses the query and the fragment that start at the cursor, which stands at `?` or
    /// `#` or at the end of the input. Returns the offsets of `?` and `#`.
    pub fn parse_query_and_fragment(
        &mut self,
        scheme_type: SchemeType,
        scheme_end: u32,
        input: Input,
    ) -> (r: Result<(Option<u32>, Option<u32>), Stop>)
        requires
            input@.wf(),
            scheme_end <= old(self)@.ser.len(),
            crate::parser::path::at_tail(input@),
        ensures
            r matches Err(e) ==> crate::parser::permitted(old(self).setup(), e@),
            final(self).setup() == old(self).setup(),
            crate::parser::grows(old(self)@.log, final(self)@.log),
            final(self)@ == tail_outcome(
                old(self).setup(),
                old(self)@,
                scheme_type,
                scheme_end as int,
                input@.text,
                input@.pos,
            ).written,
            match tail_outcome(
                old(self).setup(),
                old(self)@,
                scheme_type,
                scheme_end as int,
                input@.text,
                input@.pos,
            ).starts {
                Ok((q, f)) => r matches Ok((query_start, fragment_start)) && crate::url::as_int(
                    query_start,
                ) == q && crate::url::as_int(fragment_start) == f,
                Err(stop) => r matches Err(e) && e@ == stop,
            },
            keeps(old(self)@.ser, final(self)@.ser, old(self)@.ser.len() as int),
            kept_clean(old(self)@.ser, final(self)@.ser),
            r matches Ok((query_start, fragment_start)) ==> tail_ok(
                final(self)@.ser,
                old(self)@.ser.len() as int,
                as_int(query_start),
                as_int(fragment_start),
            ),
            r matches Ok((query_start, fragment_start)) ==> path_end_of(
                final(self)@.ser.len() as int,
                as_int(query_start),
                as_int(fragment_start),
            ) == old(self)@.ser.len(),
    {
        let ghost start = self@.ser;
        let ghost mut middle = start;
        proof {
            lemma_keeps_appended(start, Seq::<u8>::empty());
        }
        let mut query_start = None;
        let mut input = input;
        let first = input.peek_byte();
        input = input.advanced();
        match first {
            None => {
                return Ok((None, None));
            },
            Some(c) => {
                if c == 0x3f {
                    let at = match to_u32(self.serialization.len()) {
                        Ok(at) => at,
                        Err(e) => {
                            return Err(Stop::Error(e));
                        },
                    };
                    query_start = Some(at);
                    self.serialization.push(0x3f);
                    let ghost asked = self@.ser;
                    proof {
                        lemma_keeps_appended(start, seq![0x3fu8]);
                        assert(asked =~= start + seq![0x3fu8]);
                    }
                    match self.parse_query(scheme_type, scheme_end, input) {
                        Err(stop) => {
                            return Err(stop);
                        },
                        Ok(None) => {
                            proof {
                                lemma_keeps_twice(
                                    start,
                                    asked,
                                    self@.ser,
                                    start.len() as int,
                                    asked.len() as int,
                                );
                                lemma_keeps_index(
                                    asked,
                                    self@.ser,
                                    asked.len() as int,
                                    start.len() as int,
                                );
                            }
                            return Ok((query_start, None));
                        },
                        Ok(Some(remaining)) => {
                            proof {
                                lemma_keeps_twice(
                                    start,
                                    asked,
                                    self@.ser,
                                    start.len() as int,
                                    asked.len() as int,
                                );
                                lemma_keeps_index(
                                    asked,
                                    self@.ser,
                                    asked.len() as int,
                                    start.len() as int,
                                );
                            }
                            input = remaining;
                        },
                    }
                }
            },
        }
        let fragment_start = match to_u32(self.serialization.len()) {
            Ok(at) => at,
            Err(e) => {
                return Err(Stop::Error(e));
            },
        };
        proof {
            middle = self@.ser;
        }
        self.serialization.push(0x23);
        let ghost marked = self@.ser;
        self.parse_fragment(input);
        proof {
            lemma_keeps_appended(middle, seq![0x23u8]);
            assert(marked =~= middle + seq![0x23u8]);
            lemma_keeps_twice(middle, marked, self@.ser, middle.len() as int, marked.len() as int);
            lemma_keeps_twice(start, middle, self@.ser, start.len() as int, middle.len() as int);
            lemma_keeps_index(marked, self@.ser, marked.len() as int, middle.len() as int);
            if query_start is Some {
                lemma_keeps_index(middle, self@.ser, middle.len() as int, start.len() as int);
            }
        }
        Ok((query_start, Some(fragment_start)))
    }
}

} // verus!
