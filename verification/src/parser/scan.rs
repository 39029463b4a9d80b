//! Reading runs of the input: which violations its characters give, what is left of it
//! without tabs and newlines, and where a delimiter stands.

use vstd::prelude::*;
use crate::ascii_set::AsciiSet;
use crate::chars::{
    char_at, char_width, decode_char, is_hex_digit, is_tab_or_newline, is_url_code_point,
    lemma_char_at_ascii, url_code_point,
};
use crate::error::SyntaxViolation;
use crate::input::{after_next, peek, Input};
use crate::parser::sets::append_encoded;
use crate::parser::Parser;
use crate::percent::{encode, lemma_encode_concat};

verus! {

/// What the character `c` is reported for, where `s` goes on behind it at index `after`:
/// a percent sign without two hexadecimal digits behind it, or a character that is no URL
/// code point.
pub open spec fn code_point_violations(c: char, s: Seq<u8>, after: int) -> Seq<SyntaxViolation> {
    if c == '%' {
        let a = peek(s, after);
        let b = peek(s, after_next(s, after));
        if a is Some && is_hex_digit(a->0) && b is Some && is_hex_digit(b->0) {
            Seq::<SyntaxViolation>::empty()
        } else {
            seq![SyntaxViolation::PercentDecode]
        }
    } else if !url_code_point(c) {
        seq![SyntaxViolation::NonUrlCodePoint]
    } else {
        Seq::<SyntaxViolation>::empty()
    }
}

/// What the character at index `j` of `s` is reported for.
pub open spec fn code_point_log(s: Seq<u8>, j: int) -> Seq<SyntaxViolation> {
    code_point_violations(char_at(s, j), s, j + char_width(s, j))
}

/// The log `log` with what the characters of `s` from `i` to `end` are reported for,
/// tabs and newlines passed over. Under `nul_rule` a NUL is reported as
/// `NullInFragment`, and as nothing else.
pub open spec fn scan_log(
    s: Seq<u8>,
    i: int,
    end: int,
    nul_rule: bool,
    log: Seq<SyntaxViolation>,
) -> Seq<SyntaxViolation>
    decreases end + 4 - i,
{
    if i < 0 || i >= end || i >= s.len() {
        log
    } else if is_tab_or_newline(s[i]) {
        scan_log(s, i + 1, end, nul_rule, log)
    } else if nul_rule && s[i] == 0 {
        scan_log(s, i + 1, end, nul_rule, log.push(SyntaxViolation::NullInFragment))
    } else {
        scan_log(s, i + char_width(s, i), end, nul_rule, log + code_point_log(s, i))
    }
}

/// The bytes of `s` from `i` to `end` that are no tab, line feed or carriage return.
pub open spec fn stripped(s: Seq<u8>, i: int, end: int) -> Seq<u8>
    decreases end - i,
{
    if end <= i || end > s.len() || i < 0 {
        Seq::<u8>::empty()
    } else if is_tab_or_newline(s[end - 1]) {
        stripped(s, i, end - 1)
    } else {
        stripped(s, i, end - 1).push(s[end - 1])
    }
}

/// The index of the first byte of `s`, from `i` on, that is `a` or `b`; the length of `s`
/// where there is none.
pub open spec fn first_of(s: Seq<u8>, i: int, a: u8, b: u8) -> int
    decreases s.len() - i,
{
    if i < 0 || i >= s.len() {
        s.len() as int
    } else if s[i] == a || s[i] == b {
        i
    } else {
        first_of(s, i + 1, a, b)
    }
}

pub proof fn lemma_first_of(s: Seq<u8>, i: int, a: u8, b: u8)
    requires
        0 <= i <= s.len(),
    ensures
        i <= first_of(s, i, a, b) <= s.len(),
        first_of(s, i, a, b) < s.len() ==> s[first_of(s, i, a, b)] == a || s[first_of(s, i, a, b)]
            == b,
        forall|k: int| i <= k < first_of(s, i, a, b) ==> #[trigger] s[k] != a && s[k] != b,
    decreases s.len() - i,
{
    if i < s.len() && !(s[i] == a || s[i] == b) {
        lemma_first_of(s, i + 1, a, b);
    }
}

/// A run without tabs and newlines is left as it is.
pub proof fn lemma_stripped_extend(s: Seq<u8>, i: int, j: int, k: int)
    requires
        0 <= i <= j <= k <= s.len(),
        forall|x: int| j <= x < k ==> !is_tab_or_newline(#[trigger] s[x]),
    ensures
        stripped(s, i, k) == stripped(s, i, j) + s.subrange(j, k),
    decreases k - j,
{
    if j == k {
        assert(stripped(s, i, j) + s.subrange(j, k) =~= stripped(s, i, j));
    } else {
        lemma_stripped_extend(s, i, j, k - 1);
        assert(stripped(s, i, k) =~= stripped(s, i, j) + s.subrange(j, k));
    }
}

/// What is left of a run starts with the first byte of the run that is no tab or newline.
pub proof fn lemma_stripped_first(s: Seq<u8>, i: int, end: int)
    requires
        0 <= i <= end <= s.len(),
    ensures
        crate::input::skip_ignored(s, i) < end ==> stripped(s, i, end).len() > 0 && stripped(
            s,
            i,
            end,
        )[0] == s[crate::input::skip_ignored(s, i)],
        crate::input::skip_ignored(s, i) >= end ==> stripped(s, i, end).len() == 0,
    decreases end - i,
{
    crate::input::lemma_skip_ignored(s, i);
    if end > i {
        lemma_stripped_first(s, i, end - 1);
        let j = crate::input::skip_ignored(s, i);
        if j >= end {
            assert(is_tab_or_newline(s[end - 1]));
        }
    }
}

/// An encoding starts with what is written for the first byte.
pub proof fn lemma_encode_first(x: Seq<u8>, set: Set<u8>)
    requires
        x.len() > 0,
    ensures
        encode(x, set).len() > 0,
        encode(x, set)[0] == crate::percent::encode_one(x[0], set)[0],
    decreases x.len(),
{
    let front = x.drop_last();
    if front.len() > 0 {
        lemma_encode_first(front, set);
        assert(front[0] == x[0]);
    } else {
        assert(encode(front, set).len() == 0);
    }
}

/// The character at `j` ends before the next ASCII byte.
pub proof fn lemma_char_within(s: Seq<u8>, j: int, end: int)
    requires
        0 <= j < end <= s.len(),
        end < s.len() ==> s[end] < 0x80,
    ensures
        j + char_width(s, j) <= end,
        forall|x: int| j < x < j + char_width(s, j) ==> #[trigger] s[x] >= 0x80,
{
    lemma_char_at_ascii(s, j);
}

/// Appends to `log` what the character `c` is reported for, where the text goes on
/// behind it at the cursor `input`.
pub fn check_url_code_point(log: &mut Vec<SyntaxViolation>, c: char, input: &Input)
    requires
        input@.wf(),
    ensures
        final(log)@ == old(log)@ + code_point_violations(c, input@.text, input@.pos),
{
    if c == '%' {
        let a = input.peek_byte();
        let b = input.advanced().peek_byte();
        let two = match (a, b) {
            (Some(a), Some(b)) => hex(a) && hex(b),
            _ => false,
        };
        if !two {
            log.push(SyntaxViolation::PercentDecode);
        }
    } else if !is_url_code_point(c) {
        log.push(SyntaxViolation::NonUrlCodePoint);
    }
    proof {
        assert(log@ =~= old(log)@ + code_point_violations(c, input@.text, input@.pos));
    }
}

fn hex(b: u8) -> (r: bool)
    ensures
        r == is_hex_digit(b),
{
    (0x30 <= b && b <= 0x39) || (0x41 <= b && b <= 0x46) || (0x61 <= b && b <= 0x66)
}

/// The index of the first byte of `bytes`, from `from` on, that is `a` or `b`.
pub fn find_first_of(bytes: &[u8], from: usize, a: u8, b: u8) -> (r: usize)
    requires
        from <= bytes@.len(),
    ensures
        r == first_of(bytes@, from as int, a, b),
        from <= r <= bytes@.len(),
        r < bytes@.len() ==> bytes@[r as int] == a || bytes@[r as int] == b,
        forall|k: int| from <= k < r ==> #[trigger] bytes@[k] != a && bytes@[k] != b,
{
    let mut i = from;
    proof {
        lemma_first_of(bytes@, from as int, a, b);
    }
    while i < bytes.len() && !(bytes[i] == a || bytes[i] == b)
        invariant
            from <= i <= bytes@.len(),
            first_of(bytes@, i as int, a, b) == first_of(bytes@, from as int, a, b),
        decreases bytes@.len() - i,
    {
        i += 1;
    }
    i
}

impl<'a> Parser<'a> {
    /// Writes the percent-encoding, under `set`, of the text from the cursor to index
    /// `end`, tabs and newlines left out, and reports what its characters give.
    pub fn encode_run(&mut self, input: Input, end: usize, set: &AsciiSet, nul_rule: bool)
        requires
            input@.wf(),
            input@.pos <= end <= input@.text.len(),
            end < input@.text.len() ==> input@.text[end as int] < 0x80,
        ensures
            final(self).setup() == old(self).setup(),
            crate::parser::grows(old(self)@.log, final(self)@.log),
            final(self)@.ser == old(self)@.ser + encode(
                stripped(input@.text, input@.pos, end as int),
                set@,
            ),
            final(self)@.log == scan_log(
                input@.text,
                input@.pos,
                end as int,
                nul_rule,
                old(self)@.log,
            ),
    {
        let bytes = input.bytes();
        let start = input.position();
        let mut i = start;
        let ghost s = bytes@;
        proof {
            assert(self@.ser =~= old(self)@.ser + encode(stripped(s, start as int, i as int), set@));
        }
        while i < end
            invariant
                start <= i <= end <= s.len(),
                s == bytes@,
                s == input@.text,
                end < s.len() ==> s[end as int] < 0x80,
                self.setup() == old(self).setup(),
                crate::parser::grows(old(self)@.log, self@.log),
                self@.ser == old(self)@.ser + encode(stripped(s, start as int, i as int), set@),
                scan_log(s, i as int, end as int, nul_rule, self@.log) == scan_log(
                    s,
                    start as int,
                    end as int,
                    nul_rule,
                    old(self)@.log,
                ),
            decreases end - i,
        {
            let b = bytes[i];
            if b == 0x09 || b == 0x0a || b == 0x0d {
                i += 1;
            } else if nul_rule && b == 0 {
                self.violations.push(SyntaxViolation::NullInFragment);
                let ghost before = self.serialization@;
                append_encoded(&mut self.serialization, bytes, i, i + 1, set);
                proof {
                    lemma_stripped_extend(s, start as int, i as int, i + 1);
                    lemma_encode_concat(
                        stripped(s, start as int, i as int),
                        s.subrange(i as int, i + 1),
                        set@,
                    );
                    assert(self@.ser =~= old(self)@.ser + encode(
                        stripped(s, start as int, i + 1),
                        set@,
                    ));
                }
                i += 1;
            } else {
                let (c, w) = decode_char(bytes, i);
                proof {
                    lemma_char_within(s, i as int, end as int);
                }
                check_url_code_point(&mut self.violations, c, &input.at(i + w));
                append_encoded(&mut self.serialization, bytes, i, i + w, set);
                proof {
                    lemma_stripped_extend(s, start as int, i as int, i + w);
                    lemma_encode_concat(
                        stripped(s, start as int, i as int),
                        s.subrange(i as int, i + w),
                        set@,
                    );
                    assert(self@.ser =~= old(self)@.ser + encode(
                        stripped(s, start as int, i + w),
                        set@,
                    ));
                }
                i += w;
            }
        }
    }

    /// Reports what the characters of the text from the cursor to index `end` give, tabs
    /// and newlines passed over.
    pub fn report_run(&mut self, input: Input, end: usize, nul_rule: bool)
        requires
            input@.wf(),
            input@.pos <= end <= input@.text.len(),
            end < input@.text.len() ==> input@.text[end as int] < 0x80,
        ensures
            final(self).setup() == old(self).setup(),
            crate::parser::grows(old(self)@.log, final(self)@.log),
            final(self)@.ser == old(self)@.ser,
            final(self)@.log == scan_log(
                input@.text,
                input@.pos,
                end as int,
                nul_rule,
                old(self)@.log,
            ),
    {
        let bytes = input.bytes();
        let start = input.position();
        let mut i = start;
        let ghost s = bytes@;
        while i < end
            invariant
                start <= i <= end <= s.len(),
                s == bytes@,
                s == input@.text,
                end < s.len() ==> s[end as int] < 0x80,
                self.setup() == old(self).setup(),
                crate::parser::grows(old(self)@.log, self@.log),
                self@.ser == old(self)@.ser,
                scan_log(s, i as int, end as int, nul_rule, self@.log) == scan_log(
                    s,
                    start as int,
                    end as int,
                    nul_rule,
                    old(self)@.log,
                ),
            decreases end - i,
        {
            let b = bytes[i];
            if b == 0x09 || b == 0x0a || b == 0x0d {
                i += 1;
            } else if nul_rule && b == 0 {
                self.violations.push(SyntaxViolation::NullInFragment);
                i += 1;
            } else {
                let (c, w) = decode_char(bytes, i);
                proof {
                    lemma_char_within(s, i as int, end as int);
                }
                check_url_code_point(&mut self.violations, c, &input.at(i + w));
                i += w;
            }
        }
    }
}

} // verus!
