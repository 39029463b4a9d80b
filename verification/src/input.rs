//! A cursor over the text to parse that passes over ASCII tab, line feed and carriage
//! return wherever they stand.

use vstd::prelude::*;
use vstd::string::StringSliceAdditionalSpecFns;
use vstd::slice::slice_subrange;
use crate::chars::{char_at, char_width, decode_char, is_tab_or_newline};
use crate::error::SyntaxViolation;

verus! {

/// The index of the first byte of `s`, from `i` on, that is no tab, line feed or carriage
/// return; the length of `s` where there is none.
pub open spec fn skip_ignored(s: Seq<u8>, i: int) -> int
    decreases s.len() - i,
{
    if i < 0 || i >= s.len() {
        i
    } else if is_tab_or_newline(s[i]) {
        skip_ignored(s, i + 1)
    } else {
        i
    }
}

/// The first byte of the next character of `s` from `i` on, tab, line feed and carriage
/// return passed over.
pub open spec fn peek(s: Seq<u8>, i: int) -> Option<u8> {
    let j = skip_ignored(s, i);
    if 0 <= j < s.len() {
        Some(s[j])
    } else {
        None
    }
}

/// The next character of `s` from `i` on, tab, line feed and carriage return passed over.
pub open spec fn peek_char(s: Seq<u8>, i: int) -> Option<char> {
    let j = skip_ignored(s, i);
    if 0 <= j < s.len() {
        Some(char_at(s, j))
    } else {
        None
    }
}

/// The index behind the next character of `s` from `i` on.
pub open spec fn after_next(s: Seq<u8>, i: int) -> int {
    let j = skip_ignored(s, i);
    if 0 <= j < s.len() {
        j + char_width(s, j)
    } else {
        j
    }
}

/// Whether some byte of `s` from `from` to `to` is a tab, line feed or carriage return.
pub open spec fn has_tab_or_newline(s: Seq<u8>, from: int, to: int) -> bool {
    exists|k: int| from <= k < to && is_tab_or_newline(#[trigger] s[k])
}

/// The number of bytes at the start of `s` that are at most `limit` where `c0` is set,
/// and tabs, line feeds and carriage returns where it is not.
pub open spec fn trim_start(s: Seq<u8>, c0: bool, i: int) -> int
    decreases s.len() - i,
{
    if 0 <= i < s.len() && trimmed(s[i], c0) {
        trim_start(s, c0, i + 1)
    } else {
        i
    }
}

/// The index behind the last byte of `s`, before `i` and not before `low`, that is kept.
pub open spec fn trim_end(s: Seq<u8>, c0: bool, low: int, i: int) -> int
    decreases i,
{
    if 0 <= low < i <= s.len() && trimmed(s[i - 1], c0) {
        trim_end(s, c0, low, i - 1)
    } else {
        i
    }
}

/// Whether trimming removes `b`: a C0 control or space where `c0` is set, else a tab,
/// line feed or carriage return.
pub open spec fn trimmed(b: u8, c0: bool) -> bool {
    if c0 {
        b <= 0x20
    } else {
        is_tab_or_newline(b)
    }
}

/// What trimming leaves of `s`.
pub open spec fn trim(s: Seq<u8>, c0: bool) -> Seq<u8> {
    let start = trim_start(s, c0, 0);
    s.subrange(start, trim_end(s, c0, start, s.len() as int))
}

/// What trimming `s` reports: `C0SpaceIgnored` where it removed anything, then
/// `TabOrNewlineIgnored` where a tab, line feed or carriage return is left inside.
pub open spec fn trim_violations(s: Seq<u8>, c0: bool) -> Seq<SyntaxViolation> {
    let kept = trim(s, c0);
    let first = if kept.len() < s.len() {
        seq![SyntaxViolation::C0SpaceIgnored]
    } else {
        Seq::<SyntaxViolation>::empty()
    };
    if has_tab_or_newline(kept, 0, kept.len() as int) {
        first.push(SyntaxViolation::TabOrNewlineIgnored)
    } else {
        first
    }
}

pub proof fn lemma_skip_ignored(s: Seq<u8>, i: int)
    requires
        0 <= i <= s.len(),
    ensures
        i <= skip_ignored(s, i) <= s.len(),
        forall|k: int| i <= k < skip_ignored(s, i) ==> is_tab_or_newline(#[trigger] s[k]),
        skip_ignored(s, i) < s.len() ==> !is_tab_or_newline(s[skip_ignored(s, i)]),
        skip_ignored(s, skip_ignored(s, i)) == skip_ignored(s, i),
    decreases s.len() - i,
{
    if i < s.len() && is_tab_or_newline(s[i]) {
        lemma_skip_ignored(s, i + 1);
    }
}

/// What a cursor stands for: the text it walks, as UTF-8, and the index it stands at.
pub struct InputView {
    pub text: Seq<u8>,
    pub pos: int,
}

impl InputView {
    /// The index is one of the text.
    pub open spec fn wf(self) -> bool {
        0 <= self.pos <= self.text.len()
    }

    /// The same text at another index.
    pub open spec fn at(self, pos: int) -> InputView {
        InputView { text: self.text, pos }
    }

    /// Whether no character is left.
    pub open spec fn is_empty(self) -> bool {
        peek(self.text, self.pos) is None
    }
}

/// A cursor over the text to parse. It is cheap to copy, so a caller that tries one
/// reading of the text keeps a copy to go back to.
#[derive(Clone, Copy, Debug)]
pub struct Input<'i> {
    bytes: &'i [u8],
    pos: usize,
}

impl<'i> View for Input<'i> {
    type V = InputView;

    closed spec fn view(&self) -> InputView {
        InputView { text: self.bytes@, pos: self.pos as int }
    }
}

impl<'i> Input<'i> {
    /// A cursor at the start of `input`.
    pub fn new_no_trim(input: &'i str) -> (r: Input<'i>)
        ensures
            r@ == (InputView { text: input.spec_bytes(), pos: 0 }),
            r@.wf(),
    {
        Input { bytes: input.as_bytes(), pos: 0 }
    }

    /// A cursor over the bytes `bytes`, at index `pos`.
    pub fn over(bytes: &'i [u8], pos: usize) -> (r: Input<'i>)
        requires
            pos <= bytes@.len(),
        ensures
            r@ == (InputView { text: bytes@, pos: pos as int }),
            r@.wf(),
    {
        Input { bytes, pos }
    }

    /// A cursor over `original_input` without the tabs, line feeds and carriage returns
    /// at its start and end. Appends to `log` what the trimming reports.
    pub fn new_trim_tab_and_newlines(
        original_input: &'i str,
        log: &mut Vec<SyntaxViolation>,
    ) -> (r: Input<'i>)
        ensures
            r@ == (InputView { text: trim(original_input.spec_bytes(), false), pos: 0 }),
            r@.wf(),
            final(log)@ == old(log)@ + trim_violations(original_input.spec_bytes(), false),
    {
        Input::new_trimmed(original_input.as_bytes(), false, log)
    }

    /// A cursor over `original_input` without the C0 controls and spaces at its start and
    /// end. Appends to `log` what the trimming reports.
    pub fn new_trim_c0_control_and_space(
        original_input: &'i str,
        log: &mut Vec<SyntaxViolation>,
    ) -> (r: Input<'i>)
        ensures
            r@ == (InputView { text: trim(original_input.spec_bytes(), true), pos: 0 }),
            r@.wf(),
            final(log)@ == old(log)@ + trim_violations(original_input.spec_bytes(), true),
    {
        Input::new_trimmed(original_input.as_bytes(), true, log)
    }

    /// A cursor over what trimming leaves of `original`.
    pub fn new_trimmed(original: &'i [u8], c0: bool, log: &mut Vec<SyntaxViolation>) -> (r: Input<
        'i,
    >)
        ensures
            r@ == (InputView { text: trim(original@, c0), pos: 0 }),
            r@.wf(),
            final(log)@ == old(log)@ + trim_violations(original@, c0),
    {
        let len = original.len();
        let mut start: usize = 0;
        while start < len && is_trimmed(original[start], c0)
            invariant
                start <= len,
                len == original@.len(),
                trim_start(original@, c0, start as int) == trim_start(original@, c0, 0),
            decreases len - start,
        {
            start += 1;
        }
        let mut end: usize = len;
        while start < end && is_trimmed(original[end - 1], c0)
            invariant
                start <= end <= len,
                len == original@.len(),
                trim_end(original@, c0, start as int, end as int) == trim_end(
                    original@,
                    c0,
                    start as int,
                    len as int,
                ),
            decreases end,
        {
            end -= 1;
        }
        let kept = slice_subrange(original, start, end);
        if end - start < len {
            log.push(SyntaxViolation::C0SpaceIgnored);
        }
        let mut i: usize = 0;
        let mut found = false;
        while i < kept.len()
            invariant
                i <= kept@.len(),
                found == has_tab_or_newline(kept@, 0, i as int),
            decreases kept@.len() - i,
        {
            if is_ignored(kept[i]) {
                found = true;
            }
            i += 1;
        }
        if found {
            log.push(SyntaxViolation::TabOrNewlineIgnored);
        }
        proof {
            assert(log@ =~= old(log)@ + trim_violations(original@, c0));
        }
        Input { bytes: kept, pos: 0 }
    }

    /// The bytes of the whole text.
    pub fn bytes(&self) -> (r: &'i [u8])
        ensures
            r@ == self@.text,
    {
        self.bytes
    }

    /// The index that the cursor stands at.
    pub fn position(&self) -> (r: usize)
        requires
            self@.wf(),
        ensures
            r == self@.pos,
            r <= self@.text.len() <= usize::MAX,
    {
        let len = self.bytes.len();
        self.pos
    }

    /// The same text at index `pos`.
    pub fn at(&self, pos: usize) -> (r: Input<'i>)
        requires
            pos <= self@.text.len(),
        ensures
            r@ == self@.at(pos as int),
            r@.wf(),
    {
        Input { bytes: self.bytes, pos }
    }

    /// The cursor moved to the next byte that is no tab, line feed or carriage return.
    pub fn skipped(&self) -> (r: Input<'i>)
        requires
            self@.wf(),
        ensures
            r@ == self@.at(skip_ignored(self@.text, self@.pos)),
            r@.wf(),
    {
        let bytes = self.bytes;
        let mut pos = self.pos;
        proof {
            lemma_skip_ignored(bytes@, pos as int);
        }
        while pos < bytes.len() && is_ignored(bytes[pos])
            invariant
                pos <= bytes@.len(),
                skip_ignored(bytes@, pos as int) == skip_ignored(bytes@, self.pos as int),
            decreases bytes@.len() - pos,
        {
            pos += 1;
        }
        Input { bytes, pos }
    }

    /// The first byte of the next character, without moving.
    pub fn peek_byte(&self) -> (r: Option<u8>)
        requires
            self@.wf(),
        ensures
            r == peek(self@.text, self@.pos),
    {
        let at = self.skipped();
        if at.pos < at.bytes.len() {
            Some(at.bytes[at.pos])
        } else {
            None
        }
    }

    /// Whether no character is left.
    pub fn is_empty(&self) -> (r: bool)
        requires
            self@.wf(),
        ensures
            r == self@.is_empty(),
    {
        self.peek_byte().is_none()
    }

    /// The next character, with its bytes; the cursor moves behind it.
    pub fn next_utf8(&mut self) -> (r: Option<(char, &'i [u8])>)
        requires
            old(self)@.wf(),
        ensures
            final(self)@ == old(self)@.at(after_next(old(self)@.text, old(self)@.pos)),
            final(self)@.wf(),
            r is Some <==> peek(old(self)@.text, old(self)@.pos) is Some,
            r matches Some((c, utf8)) ==> Some(c) == peek_char(old(self)@.text, old(self)@.pos)
                && utf8@ == old(self)@.text.subrange(
                skip_ignored(old(self)@.text, old(self)@.pos),
                final(self)@.pos,
            ),
    {
        let at = self.skipped();
        if at.pos < at.bytes.len() {
            let (c, w) = decode_char(at.bytes, at.pos);
            let utf8 = slice_subrange(at.bytes, at.pos, at.pos + w);
            self.pos = at.pos + w;
            Some((c, utf8))
        } else {
            self.pos = at.pos;
            None
        }
    }

    /// The next character; the cursor moves behind it.
    pub fn next(&mut self) -> (r: Option<char>)
        requires
            old(self)@.wf(),
        ensures
            final(self)@ == old(self)@.at(after_next(old(self)@.text, old(self)@.pos)),
            final(self)@.wf(),
            r == peek_char(old(self)@.text, old(self)@.pos),
    {
        match self.next_utf8() {
            Some((c, _)) => Some(c),
            None => None,
        }
    }

    /// The next character, and the cursor behind it.
    pub fn split_first(&self) -> (r: (Option<char>, Input<'i>))
        requires
            self@.wf(),
        ensures
            r.0 == peek_char(self@.text, self@.pos),
            r.1@ == self@.at(after_next(self@.text, self@.pos)),
            r.1@.wf(),
    {
        let mut remaining = *self;
        let c = remaining.next();
        (c, remaining)
    }

    /// The cursor behind the next character.
    pub fn advanced(&self) -> (r: Input<'i>)
        requires
            self@.wf(),
        ensures
            r@ == self@.at(after_next(self@.text, self@.pos)),
            r@.wf(),
    {
        self.split_first().1
    }
}

fn is_trimmed(b: u8, c0: bool) -> (r: bool)
    ensures
        r == trimmed(b, c0),
{
    if c0 {
        b <= 0x20
    } else {
        is_ignored(b)
    }
}

fn is_ignored(b: u8) -> (r: bool)
    ensures
        r == is_tab_or_newline(b),
{
    b == 0x09 || b == 0x0a || b == 0x0d
}


/// The index behind the characters of `p` from index `k` on, where they stand in `s`
/// from `i` on, tabs and newlines of `s` passed over; `None` where they do not.
pub open spec fn text_prefix_end(p: Seq<u8>, k: int, s: Seq<u8>, i: int) -> Option<int>
    decreases p.len() + 4 - k,
{
    if k < 0 || k >= p.len() {
        Some(i)
    } else if peek_char(s, i) == Some(char_at(p, k)) {
        text_prefix_end(p, k + char_width(p, k), s, after_next(s, i))
    } else {
        None
    }
}

/// What can stand at the start of the input: a character, a text, or a character of a
/// class that a predicate tells.
pub trait Pattern: Sized {
    /// Whether the pattern can be tried on an input.
    spec fn usable(self) -> bool;

    /// Whether the pattern may be found in `s` from index `i` to index `end`.
    spec fn accepts(self, s: Seq<u8>, i: int, end: int) -> bool;

    /// Whether the pattern may be missed in `s` at index `i`.
    spec fn rejects(self, s: Seq<u8>, i: int) -> bool;

    /// Tries the pattern at the cursor: whether it stands there. The cursor moves behind
    /// it where it does, and stands anywhere where it does not.
    fn split_prefix(self, input: &mut Input) -> (r: bool)
        requires
            self.usable(),
            old(input)@.wf(),
        ensures
            final(input)@.wf(),
            final(input)@.text == old(input)@.text,
            r ==> self.accepts(old(input)@.text, old(input)@.pos, final(input)@.pos),
            !r ==> self.rejects(old(input)@.text, old(input)@.pos),
    ;
}

impl Pattern for char {
    open spec fn usable(self) -> bool {
        true
    }

    open spec fn accepts(self, s: Seq<u8>, i: int, end: int) -> bool {
        peek_char(s, i) == Some(self) && end == after_next(s, i)
    }

    open spec fn rejects(self, s: Seq<u8>, i: int) -> bool {
        peek_char(s, i) != Some(self)
    }

    fn split_prefix(self, input: &mut Input) -> (r: bool) {
        match input.next() {
            Some(c) => c == self,
            None => false,
        }
    }
}

impl Pattern for &str {
    open spec fn usable(self) -> bool {
        true
    }

    open spec fn accepts(self, s: Seq<u8>, i: int, end: int) -> bool {
        text_prefix_end(self.spec_bytes(), 0, s, i) == Some(end)
    }

    open spec fn rejects(self, s: Seq<u8>, i: int) -> bool {
        text_prefix_end(self.spec_bytes(), 0, s, i) is None
    }

    fn split_prefix(self, input: &mut Input) -> (r: bool) {
        let p = self.as_bytes();
        let mut k: usize = 0;
        let ghost s = input@.text;
        let ghost start = input@.pos;
        while k < p.len()
            invariant
                k <= p@.len(),
                p@ == self.spec_bytes(),
                input@.wf(),
                input@.text == s,
                s == old(input)@.text,
                start == old(input)@.pos,
                text_prefix_end(p@, 0, s, start) == text_prefix_end(p@, k as int, s, input@.pos),
            decreases p@.len() - k,
        {
            let (c, w) = decode_char(p, k);
            match input.next() {
                Some(d) => {
                    if d != c {
                        return false;
                    }
                },
                None => {
                    return false;
                },
            }
            k += w;
        }
        true
    }
}

impl<F: Fn(char) -> bool> Pattern for F {
    open spec fn usable(self) -> bool {
        forall|c: char| call_requires(self, (c,))
    }

    open spec fn accepts(self, s: Seq<u8>, i: int, end: int) -> bool {
        peek_char(s, i) matches Some(c) && call_ensures(self, (c,), true) && end == after_next(s, i)
    }

    open spec fn rejects(self, s: Seq<u8>, i: int) -> bool {
        peek_char(s, i) matches Some(c) ==> call_ensures(self, (c,), false)
    }

    fn split_prefix(self, input: &mut Input) -> (r: bool) {
        match input.next() {
            Some(c) => self(c),
            None => false,
        }
    }
}

/// Whether `f` may hold of each of the `n` characters that stand in `s` from `i` to
/// `end`, tabs and newlines passed over.
pub open spec fn holds_of_run<F: Fn(char) -> bool>(f: F, s: Seq<u8>, i: int, end: int, n: int) -> bool
    decreases n,
{
    if n <= 0 {
        n == 0 && i == end
    } else {
        peek_char(s, i) matches Some(c) && call_ensures(f, (c,), true) && holds_of_run(
            f,
            s,
            after_next(s, i),
            end,
            n - 1,
        )
    }
}

/// A run of which `f` holds goes on with a character of which it holds.
pub proof fn lemma_holds_of_run_grows<F: Fn(char) -> bool>(
    f: F,
    s: Seq<u8>,
    i: int,
    end: int,
    n: int,
)
    requires
        0 <= n,
        holds_of_run(f, s, i, end, n),
        peek_char(s, end) matches Some(c) && call_ensures(f, (c,), true),
    ensures
        holds_of_run(f, s, i, after_next(s, end), n + 1),
    decreases n,
{
    if n > 0 {
        lemma_holds_of_run_grows(f, s, after_next(s, i), end, n - 1);
    } else {
        assert(holds_of_run(f, s, after_next(s, end), after_next(s, end), 0));
    }
}

/// The number of `/` and `\` that stand in `s` from `i` on, tabs and newlines passed
/// over.
pub open spec fn separators(s: Seq<u8>, i: int) -> int
    decreases s.len() - i,
{
    if i < 0 || i >= s.len() {
        0
    } else if is_tab_or_newline(s[i]) {
        separators(s, i + 1)
    } else if s[i] == 0x2f || s[i] == 0x5c {
        1 + separators(s, i + 1)
    } else {
        0
    }
}

/// The index behind the `/` and `\` that stand in `s` from `i` on: behind the last of
/// them.
pub open spec fn separators_end(s: Seq<u8>, i: int, last: int) -> int
    decreases s.len() - i,
{
    if i < 0 || i >= s.len() {
        last
    } else if is_tab_or_newline(s[i]) {
        separators_end(s, i + 1, last)
    } else if s[i] == 0x2f || s[i] == 0x5c {
        separators_end(s, i + 1, i + 1)
    } else {
        last
    }
}

/// Whether the `/` and `\` that stand in `s` from `i` on are exactly `//`.
pub open spec fn separators_are_two_slashes(s: Seq<u8>, i: int) -> bool {
    let first = skip_ignored(s, i);
    let second = skip_ignored(s, first + 1);
    separators(s, i) == 2 && 0 <= first < s.len() && s[first] == 0x2f && 0 <= second < s.len()
        && s[second] == 0x2f
}

impl<'i> Input<'i> {
    /// Whether the pattern `p` stands at the cursor.
    pub fn starts_with<P: Pattern>(&self, p: P) -> (r: bool)
        requires
            p.usable(),
            self@.wf(),
        ensures
            r ==> exists|end: int| p.accepts(self@.text, self@.pos, end),
            !r ==> p.rejects(self@.text, self@.pos),
    {
        let mut probe = *self;
        p.split_prefix(&mut probe)
    }

    /// The cursor behind the pattern `p`, where `p` stands at the cursor.
    pub fn split_prefix<P: Pattern>(&self, p: P) -> (r: Option<Input<'i>>)
        requires
            p.usable(),
            self@.wf(),
        ensures
            r matches Some(rest) ==> rest@.wf() && rest@.text == self@.text && p.accepts(
                self@.text,
                self@.pos,
                rest@.pos,
            ),
            r is None ==> p.rejects(self@.text, self@.pos),
    {
        let mut remaining = *self;
        if p.split_prefix(&mut remaining) {
            Some(remaining)
        } else {
            None
        }
    }

    /// Whether the byte `b`, which is ASCII, is the next character.
    pub fn starts_with_byte(&self, b: u8) -> (r: bool)
        requires
            self@.wf(),
        ensures
            r == (peek(self@.text, self@.pos) == Some(b)),
    {
        match self.peek_byte() {
            Some(c) => c == b,
            None => false,
        }
    }

    /// The number of `/` and `\` at the cursor, and the cursor behind them.
    pub fn count_separators(&self) -> (r: (usize, Input<'i>))
        requires
            self@.wf(),
        ensures
            r.0 == separators(self@.text, self@.pos),
            r.1@ == self@.at(separators_end(self@.text, self@.pos, self@.pos)),
            r.1@.wf(),
    {
        let bytes = self.bytes;
        let mut count: usize = 0;
        let mut i = self.pos;
        let mut last = self.pos;
        let ghost s = bytes@;
        while i < bytes.len()
            invariant
                self.pos <= last <= i <= s.len(),
                s == bytes@,
                count <= i - self.pos,
                count + separators(s, i as int) == separators(s, self.pos as int),
                separators_end(s, i as int, last as int) == separators_end(
                    s,
                    self.pos as int,
                    self.pos as int,
                ),
            ensures
                self.pos <= last <= s.len(),
                count == separators(s, self.pos as int),
                last == separators_end(s, self.pos as int, self.pos as int),
            decreases s.len() - i,
        {
            let b = bytes[i];
            if is_ignored(b) {
            } else if b == 0x2f || b == 0x5c {
                count += 1;
                last = i + 1;
            } else {
                break ;
            }
            i += 1;
        }
        (count, Input { bytes, pos: last })
    }

    /// The number of characters at the cursor that `f` holds of, and the cursor behind
    /// them.
    pub fn count_matching<F: Fn(char) -> bool>(&self, f: F) -> (r: (u32, Input<'i>))
        requires
            self@.wf(),
            forall|c: char| call_requires(f, (c,)),
            self@.text.len() <= u32::MAX,
        ensures
            r.1@.wf(),
            r.1@.text == self@.text,
            self@.pos <= r.1@.pos,
            holds_of_run(f, self@.text, self@.pos, r.1@.pos, r.0 as int),
            peek_char(r.1@.text, r.1@.pos) matches Some(c) ==> call_ensures(f, (c,), false),
    {
        let mut count: u32 = 0;
        let mut remaining = *self;
        loop
            invariant
                remaining@.wf(),
                remaining@.text == self@.text,
                self@.pos <= remaining@.pos,
                count <= remaining@.pos - self@.pos,
                self@.text.len() <= u32::MAX,
                forall|c: char| call_requires(f, (c,)),
                holds_of_run(f, self@.text, self@.pos, remaining@.pos, count as int),
            ensures
                remaining@.wf(),
                remaining@.text == self@.text,
                self@.pos <= remaining@.pos,
                holds_of_run(f, self@.text, self@.pos, remaining@.pos, count as int),
                peek_char(remaining@.text, remaining@.pos) matches Some(c) ==> call_ensures(
                    f,
                    (c,),
                    false,
                ),
            decreases remaining@.text.len() - remaining@.pos,
        {
            let mut input = remaining;
            proof {
                lemma_skip_ignored(remaining@.text, remaining@.pos);
                crate::chars::lemma_char_at_ascii(
                    remaining@.text,
                    skip_ignored(remaining@.text, remaining@.pos),
                );
            }
            match input.next() {
                Some(c) => {
                    if f(c) {
                        proof {
                            lemma_holds_of_run_grows(
                                f,
                                self@.text,
                                self@.pos,
                                remaining@.pos,
                                count as int,
                            );
                        }
                        remaining = input;
                        count += 1;
                    } else {
                        break ;
                    }
                },
                None => {
                    break ;
                },
            }
        }
        (count, remaining)
    }
}

} // verus!
