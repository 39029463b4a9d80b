//! Percent-encoding and percent-decoding of byte strings.

use vstd::prelude::*;
use vstd::string::{StringExecFns, StringSliceAdditionalSpecFns};
use vstd::slice::{slice_subrange, slice_to_vec};
use vstd::utf8::{decode_utf8, valid_utf8};
use std::borrow::Cow;
use std::str::Utf8Error;
use crate::ascii_set::AsciiSet;
use crate::escape_table::percent_encode_byte;
use crate::text::{lemma_ascii_is_utf8, lemma_ascii_text, utf8_lossy};

verus! {

/// The text whose characters are the given ASCII bytes, one for one.
pub open spec fn as_text(bytes: Seq<u8>) -> Seq<char> {
    Seq::new(bytes.len(), |i: int| bytes[i] as char)
}

/// The upper-case hexadecimal digit for `d < 16`, as an ASCII byte.
pub open spec fn upper_hex_digit(d: u8) -> u8 {
    if d < 10 {
        (0x30 + d) as u8
    } else {
        (0x37 + d) as u8
    }
}

/// The escape of `b`: `%`, then its high and its low hexadecimal digit.
pub open spec fn escape(b: u8) -> Seq<u8> {
    seq![0x25u8, upper_hex_digit(b / 16), upper_hex_digit(b % 16)]
}

/// Whether `b` is escaped under `set`: every byte outside ASCII is, and the members of `set`.
pub open spec fn escapes(set: Set<u8>, b: u8) -> bool {
    b >= 128 || set.contains(b)
}

/// What the encoder writes for one byte.
pub open spec fn encode_one(b: u8, set: Set<u8>) -> Seq<u8> {
    if escapes(set, b) {
        escape(b)
    } else {
        seq![b]
    }
}

/// The percent-encoding of `bytes` under `set`: the encodings of its bytes, in order.
pub open spec fn encode(bytes: Seq<u8>, set: Set<u8>) -> Seq<u8>
    decreases bytes.len(),
{
    if bytes.len() == 0 {
        Seq::<u8>::empty()
    } else {
        encode(bytes.drop_last(), set) + encode_one(bytes.last(), set)
    }
}

/// The value of a hexadecimal digit given as an ASCII byte, in either case.
pub open spec fn hex_value(b: u8) -> Option<u8> {
    if 0x30 <= b <= 0x39 {
        Some((b - 0x30) as u8)
    } else if 0x41 <= b <= 0x46 {
        Some((b - 0x37) as u8)
    } else if 0x61 <= b <= 0x66 {
        Some((b - 0x57) as u8)
    } else {
        None
    }
}

/// The byte that the escape at index `i` of `s` stands for, where `s` holds `%` and two
/// hexadecimal digits there.
pub open spec fn escaped_at(s: Seq<u8>, i: int) -> Option<u8> {
    if 0 <= i && i + 2 < s.len() && s[i] == 0x25 && hex_value(s[i + 1]) is Some && hex_value(
        s[i + 2],
    ) is Some {
        Some((hex_value(s[i + 1])->0 * 16 + hex_value(s[i + 2])->0) as u8)
    } else {
        None
    }
}

/// The percent-decoding of `s` from index `i` on: an escape gives the byte it stands for,
/// every other byte gives itself.
pub open spec fn decode_from(s: Seq<u8>, i: int) -> Seq<u8>
    decreases s.len() - i,
{
    if i < 0 || i >= s.len() {
        Seq::<u8>::empty()
    } else {
        match escaped_at(s, i) {
            Some(v) => seq![v] + decode_from(s, i + 3),
            None => seq![s[i]] + decode_from(s, i + 1),
        }
    }
}

/// The percent-decoding of `s`.
pub open spec fn decode(s: Seq<u8>) -> Seq<u8> {
    decode_from(s, 0)
}

/// Whether some escape stands in `s`.
pub open spec fn has_escape(s: Seq<u8>) -> bool {
    exists|i: int| (#[trigger] escaped_at(s, i)) is Some
}

/// The number of bytes at the start of `s`, from index `i` on, that `set` leaves unescaped.
pub open spec fn plain_run_end(s: Seq<u8>, set: Set<u8>, i: int) -> int
    decreases s.len() - i,
{
    if i < 0 || i >= s.len() || escapes(set, s[i]) {
        i
    } else {
        plain_run_end(s, set, i + 1)
    }
}

/// The number of input bytes that the first fragment of the encoding of `s` covers: one
/// escaped byte, or the longest run of unescaped bytes.
pub open spec fn first_fragment_len(s: Seq<u8>, set: Set<u8>) -> int {
    if s.len() == 0 {
        0
    } else if escapes(set, s[0]) {
        1
    } else {
        plain_run_end(s, set, 0)
    }
}

pub proof fn lemma_plain_run_end(s: Seq<u8>, set: Set<u8>, i: int)
    requires
        0 <= i <= s.len(),
    ensures
        i <= plain_run_end(s, set, i) <= s.len(),
        forall|k: int| i <= k < plain_run_end(s, set, i) ==> !escapes(set, #[trigger] s[k]),
        plain_run_end(s, set, i) < s.len() ==> escapes(set, s[plain_run_end(s, set, i)]),
    decreases s.len() - i,
{
    if i < s.len() && !escapes(set, s[i]) {
        lemma_plain_run_end(s, set, i + 1);
    }
}

/// Encoding goes byte by byte, so it distributes over concatenation.
pub proof fn lemma_encode_concat(a: Seq<u8>, b: Seq<u8>, set: Set<u8>)
    ensures
        encode(a + b, set) == encode(a, set) + encode(b, set),
    decreases b.len(),
{
    if b.len() == 0 {
        assert(a + b =~= a);
        assert(encode(a, set) + encode(b, set) =~= encode(a, set));
    } else {
        assert((a + b).drop_last() =~= a + b.drop_last());
        assert((a + b).last() == b.last());
        lemma_encode_concat(a, b.drop_last(), set);
        assert(encode(a + b, set) =~= encode(a, set) + encode(b, set));
    }
}

/// The encoding of a single byte.
pub proof fn lemma_encode_single(b: u8, set: Set<u8>)
    ensures
        encode(seq![b], set) == encode_one(b, set),
{
    let s = seq![b];
    assert(s.drop_last() =~= Seq::<u8>::empty());
    assert(encode(s.drop_last(), set) =~= Seq::<u8>::empty());
    assert(encode(s, set) =~= encode_one(b, set));
}

/// Bytes that `set` leaves alone encode to themselves.
pub proof fn lemma_encode_plain(s: Seq<u8>, set: Set<u8>)
    requires
        forall|k: int| 0 <= k < s.len() ==> !escapes(set, #[trigger] s[k]),
    ensures
        encode(s, set) == s,
    decreases s.len(),
{
    if s.len() > 0 {
        lemma_encode_plain(s.drop_last(), set);
        assert(encode(s, set) =~= s);
    }
}

/// Text of one character per byte, as that of ASCII bytes is, splits where the bytes do.
pub proof fn lemma_as_text_concat(a: Seq<u8>, b: Seq<u8>)
    ensures
        as_text(a + b) == as_text(a) + as_text(b),
{
    assert(as_text(a + b) =~= as_text(a) + as_text(b));
}

/// The first fragment covers a prefix of the input, and is what that prefix encodes to.
pub proof fn lemma_first_fragment(s: Seq<u8>, set: Set<u8>)
    requires
        s.len() > 0,
    ensures
        0 < first_fragment_len(s, set) <= s.len(),
        escapes(set, s[0]) ==> encode(s.take(first_fragment_len(s, set)), set) == escape(s[0]),
        !escapes(set, s[0]) ==> encode(s.take(first_fragment_len(s, set)), set) == s.take(
            first_fragment_len(s, set),
        ),
        encode(s, set) == encode(s.take(first_fragment_len(s, set)), set) + encode(
            s.skip(first_fragment_len(s, set)),
            set,
        ),
{
    let n = first_fragment_len(s, set);
    if escapes(set, s[0]) {
        assert(s.take(1) =~= seq![s[0]]);
        lemma_encode_single(s[0], set);
    } else {
        lemma_plain_run_end(s, set, 0);
        lemma_plain_run_end(s, set, 1);
        lemma_encode_plain(s.take(n), set);
    }
    assert(s =~= s.take(n) + s.skip(n));
    lemma_encode_concat(s.take(n), s.skip(n), set);
}

/// A lazy percent-encoder: the bytes still to encode, and the set that says which of
/// them are escaped.
#[derive(Debug, Clone, PartialEq, Eq)]
pub struct PercentEncode<'a> {
    bytes: &'a [u8],
    ascii_set: &'static AsciiSet,
}

/// Percent-encodes `input` under `ascii_set`: bytes outside ASCII and members of the set
/// are escaped, all others are kept.
pub fn percent_encode<'a>(input: &'a [u8], ascii_set: &'static AsciiSet) -> (r: PercentEncode<'a>)
    ensures
        r.remaining() == input@,
        r.set() == ascii_set@,
{
    PercentEncode { bytes: input, ascii_set }
}

/// Percent-encodes the UTF-8 encoding of `input` under `ascii_set`.
pub fn utf8_percent_encode<'a>(input: &'a str, ascii_set: &'static AsciiSet) -> (r: PercentEncode<
    'a,
>)
    ensures
        r.remaining() == input.spec_bytes(),
        r.set() == ascii_set@,
{
    percent_encode(input.as_bytes(), ascii_set)
}

impl<'a> PercentEncode<'a> {
    /// The bytes that are still to be encoded.
    pub closed spec fn remaining(&self) -> Seq<u8> {
        self.bytes@
    }

    /// The members of the set that the encoder goes by.
    pub closed spec fn set(&self) -> Set<u8> {
        self.ascii_set@
    }

    /// The encoding of the bytes that are still to be encoded.
    pub open spec fn encoding(&self) -> Seq<u8> {
        encode(self.remaining(), self.set())
    }

    /// The next fragment of the encoding: the escape of one byte, or the longest run of
    /// bytes that stay as they are; `None` once the input is used up.
    pub fn next(&mut self) -> (r: Option<&'a str>)
        ensures
            final(self).set() == old(self).set(),
            old(self).remaining().len() == 0 ==> r is None && final(self).remaining() == old(
                self,
            ).remaining(),
            old(self).remaining().len() > 0 ==> r is Some && ({
                let n = first_fragment_len(old(self).remaining(), old(self).set());
                &&& r->0@ == as_text(encode(old(self).remaining().take(n), old(self).set()))
                &&& final(self).remaining() == old(self).remaining().skip(n)
            }),
    {
        let bytes = self.bytes;
        let len = bytes.len();
        if len == 0 {
            return None;
        }
        let first = bytes[0];
        proof {
            lemma_first_fragment(bytes@, self.ascii_set@);
            lemma_plain_run_end(bytes@, self.ascii_set@, 0);
        }
        if self.ascii_set.should_percent_encode(first) {
            self.bytes = slice_subrange(bytes, 1, len);
            Some(percent_encode_byte(first))
        } else {
            let mut i: usize = 1;
            while i < len && !self.ascii_set.should_percent_encode(bytes[i])
                invariant
                    1 <= i <= len,
                    len == bytes@.len(),
                    plain_run_end(bytes@, self.ascii_set@, 0) == plain_run_end(
                        bytes@,
                        self.ascii_set@,
                        i as int,
                    ),
                    forall|k: int| 0 <= k < i ==> !escapes(self.ascii_set@, #[trigger] bytes@[k]),
                decreases len - i,
            {
                i += 1;
            }
            let run = slice_subrange(bytes, 0, i);
            self.bytes = slice_subrange(bytes, i, len);
            proof {
                lemma_ascii_is_utf8(run@);
            }
            match core::str::from_utf8(run) {
                Ok(text) => {
                    proof {
                        lemma_ascii_text(text@, run@);
                        assert(text@ =~= as_text(run@));
                    }
                    Some(text)
                },
                Err(_) => Some(""),
            }
        }
    }

    /// Bounds on the number of fragments still to come: none for no input; else at least
    /// one, and at most one for each byte.
    pub fn size_hint(&self) -> (r: (usize, Option<usize>))
        ensures
            self.remaining().len() == 0 ==> r == (0usize, Some(0usize)),
            self.remaining().len() > 0 ==> r == (1usize, Some(self.remaining().len() as usize)),
    {
        if self.bytes.len() == 0 {
            (0, Some(0))
        } else {
            (1, Some(self.bytes.len()))
        }
    }

    /// The whole encoding as owned text.
    pub fn to_string(&self) -> (r: String)
        ensures
            r@ == as_text(self.encoding()),
    {
        let mut out = String::new();
        let mut rest = PercentEncode { bytes: self.bytes, ascii_set: self.ascii_set };
        proof {
            assert(out@ + as_text(rest.encoding()) =~= as_text(self.encoding()));
        }
        loop
            invariant
                rest.set() == self.set(),
                out@ + as_text(rest.encoding()) == as_text(self.encoding()),
            decreases rest.remaining().len(),
        {
            let ghost before = rest;
            let ghost out_before = out@;
            match rest.next() {
                Some(fragment) => {
                    out.append(fragment);
                    proof {
                        let s = before.remaining();
                        let n = first_fragment_len(s, self.set());
                        lemma_first_fragment(s, self.set());
                        lemma_as_text_concat(
                            encode(s.take(n), self.set()),
                            encode(s.skip(n), self.set()),
                        );
                        assert(out@ + as_text(rest.encoding()) =~= out_before + as_text(
                            before.encoding(),
                        ));
                    }
                },
                None => {
                    proof {
                        assert(rest.encoding() =~= Seq::<u8>::empty());
                        assert(out@ =~= as_text(self.encoding()));
                    }
                    return out;
                },
            }
        }
    }
}


impl<'a> vstd::std_specs::convert::FromSpecImpl<PercentEncode<'a>> for Cow<'a, str> {
    open spec fn obeys_from_spec() -> bool {
        false
    }

    open spec fn from_spec(v: PercentEncode<'a>) -> Cow<'a, str> {
        arbitrary()
    }
}

impl<'a> From<PercentEncode<'a>> for Cow<'a, str> {
    /// The whole encoding as text, borrowed where it is a single fragment: where no byte
    /// is escaped, and where the input is a single byte.
    fn from(iter: PercentEncode<'a>) -> (r: Cow<'a, str>)
        ensures
            r@ == as_text(iter.encoding()),
            (r matches Cow::Borrowed(_)) <==> (iter.remaining().len() <= 1 || forall|k: int|
                0 <= k < iter.remaining().len() ==> !escapes(
                    iter.set(),
                    #[trigger] iter.remaining()[k],
                )),
    {
        let mut iter = iter;
        let ghost start = iter;
        let ghost s = start.remaining();
        let ghost set = start.set();
        match iter.next() {
            None => {
                proof {
                    reveal_strlit("");
                    assert(as_text(start.encoding()) =~= ""@);
                }
                Cow::Borrowed("")
            },
            Some(first) => {
                let ghost n = first_fragment_len(s, set);
                proof {
                    lemma_first_fragment(s, set);
                    lemma_plain_run_end(s, set, 0);
                    lemma_as_text_concat(encode(s.take(n), set), encode(s.skip(n), set));
                }
                let ghost middle = iter;
                match iter.next() {
                    None => {
                        proof {
                            assert(s.skip(n).len() == 0);
                            assert(encode(s.skip(n), set) =~= Seq::<u8>::empty());
                            assert(first@ =~= as_text(start.encoding()));
                        }
                        Cow::Borrowed(first)
                    },
                    Some(second) => {
                        let mut string = first.to_owned();
                        string.append(second);
                        let tail = iter.to_string();
                        string.append(tail.as_str());
                        proof {
                            let t = s.skip(n);
                            let m = first_fragment_len(t, set);
                            lemma_first_fragment(t, set);
                            lemma_as_text_concat(encode(t.take(m), set), encode(t.skip(m), set));
                            assert(string@ =~= as_text(start.encoding()));
                            assert(n < s.len());
                            if !escapes(set, s[0]) {
                                assert(escapes(set, s[n]));
                            }
                        }
                        Cow::Owned(string)
                    },
                }
            },
        }
    }
}

/// The value of the hexadecimal digit `b`, in either case.
pub fn hex_digit(b: u8) -> (r: Option<u8>)
    ensures
        r == hex_value(b),
{
    if 0x30 <= b && b <= 0x39 {
        Some(b - 0x30)
    } else if 0x41 <= b && b <= 0x46 {
        Some(b - 0x37)
    } else if 0x61 <= b && b <= 0x66 {
        Some(b - 0x57)
    } else {
        None
    }
}

/// Reads the two hexadecimal digits of an escape from the bytes that follow its percent
/// sign: the byte they stand for and the bytes after them, or `None` where `rest` does
/// not start with two such digits.
pub fn after_percent_sign<'a>(rest: &'a [u8]) -> (r: Option<(u8, &'a [u8])>)
    ensures
        r is Some <==> (rest@.len() >= 2 && hex_value(rest@[0]) is Some && hex_value(
            rest@[1],
        ) is Some),
        r matches Some((v, tail)) ==> v == hex_value(rest@[0])->0 * 16 + hex_value(rest@[1])->0
            && tail@ == rest@.skip(2),
{
    if rest.len() < 2 {
        return None;
    }
    let h = match hex_digit(rest[0]) {
        Some(h) => h,
        None => {
            return None;
        },
    };
    let l = match hex_digit(rest[1]) {
        Some(l) => l,
        None => {
            return None;
        },
    };
    Some((h * 0x10 + l, slice_subrange(rest, 2, rest.len())))
}

/// Decoding from index `k` on is decoding what is left from there.
pub proof fn lemma_decode_skip(s: Seq<u8>, k: int, j: int)
    requires
        0 <= k <= s.len(),
        0 <= j,
    ensures
        decode_from(s.skip(k), j) == decode_from(s, k + j),
    decreases s.len() - k - j,
{
    let t = s.skip(k);
    assert(t.len() == s.len() - k);
    if j < t.len() {
        assert(escaped_at(t, j) == escaped_at(s, k + j));
        if escaped_at(s, k + j) is Some {
            lemma_decode_skip(s, k, j + 3);
        } else {
            lemma_decode_skip(s, k, j + 1);
        }
    }
}

/// Up to the first escape, decoding copies.
pub proof fn lemma_decode_plain_prefix(s: Seq<u8>, i: int)
    requires
        0 <= i <= s.len(),
        forall|k: int| 0 <= k < i ==> (#[trigger] escaped_at(s, k)) is None,
    ensures
        decode(s) == s.take(i) + decode_from(s, i),
    decreases i,
{
    if i == 0 {
        assert(s.take(0) + decode_from(s, 0) =~= decode_from(s, 0));
    } else {
        lemma_decode_plain_prefix(s, i - 1);
        assert(escaped_at(s, i - 1) is None);
        assert(s.take(i - 1) + (seq![s[i - 1]] + decode_from(s, i)) =~= s.take(i) + decode_from(
            s,
            i,
        ));
    }
}

/// A lazy percent-decoder: the bytes still to decode.
#[derive(Clone, Debug)]
pub struct PercentDecode<'a> {
    bytes: &'a [u8],
}

/// Percent-decodes the UTF-8 encoding of `input`.
pub fn percent_decode_str<'a>(input: &'a str) -> (r: PercentDecode<'a>)
    ensures
        r.remaining() == input.spec_bytes(),
{
    percent_decode(input.as_bytes())
}

/// Percent-decodes `input`: every percent sign with two hexadecimal digits behind it
/// gives the byte they stand for, every other byte gives itself.
pub fn percent_decode<'a>(input: &'a [u8]) -> (r: PercentDecode<'a>)
    ensures
        r.remaining() == input@,
{
    PercentDecode { bytes: input }
}

/// Appends the percent-decoding of `bytes` to `out`.
pub fn decode_into(out: &mut Vec<u8>, bytes: &[u8])
    ensures
        final(out)@ == old(out)@ + decode(bytes@),
{
    let mut rest = PercentDecode { bytes };
    proof {
        assert(out@ + decode(rest.remaining()) =~= old(out)@ + decode(bytes@));
    }
    loop
        invariant
            out@ + decode(rest.remaining()) == old(out)@ + decode(bytes@),
        decreases rest.remaining().len(),
    {
        let ghost before = rest.remaining();
        let ghost out_before = out@;
        match rest.next() {
            Some(b) => {
                out.push(b);
                proof {
                    if escaped_at(before, 0) is Some {
                        lemma_decode_skip(before, 3, 0);
                    } else {
                        lemma_decode_skip(before, 1, 0);
                    }
                    assert(out@ + decode(rest.remaining()) =~= out_before + decode(before));
                }
            },
            None => {
                proof {
                    assert(out@ =~= old(out)@ + decode(bytes@));
                }
                return ;
            },
        }
    }
}

impl<'a> PercentDecode<'a> {
    /// The bytes that are still to be decoded.
    pub closed spec fn remaining(&self) -> Seq<u8> {
        self.bytes@
    }

    /// The next decoded byte, or `None` once the input is used up. An escape is consumed
    /// whole; a percent sign that starts none is an ordinary byte.
    pub fn next(&mut self) -> (r: Option<u8>)
        ensures
            old(self).remaining().len() == 0 ==> r is None && final(self).remaining() == old(
                self,
            ).remaining(),
            old(self).remaining().len() > 0 ==> (match escaped_at(old(self).remaining(), 0) {
                Some(v) => r == Some(v) && final(self).remaining() == old(self).remaining().skip(
                    3,
                ),
                None => r == Some(old(self).remaining()[0]) && final(self).remaining() == old(
                    self,
                ).remaining().skip(1),
            }),
    {
        let bytes = self.bytes;
        let len = bytes.len();
        if len == 0 {
            return None;
        }
        let byte = bytes[0];
        let rest = slice_subrange(bytes, 1, len);
        if byte == 0x25 {
            match after_percent_sign(rest) {
                Some((v, tail)) => {
                    proof {
                        assert(tail@ =~= bytes@.skip(3));
                    }
                    self.bytes = tail;
                    return Some(v);
                },
                None => {},
            }
        }
        self.bytes = rest;
        Some(byte)
    }

    /// Bounds on the number of bytes still to come: each takes one to three bytes of
    /// input.
    pub fn size_hint(&self) -> (r: (usize, Option<usize>))
        ensures
            r.0 == (self.remaining().len() + 2) / 3,
            r.1 == Some(self.remaining().len() as usize),
            r.0 <= decode(self.remaining()).len() <= self.remaining().len(),
    {
        let n = self.bytes.len();
        proof {
            lemma_decode_len(self.bytes@, 0);
        }
        (n / 3 + (if n % 3 == 0 { 0 } else { 1 }), Some(n))
    }

    /// The whole decoding as owned bytes.
    pub fn to_vec(&self) -> (r: Vec<u8>)
        ensures
            r@ == decode(self.remaining()),
    {
        let mut out = Vec::new();
        decode_into(&mut out, self.bytes);
        proof {
            assert(out@ =~= decode(self.remaining()));
        }
        out
    }

    /// The decoding, where it differs from the input: `None` exactly where the input
    /// holds no escape, and is its own decoding.
    pub fn if_any(&self) -> (r: Option<Vec<u8>>)
        ensures
            r is Some <==> has_escape(self.remaining()),
            r matches Some(v) ==> v@ == decode(self.remaining()),
            r is None ==> decode(self.remaining()) == self.remaining(),
    {
        let bytes = self.bytes;
        let len = bytes.len();
        let mut i: usize = 0;
        while i < len
            invariant
                i <= len,
                len == bytes@.len(),
                bytes@ == self.remaining(),
                forall|k: int| 0 <= k < i ==> (#[trigger] escaped_at(bytes@, k)) is None,
            decreases len - i,
        {
            if bytes[i] == 0x25 {
                match after_percent_sign(slice_subrange(bytes, i + 1, len)) {
                    Some((v, tail)) => {
                        let mut decoded = slice_to_vec(slice_subrange(bytes, 0, i));
                        decoded.push(v);
                        decode_into(&mut decoded, tail);
                        proof {
                            let s = bytes@;
                            assert(escaped_at(s, i as int) == Some(v));
                            lemma_decode_plain_prefix(s, i as int);
                            assert(tail@ =~= s.skip(i + 3));
                            lemma_decode_skip(s, i + 3, 0);
                            assert(decoded@ =~= decode(s));
                        }
                        return Some(decoded);
                    },
                    None => {},
                }
            }
            i += 1;
        }
        proof {
            let s = bytes@;
            lemma_decode_plain_prefix(s, len as int);
            assert(s.take(len as int) + decode_from(s, len as int) =~= s);
            assert forall|k: int| (#[trigger] escaped_at(s, k)) is None by {
                if 0 <= k < len {
                }
            }
        }
        None
    }

    /// The decoding as UTF-8 text, or the error of the first ill-formed sequence. The text
    /// borrows the input exactly where that holds no escape.
    pub fn decode_utf8(self) -> (r: Result<Cow<'a, str>, Utf8Error>)
        ensures
            r is Ok <==> valid_utf8(decode(self.remaining())),
            r matches Ok(text) ==> text@ == decode_utf8(decode(self.remaining())) && ((
            text matches Cow::Borrowed(_)) <==> !has_escape(self.remaining())),
    {
        match Cow::from(self) {
            Cow::Borrowed(bytes) => match core::str::from_utf8(bytes) {
                Ok(s) => {
                    proof {
                        vstd::utf8::encode_utf8_decode_utf8(s@);
                    }
                    Ok(Cow::Borrowed(s))
                },
                Err(e) => Err(e),
            },
            Cow::Owned(bytes) => match String::from_utf8(bytes) {
                Ok(s) => Ok(Cow::Owned(s)),
                Err(e) => Err(e.utf8_error()),
            },
        }
    }

    /// The decoding as text, with U+FFFD in place of each ill-formed sequence. The text
    /// borrows the input exactly where that holds no escape and is well-formed UTF-8.
    pub fn decode_utf8_lossy(self) -> (r: Cow<'a, str>)
        ensures
            r@ == utf8_lossy(decode(self.remaining())),
            valid_utf8(decode(self.remaining())) ==> r@ == decode_utf8(decode(self.remaining())),
            (r matches Cow::Borrowed(_)) <==> (!has_escape(self.remaining()) && valid_utf8(
                self.remaining(),
            )),
    {
        proof {
            lemma_decode_without_escape(self.remaining());
        }
        decode_utf8_lossy(Cow::from(self))
    }
}

/// Bytes without an escape decode to themselves.
pub proof fn lemma_decode_without_escape(s: Seq<u8>)
    ensures
        !has_escape(s) ==> decode(s) == s,
{
    if !has_escape(s) {
        lemma_decode_plain_prefix(s, s.len() as int);
        assert(s.take(s.len() as int) + decode_from(s, s.len() as int) =~= s);
    }
}

/// A decoding is no longer than its input, and at least a third as long.
pub proof fn lemma_decode_len(s: Seq<u8>, i: int)
    requires
        0 <= i <= s.len(),
    ensures
        (s.len() - i + 2) / 3 <= decode_from(s, i).len() <= s.len() - i,
    decreases s.len() - i,
{
    if i < s.len() {
        if escaped_at(s, i) is Some {
            lemma_decode_len(s, i + 3);
        } else {
            lemma_decode_len(s, i + 1);
        }
    }
}

impl<'a> vstd::std_specs::convert::FromSpecImpl<PercentDecode<'a>> for Cow<'a, [u8]> {
    open spec fn obeys_from_spec() -> bool {
        false
    }

    open spec fn from_spec(v: PercentDecode<'a>) -> Cow<'a, [u8]> {
        arbitrary()
    }
}

impl<'a> From<PercentDecode<'a>> for Cow<'a, [u8]> {
    /// The whole decoding, borrowed from the input exactly where that holds no escape.
    fn from(iter: PercentDecode<'a>) -> (r: Cow<'a, [u8]>)
        ensures
            r@ == decode(iter.remaining()),
            (r matches Cow::Borrowed(_)) <==> !has_escape(iter.remaining()),
    {
        match iter.if_any() {
            Some(vec) => Cow::Owned(vec),
            None => Cow::Borrowed(iter.bytes),
        }
    }
}

/// Bytes as text, with U+FFFD in place of each ill-formed sequence. The text borrows
/// exactly where the bytes were borrowed and are well-formed UTF-8.
pub fn decode_utf8_lossy<'a>(input: Cow<'a, [u8]>) -> (r: Cow<'a, str>)
    ensures
        r@ == utf8_lossy(input@),
        valid_utf8(input@) ==> r@ == decode_utf8(input@),
        (r matches Cow::Borrowed(_)) <==> ((input matches Cow::Borrowed(_)) && valid_utf8(input@)),
{
    match input {
        Cow::Borrowed(bytes) => String::from_utf8_lossy(bytes),
        Cow::Owned(bytes) => {
            match String::from_utf8_lossy(bytes.as_slice()) {
                Cow::Borrowed(utf8) => Cow::Owned(utf8.to_owned()),
                Cow::Owned(s) => Cow::Owned(s),
            }
        },
    }
}

} // verus!
