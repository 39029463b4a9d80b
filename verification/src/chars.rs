//! Character classes of the URL syntax, decoding of UTF-8 at a byte index, and small
//! utilities of the parser.

use vstd::prelude::*;
use vstd::string::StringSliceAdditionalSpecFns;
use vstd::utf8::{codepoint_width_2, codepoint_width_3, codepoint_width_4, is_scalar};
use crate::error::ParseError;

verus! {

/// Whether `b` is an ASCII tab, line feed or carriage return.
pub open spec fn is_tab_or_newline(b: u8) -> bool {
    b == 0x09 || b == 0x0a || b == 0x0d
}

/// Whether `b` is an ASCII letter.
pub open spec fn is_alpha(b: u8) -> bool {
    (0x41 <= b <= 0x5a) || (0x61 <= b <= 0x7a)
}

/// Whether `b` is an ASCII decimal digit.
pub open spec fn is_digit(b: u8) -> bool {
    0x30 <= b <= 0x39
}

/// Whether `b` is an ASCII hexadecimal digit, in either case.
pub open spec fn is_hex_digit(b: u8) -> bool {
    is_digit(b) || (0x41 <= b <= 0x46) || (0x61 <= b <= 0x66)
}

/// Whether `b` is one of `/`, `\`, `?` and `#`.
pub open spec fn is_path_delimiter(b: u8) -> bool {
    b == 0x2f || b == 0x5c || b == 0x3f || b == 0x23
}

/// Whether `b` may follow the first byte of a UTF-8 sequence.
pub open spec fn is_continuation(b: u8) -> bool {
    0x80 <= b <= 0xbf
}

/// The number of bytes of the character that starts at index `j` of `s`: what its first
/// byte announces where that many bytes of the right form stand there, else one.
pub open spec fn char_width(s: Seq<u8>, j: int) -> int {
    let b = s[j];
    if 0xc0 <= b <= 0xdf && j + 1 < s.len() && is_continuation(s[j + 1]) {
        2
    } else if 0xe0 <= b <= 0xef && j + 2 < s.len() && is_continuation(s[j + 1])
        && is_continuation(s[j + 2]) {
        3
    } else if 0xf0 <= b <= 0xf7 && j + 3 < s.len() && is_continuation(s[j + 1])
        && is_continuation(s[j + 2]) && is_continuation(s[j + 3]) {
        4
    } else {
        1
    }
}

/// The number that the bytes of the character at index `j` of `s` encode.
pub open spec fn scalar_at(s: Seq<u8>, j: int) -> u32 {
    let w = char_width(s, j);
    if w == 2 {
        codepoint_width_2(s[j], s[j + 1])
    } else if w == 3 {
        codepoint_width_3(s[j], s[j + 1], s[j + 2])
    } else if w == 4 {
        codepoint_width_4(s[j], s[j + 1], s[j + 2], s[j + 3])
    } else {
        s[j] as u32
    }
}

/// The character that starts at index `j` of `s`. In the UTF-8 encoding of a text this is
/// the character whose encoding starts there; bytes that encode none, or that encode an
/// ASCII character in more than one byte, give U+FFFD.
pub open spec fn char_at(s: Seq<u8>, j: int) -> char {
    if s[j] < 0x80 {
        s[j] as char
    } else if char_width(s, j) > 1 && scalar_at(s, j) >= 0x80 && is_scalar(scalar_at(s, j)) {
        scalar_at(s, j) as char
    } else {
        '\u{FFFD}'
    }
}

/// A character is ASCII exactly where its first byte is, and is that byte then.
pub proof fn lemma_char_at_ascii(s: Seq<u8>, j: int)
    ensures
        (char_at(s, j) as u32) < 0x80 <==> s[j] < 0x80,
        s[j] < 0x80 ==> char_at(s, j) as u32 == s[j],
        1 <= char_width(s, j) <= 4,
        0 <= j < s.len() ==> j + char_width(s, j) <= s.len(),
{
}

/// Whether `c` is a URL code point: an ASCII letter or digit, one of
/// `! $ & ' ( ) * + , - . / : ; = ? @ _ ~`, or a character from U+00A0 on that is no
/// noncharacter.
pub open spec fn url_code_point(c: char) -> bool {
    let v = c as u32;
    ||| (0x61 <= v <= 0x7a) || (0x41 <= v <= 0x5a) || (0x30 <= v <= 0x39)
    ||| v == 0x21 || v == 0x24 || (0x26 <= v <= 0x2f) || v == 0x3a || v == 0x3b || v == 0x3d
        || v == 0x3f || v == 0x40 || v == 0x5f || v == 0x7e
    ||| (0xa0 <= v <= 0xd7ff) || (0xe000 <= v <= 0xfdcf) || (0xfdf0 <= v <= 0xfffd)
    ||| (0x10000 <= v <= 0xefffd && v % 0x10000 <= 0xfffd && !(0xe0000 <= v <= 0xe0fff))
    ||| (0xf0000 <= v <= 0xffffd) || (0x100000 <= v <= 0x10fffd)
}

/// Whether `s` starts with a Windows drive letter: an ASCII letter and `:` or `|`, at the
/// end of `s` or before one of `/`, `\`, `?` and `#`.
pub open spec fn starts_with_drive_letter(s: Seq<u8>) -> bool {
    &&& s.len() >= 2
    &&& is_alpha(s[0])
    &&& (s[1] == 0x3a || s[1] == 0x7c)
    &&& (s.len() == 2 || is_path_delimiter(s[2]))
}

/// Whether `s` is a Windows drive letter: an ASCII letter and `:` or `|`.
pub open spec fn drive_letter(s: Seq<u8>) -> bool {
    s.len() == 2 && is_alpha(s[0]) && (s[1] == 0x3a || s[1] == 0x7c)
}

/// Whether `s` is a normalized Windows drive letter: an ASCII letter and `:`.
pub open spec fn normalized_drive_letter(s: Seq<u8>) -> bool {
    s.len() == 2 && is_alpha(s[0]) && s[1] == 0x3a
}

/// Whether `s` is one of `/`, `\`, `?` and `#` with a Windows drive letter behind it.
pub open spec fn path_starts_with_drive_letter(s: Seq<u8>) -> bool {
    s.len() > 0 && is_path_delimiter(s[0]) && starts_with_drive_letter(s.skip(1))
}

/// The decimal digits of `n`, without leading zeros.
pub open spec fn decimal(n: nat) -> Seq<u8>
    decreases n,
{
    if n < 10 {
        seq![(0x30 + n) as u8]
    } else {
        decimal(n / 10).push((0x30 + n % 10) as u8)
    }
}

/// Whether `ch` is a C0 control or a space: U+0000 to U+0020.
pub fn c0_control_or_space(ch: char) -> (r: bool)
    ensures
        r == (ch as u32 <= 0x20),
{
    ch <= ' '
}

/// Whether `ch` is an ASCII tab, line feed or carriage return.
pub fn ascii_tab_or_new_line(ch: char) -> (r: bool)
    ensures
        r == (ch == '\t' || ch == '\n' || ch == '\r'),
        r == (ch as u32 <= 0x7f && is_tab_or_newline(ch as u8)),
{
    ch == '\t' || ch == '\n' || ch == '\r'
}

/// Whether `ch` is an ASCII letter.
pub fn ascii_alpha(ch: char) -> (r: bool)
    ensures
        r == (('a' <= ch && ch <= 'z') || ('A' <= ch && ch <= 'Z')),
        r == (ch as u32 <= 0x7f && is_alpha(ch as u8)),
{
    ('a' <= ch && ch <= 'z') || ('A' <= ch && ch <= 'Z')
}

/// Whether `c` is a URL code point.
pub fn is_url_code_point(c: char) -> (r: bool)
    ensures
        r == url_code_point(c),
{
    let v = c as u32;
    if v < 0x80 {
        (0x61 <= v && v <= 0x7a) || (0x41 <= v && v <= 0x5a) || (0x30 <= v && v <= 0x39) || v
            == 0x21 || v == 0x24 || (0x26 <= v && v <= 0x2f) || v == 0x3a || v == 0x3b || v == 0x3d
            || v == 0x3f || v == 0x40 || v == 0x5f || v == 0x7e
    } else if v < 0x10000 {
        (0xa0 <= v && v <= 0xd7ff) || (0xe000 <= v && v <= 0xfdcf) || (0xfdf0 <= v && v <= 0xfffd)
    } else if v < 0xf0000 {
        v % 0x10000 <= 0xfffd && !(0xe0000 <= v && v <= 0xe0fff)
    } else {
        (v <= 0xffffd) || (0x100000 <= v && v <= 0x10fffd)
    }
}

/// The character that starts at index `j` of `bytes`, and the number of its bytes.
pub fn decode_char(bytes: &[u8], j: usize) -> (r: (char, usize))
    requires
        j < bytes@.len(),
    ensures
        r.0 == char_at(bytes@, j as int),
        r.1 == char_width(bytes@, j as int),
        1 <= r.1 <= 4,
        j + r.1 <= bytes@.len(),
        (r.0 as u32) < 0x80 <==> bytes@[j as int] < 0x80,
        bytes@[j as int] < 0x80 ==> r.0 as u32 == bytes@[j as int],
{
    let b = bytes[j];
    let left = bytes.len() - j;
    if b < 0x80 {
        return (b as char, 1);
    }
    let (v, w): (u32, usize) = if 0xc0 <= b && b <= 0xdf && left > 1 && continues(bytes[j + 1]) {
        ((((b & 0x1F) as u32) << 6) | ((bytes[j + 1] & 0x3f) as u32), 2)
    } else if 0xe0 <= b && b <= 0xef && left > 2 && continues(bytes[j + 1]) && continues(
        bytes[j + 2],
    ) {
        (
            (((b & 0x0F) as u32) << 12) | (((bytes[j + 1] & 0x3f) as u32) << 6) | ((bytes[j + 2]
                & 0x3f) as u32),
            3,
        )
    } else if 0xf0 <= b && b <= 0xf7 && left > 3 && continues(bytes[j + 1]) && continues(
        bytes[j + 2],
    ) && continues(bytes[j + 3]) {
        (
            (((b & 0x07) as u32) << 18) | (((bytes[j + 1] & 0x3f) as u32) << 12) | (((bytes[j + 2]
                & 0x3f) as u32) << 6) | ((bytes[j + 3] & 0x3f) as u32),
            4,
        )
    } else {
        return ('\u{FFFD}', 1);
    };
    if v < 0x80 {
        return ('\u{FFFD}', w);
    }
    match char::from_u32(v) {
        Some(c) => (c, w),
        None => ('\u{FFFD}', w),
    }
}

fn continues(b: u8) -> (r: bool)
    ensures
        r == is_continuation(b),
{
    0x80 <= b && b <= 0xbf
}

/// `i` as a 32-bit offset, or the error `Overflow` where it does not fit.
pub fn to_u32(i: usize) -> (r: Result<u32, ParseError>)
    ensures
        i <= u32::MAX ==> r == Ok::<u32, ParseError>(i as u32),
        i > u32::MAX ==> r == Err::<u32, ParseError>(ParseError::Overflow),
{
    if i <= u32::MAX as usize {
        Ok(i as u32)
    } else {
        Err(ParseError::Overflow)
    }
}

/// Whether the bytes of `bytes` from `from` to `to` are a Windows drive letter.
pub fn is_drive_letter_at(bytes: &[u8], from: usize, to: usize) -> (r: bool)
    requires
        from <= to <= bytes@.len(),
    ensures
        r == drive_letter(bytes@.subrange(from as int, to as int)),
{
    to - from == 2 && alpha(bytes[from]) && (bytes[from + 1] == 0x3a || bytes[from + 1] == 0x7c)
}

/// Whether the bytes of `bytes` from `from` to `to` are a normalized Windows drive letter.
pub fn is_normalized_drive_letter_at(bytes: &[u8], from: usize, to: usize) -> (r: bool)
    requires
        from <= to <= bytes@.len(),
    ensures
        r == normalized_drive_letter(bytes@.subrange(from as int, to as int)),
{
    to - from == 2 && alpha(bytes[from]) && bytes[from + 1] == 0x3a
}

/// Whether `segment` is a Windows drive letter: an ASCII letter and `:` or `|`.
pub fn is_windows_drive_letter(segment: &str) -> (r: bool)
    ensures
        r == drive_letter(segment.spec_bytes()),
{
    let bytes = segment.as_bytes();
    proof {
        assert(bytes@.skip(0) =~= bytes@);
    }
    bytes.len() == 2 && starts_with_windows_drive_letter(bytes, 0)
}

/// Whether `segment` is a normalized Windows drive letter: an ASCII letter and `:`.
pub fn is_normalized_windows_drive_letter(segment: &str) -> (r: bool)
    ensures
        r == normalized_drive_letter(segment.spec_bytes()),
{
    is_windows_drive_letter(segment) && segment.as_bytes()[1] == 0x3a
}

/// Whether `bytes` holds, at `from`, one of `/`, `\`, `?` and `#` with a Windows drive
/// letter behind it, as `/c:` and `/a:/` do.
pub fn path_starts_with_windows_drive_letter(bytes: &[u8], from: usize) -> (r: bool)
    requires
        from <= bytes@.len(),
    ensures
        r == path_starts_with_drive_letter(bytes@.skip(from as int)),
{
    if from < bytes.len() {
        let c = bytes[from];
        proof {
            assert(bytes@.skip(from as int).skip(1) =~= bytes@.skip(from + 1));
        }
        (c == 0x2f || c == 0x5c || c == 0x3f || c == 0x23) && starts_with_windows_drive_letter(
            bytes,
            from + 1,
        )
    } else {
        false
    }
}

/// Whether `bytes` holds, at `from`, a Windows drive letter that ends there or stands
/// before one of `/`, `\`, `?` and `#`.
pub fn starts_with_windows_drive_letter(bytes: &[u8], from: usize) -> (r: bool)
    requires
        from <= bytes@.len(),
    ensures
        r == starts_with_drive_letter(bytes@.skip(from as int)),
{
    let left = bytes.len() - from;
    left >= 2 && alpha(bytes[from]) && (bytes[from + 1] == 0x3a || bytes[from + 1] == 0x7c) && (left
        == 2 || delimits_path(bytes[from + 2]))
}

fn alpha(b: u8) -> (r: bool)
    ensures
        r == is_alpha(b),
{
    (0x41 <= b && b <= 0x5a) || (0x61 <= b && b <= 0x7a)
}

fn delimits_path(b: u8) -> (r: bool)
    ensures
        r == is_path_delimiter(b),
{
    b == 0x2f || b == 0x5c || b == 0x3f || b == 0x23
}

/// Appends the decimal digits of `value` to `out`.
pub fn fast_u16_to_str(out: &mut Vec<u8>, value: u16)
    ensures
        final(out)@ == old(out)@ + decimal(value as nat),
{
    proof {
        reveal_with_fuel(decimal, 6);
    }
    if value >= 10000 {
        out.push(0x30 + (value / 10000) as u8);
    }
    if value >= 1000 {
        out.push(0x30 + ((value / 1000) % 10) as u8);
    }
    if value >= 100 {
        out.push(0x30 + ((value / 100) % 10) as u8);
    }
    if value >= 10 {
        out.push(0x30 + ((value / 10) % 10) as u8);
    }
    out.push(0x30 + (value % 10) as u8);
    proof {
        let v = value as nat;
        assert(v / 10 / 10 == v / 100);
        assert(v / 10 / 10 / 10 == v / 1000);
        assert(v / 10 / 10 / 10 / 10 == v / 10000);
        assert(out@ =~= old(out)@ + decimal(v));
    }
}

} // verus!
