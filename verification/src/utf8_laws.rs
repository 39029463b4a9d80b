//! The characters that a cursor reads are those of the text it walks.

use vstd::prelude::*;
use vstd::utf8::{
    decode_first_scalar, encode_scalar, encode_utf8, length_of_first_scalar, valid_first_scalar,
};
use crate::chars::{char_at, char_width};

verus! {

/// The characters that stand in `s` from index `i` on, one after the other.
pub open spec fn chars_from(s: Seq<u8>, i: int) -> Seq<char>
    decreases s.len() + 4 - i,
{
    if i < 0 || i >= s.len() {
        Seq::<char>::empty()
    } else {
        seq![char_at(s, i)] + chars_from(s, i + char_width(s, i))
    }
}

/// Where `s` starts with the UTF-8 encoding of a character, that is the character at
/// index 0, and its encoding has as many bytes as the character there is wide.
pub proof fn lemma_first_char(s: Seq<u8>)
    requires
        valid_first_scalar(s),
    ensures
        char_at(s, 0) == decode_first_scalar(s) as char,
        char_width(s, 0) == length_of_first_scalar(s),
        0 < char_width(s, 0) <= s.len(),
{
    let b = s[0];
    assert(b < 0x80 ==> (b & 0x7f) as u32 == b as u32) by (bit_vector);
    if 0xc0 <= b <= 0xdf {
        let c = s[1];
        assert((((b & 0x1f) as u32) << 6) | ((c & 0x3f) as u32) <= 0x7ff) by (bit_vector);
    } else if 0xe0 <= b <= 0xef {
        let c = s[1];
        let d = s[2];
        assert((((b & 0x0f) as u32) << 12) | (((c & 0x3f) as u32) << 6) | ((d & 0x3f) as u32)
            <= 0xffff) by (bit_vector);
    }
}

/// What stands behind the first bytes of `s` holds the characters of `s` from there on.
pub proof fn lemma_chars_from_skip(s: Seq<u8>, k: int, j: int)
    requires
        0 <= k <= s.len(),
        0 <= j,
    ensures
        chars_from(s.skip(k), j) == chars_from(s, k + j),
    decreases s.len() + 4 - k - j,
{
    let t = s.skip(k);
    if j < t.len() {
        assert(t[j] == s[k + j]);
        assert(char_width(t, j) == char_width(s, k + j)) by {
            if j + 1 < t.len() {
                assert(t[j + 1] == s[k + j + 1]);
            }
            if j + 2 < t.len() {
                assert(t[j + 2] == s[k + j + 2]);
            }
            if j + 3 < t.len() {
                assert(t[j + 3] == s[k + j + 3]);
            }
        }
        assert(char_at(t, j) == char_at(s, k + j));
        lemma_chars_from_skip(s, k, j + char_width(t, j));
    }
}

/// The characters that stand in the UTF-8 encoding of a text are the characters of the
/// text: a cursor that walks the encoding reads the text.
pub proof fn lemma_chars_of_text(chars: Seq<char>)
    ensures
        chars_from(encode_utf8(chars), 0) == chars,
    decreases chars.len(),
{
    let s = encode_utf8(chars);
    if chars.len() == 0 {
        assert(chars_from(s, 0) =~= chars);
    } else {
        let rest = chars.drop_first();
        vstd::utf8::encode_utf8_first_scalar(chars);
        vstd::utf8::char_u32_cast(chars[0], chars[0] as u32);
        lemma_first_char(s);
        let w = char_width(s, 0);
        assert(w == encode_scalar(chars[0] as u32).len());
        assert(s.skip(w) =~= encode_utf8(rest));
        lemma_chars_from_skip(s, w, 0);
        lemma_chars_of_text(rest);
        assert(chars_from(s, 0) =~= chars);
    }
}

} // verus!
