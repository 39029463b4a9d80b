//! What holds of percent-encoding and percent-decoding taken together.

use vstd::prelude::*;
use crate::percent::{
    decode, decode_from, encode, encode_one, escape, escaped_at, escapes, hex_value,
    lemma_encode_concat, lemma_encode_single, upper_hex_digit,
};

verus! {

/// Whether the input holds, at index `i`, a percent sign and two hexadecimal digits that
/// `set` leaves all three as they are, so that the encoding holds there what reads as an
/// escape and is none of the encoder's.
pub open spec fn bare_escape_at(b: Seq<u8>, set: Set<u8>, i: int) -> bool {
    &&& 0 <= i && i + 2 < b.len()
    &&& b[i] == 0x25 && !escapes(set, b[i])
    &&& hex_value(b[i + 1]) is Some && !escapes(set, b[i + 1])
    &&& hex_value(b[i + 2]) is Some && !escapes(set, b[i + 2])
}

/// Whether `b` is an upper-case hexadecimal digit.
pub open spec fn is_upper_hex(b: u8) -> bool {
    (0x30 <= b <= 0x39) || (0x41 <= b <= 0x46)
}

/// An escape is a percent sign and two upper-case hexadecimal digits, and reads back as
/// the byte it was made of.
pub proof fn lemma_escape_shape(b: u8)
    ensures
        escape(b).len() == 3,
        escape(b)[0] == 0x25,
        is_upper_hex(escape(b)[1]),
        is_upper_hex(escape(b)[2]),
        hex_value(escape(b)[1]) == Some((b / 16) as u8),
        hex_value(escape(b)[2]) == Some((b % 16) as u8),
        escaped_at(escape(b), 0) == Some(b),
{
}

proof fn lemma_encoded_at(b: Seq<u8>, set: Set<u8>, j: int)
    requires
        0 <= j < b.len(),
    ensures
        ({
            let p = encode(b.take(j), set).len() as int;
            let e = encode_one(b[j], set);
            &&& encode(b.take(j + 1), set).len() == p + e.len()
            &&& p + e.len() <= encode(b, set).len()
            &&& forall|t: int| 0 <= t < e.len() ==> encode(b, set)[p + t] == e[t]
        }),
{
    let head = b.take(j + 1);
    assert(head.drop_last() =~= b.take(j));
    assert(head.last() == b[j]);
    assert(b =~= head + b.skip(j + 1));
    lemma_encode_concat(head, b.skip(j + 1), set);
}

proof fn lemma_round_trip_from(b: Seq<u8>, set: Set<u8>, j: int)
    requires
        0 <= j <= b.len(),
        forall|i: int| !bare_escape_at(b, set, i),
    ensures
        decode_from(encode(b, set), encode(b.take(j), set).len() as int) == b.skip(j),
    decreases b.len() - j,
{
    let all = encode(b, set);
    let p = encode(b.take(j), set).len() as int;
    if j == b.len() {
        assert(b.take(j) =~= b);
        assert(b.skip(j) =~= Seq::<u8>::empty());
    } else {
        lemma_encoded_at(b, set, j);
        lemma_round_trip_from(b, set, j + 1);
        let x = b[j];
        if escapes(set, x) {
            lemma_escape_shape(x);
            assert(all[p] == escape(x)[0]);
            assert(all[p + 1] == escape(x)[1]);
            assert(all[p + 2] == escape(x)[2]);
            assert(escaped_at(all, p) == Some(x));
        } else {
            assert(all[p] == encode_one(x, set)[0]);
            if x == 0x25 {
                if j + 1 < b.len() {
                    lemma_encoded_at(b, set, j + 1);
                    let y = b[j + 1];
                    assert(all[p + 1] == encode_one(y, set)[0]);
                    if !escapes(set, y) && hex_value(y) is Some {
                        if j + 2 < b.len() {
                            lemma_encoded_at(b, set, j + 2);
                            assert(all[p + 2] == encode_one(b[j + 2], set)[0]);
                            assert(!bare_escape_at(b, set, j));
                        } else {
                            assert(b.take(j + 2) =~= b);
                        }
                    }
                } else {
                    assert(b.take(j + 1) =~= b);
                }
            }
            assert(escaped_at(all, p) is None);
        }
        assert(b.skip(j) =~= seq![x] + b.skip(j + 1));
    }
}

/// Decoding undoes encoding: `decode(encode(b, set)) == b`, for every input in which no
/// percent sign and two hexadecimal digits stand that `set` leaves all three unescaped.
/// (Such an input keeps them, and the decoder reads them as an escape.) A set that holds
/// the percent sign admits every input.
pub proof fn lemma_encode_then_decode(b: Seq<u8>, set: Set<u8>)
    requires
        forall|i: int| !bare_escape_at(b, set, i),
    ensures
        decode(encode(b, set)) == b,
{
    lemma_round_trip_from(b, set, 0);
    assert(b.take(0) =~= Seq::<u8>::empty());
    assert(b.skip(0) =~= b);
}

/// Encoding under a set and then under a superset of it gives what encoding under the
/// superset gives, where the superset escapes none of the three bytes of any escape that
/// the first pass wrote.
pub proof fn lemma_encode_twice(b: Seq<u8>, first: Set<u8>, second: Set<u8>)
    requires
        first.subset_of(second),
        forall|i: int|
            0 <= i < b.len() && escapes(first, #[trigger] b[i]) ==> !escapes(second, 0x25)
                && !escapes(second, upper_hex_digit(b[i] / 16)) && !escapes(
                second,
                upper_hex_digit(b[i] % 16),
            ),
    ensures
        encode(encode(b, first), second) == encode(b, second),
    decreases b.len(),
{
    if b.len() > 0 {
        let front = b.drop_last();
        let x = b.last();
        assert forall|i: int| 0 <= i < front.len() && escapes(first, #[trigger] front[i])
            implies !escapes(second, 0x25) && !escapes(second, upper_hex_digit(front[i] / 16))
            && !escapes(second, upper_hex_digit(front[i] % 16)) by {
            assert(front[i] == b[i]);
        }
        lemma_encode_twice(front, first, second);
        lemma_encode_concat(encode(front, first), encode_one(x, first), second);
        assert(encode(encode_one(x, first), second) == encode_one(x, second)) by {
            if escapes(first, x) {
                assert(b[b.len() - 1] == x);
                let e = escape(x);
                assert(e =~= seq![e[0]] + seq![e[1]] + seq![e[2]]);
                lemma_encode_concat(seq![e[0]] + seq![e[1]], seq![e[2]], second);
                lemma_encode_concat(seq![e[0]], seq![e[1]], second);
                lemma_encode_single(e[0], second);
                lemma_encode_single(e[1], second);
                lemma_encode_single(e[2], second);
                assert(escapes(second, x));
            } else {
                lemma_encode_single(x, second);
            }
        }
    } else {
        assert(encode(b, first) =~= Seq::<u8>::empty());
    }
}

proof fn lemma_decode_append_from(p: Seq<u8>, tail: Seq<u8>, i: int)
    requires
        0 <= i <= p.len(),
        tail.len() >= 1,
        tail[0] == 0x25,
        tail.len() <= 2,
    ensures
        decode_from(p + tail, i) == decode_from(p, i) + tail,
    decreases p.len() - i,
{
    let s = p + tail;
    if i == p.len() {
        assert(escaped_at(s, i) is None);
        if tail.len() == 2 {
            assert(escaped_at(s, i + 1) is None);
            assert(decode_from(s, i + 2) =~= Seq::<u8>::empty());
            assert(decode_from(s, i + 1) =~= seq![tail[1]]);
        } else {
            assert(decode_from(s, i + 1) =~= Seq::<u8>::empty());
        }
        assert(decode_from(s, i) =~= tail);
        assert(decode_from(p, i) + tail =~= tail);
    } else {
        assert(s[i] == p[i]);
        if i + 1 < p.len() {
            assert(s[i + 1] == p[i + 1]);
        }
        if i + 2 < p.len() {
            assert(s[i + 2] == p[i + 2]);
        }
        if i + 1 == p.len() {
            assert(s[i + 1] == tail[0]);
        }
        if i + 2 == p.len() {
            assert(s[i + 2] == tail[0]);
        }
        assert(escaped_at(s, i) == escaped_at(p, i));
        if escaped_at(p, i) is Some {
            lemma_decode_append_from(p, tail, i + 3);
            assert(decode_from(s, i) =~= decode_from(p, i) + tail);
        } else {
            lemma_decode_append_from(p, tail, i + 1);
            assert(decode_from(s, i) =~= decode_from(p, i) + tail);
        }
    }
}

/// A percent sign at the very end of the input comes out as it is.
pub proof fn lemma_decode_trailing_percent(p: Seq<u8>)
    ensures
        decode(p + seq![0x25u8]) == decode(p) + seq![0x25u8],
{
    lemma_decode_append_from(p, seq![0x25u8], 0);
}

/// A percent sign and one more byte at the very end of the input come out as they are.
pub proof fn lemma_decode_trailing_percent_and_byte(p: Seq<u8>, x: u8)
    ensures
        decode(p + seq![0x25u8, x]) == decode(p) + seq![0x25u8, x],
{
    lemma_decode_append_from(p, seq![0x25u8, x], 0);
}

} // verus!
