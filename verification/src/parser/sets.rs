//! The percent-encode sets of the components of a URL.

use vstd::prelude::*;
use crate::ascii_set::{controls, controls_set, AsciiSet};
use crate::percent::{encode, encode_one, escapes, upper_hex_digit};
use crate::url::{all_clean, is_clean};

verus! {

/// The fragment set: the C0 controls and DEL, and space, `"`, `<`, `>` and the backtick.
pub open spec fn fragment_set() -> Set<u8> {
    controls_set().insert(0x20).insert(0x22).insert(0x3c).insert(0x3e).insert(0x60)
}

/// The path set: the fragment set and `#`, `?`, `{` and `}`.
pub open spec fn path_set() -> Set<u8> {
    fragment_set().insert(0x23).insert(0x3f).insert(0x7b).insert(0x7d)
}

/// The userinfo set: the path set and `/`, `:`, `;`, `=`, `@`, `[`, `\`, `]`, `^` and `|`.
pub open spec fn userinfo_set() -> Set<u8> {
    path_set().insert(0x2f).insert(0x3a).insert(0x3b).insert(0x3d).insert(0x40).insert(
        0x5b,
    ).insert(0x5c).insert(0x5d).insert(0x5e).insert(0x7c)
}

/// The path segment set: the path set and `/` and `%`.
pub open spec fn path_segment_set() -> Set<u8> {
    path_set().insert(0x2f).insert(0x25)
}

/// The path segment set of special schemes: the path segment set and `\`.
pub open spec fn special_path_segment_set() -> Set<u8> {
    path_segment_set().insert(0x5c)
}

/// The query set: the C0 controls and DEL, and space, `"`, `#`, `<` and `>`.
pub open spec fn query_set() -> Set<u8> {
    controls_set().insert(0x20).insert(0x22).insert(0x23).insert(0x3c).insert(0x3e)
}

/// The query set of special schemes: the query set and `'`.
pub open spec fn special_query_set() -> Set<u8> {
    query_set().insert(0x27)
}

pub fn fragment() -> (r: AsciiSet)
    ensures
        r@ == fragment_set(),
{
    controls().add(0x20).add(0x22).add(0x3c).add(0x3e).add(0x60)
}

pub fn path() -> (r: AsciiSet)
    ensures
        r@ == path_set(),
{
    fragment().add(0x23).add(0x3f).add(0x7b).add(0x7d)
}

pub fn userinfo() -> (r: AsciiSet)
    ensures
        r@ == userinfo_set(),
{
    path().add(0x2f).add(0x3a).add(0x3b).add(0x3d).add(0x40).add(0x5b).add(0x5c).add(0x5d).add(
        0x5e,
    ).add(0x7c)
}

pub fn path_segment() -> (r: AsciiSet)
    ensures
        r@ == path_segment_set(),
{
    path().add(0x2f).add(0x25)
}

pub fn special_path_segment() -> (r: AsciiSet)
    ensures
        r@ == special_path_segment_set(),
{
    path_segment().add(0x5c)
}

pub fn query() -> (r: AsciiSet)
    ensures
        r@ == query_set(),
{
    controls().add(0x20).add(0x22).add(0x23).add(0x3c).add(0x3e)
}

pub fn special_query() -> (r: AsciiSet)
    ensures
        r@ == special_query_set(),
{
    query().add(0x27)
}

/// Whether `set` holds the C0 controls and DEL.
pub open spec fn holds_controls(set: Set<u8>) -> bool {
    controls_set().subset_of(set)
}

/// Each of the component sets holds the C0 controls and DEL.
pub proof fn lemma_sets_hold_controls()
    ensures
        holds_controls(controls_set()),
        holds_controls(fragment_set()),
        holds_controls(path_set()),
        holds_controls(userinfo_set()),
        holds_controls(path_segment_set()),
        holds_controls(special_path_segment_set()),
        holds_controls(query_set()),
        holds_controls(special_query_set()),
{
}

/// What is written for one byte under a set that holds the controls is clean.
pub proof fn lemma_encode_one_clean(b: u8, set: Set<u8>)
    requires
        holds_controls(set),
    ensures
        all_clean(encode_one(b, set)),
{
    if escapes(set, b) {
        assert(is_clean(upper_hex_digit(b / 16)));
        assert(is_clean(upper_hex_digit(b % 16)));
    } else {
        assert(!controls_set().contains(b));
    }
}

/// An encoding under a set that holds the controls is clean.
pub proof fn lemma_encode_clean(s: Seq<u8>, set: Set<u8>)
    requires
        holds_controls(set),
    ensures
        all_clean(encode(s, set)),
    decreases s.len(),
{
    if s.len() > 0 {
        lemma_encode_clean(s.drop_last(), set);
        lemma_encode_one_clean(s.last(), set);
    }
}

/// Clean bytes behind clean bytes are clean.
pub proof fn lemma_clean_concat(a: Seq<u8>, b: Seq<u8>)
    requires
        all_clean(a),
        all_clean(b),
    ensures
        all_clean(a + b),
{
}

fn upper_hex(d: u8) -> (r: u8)
    requires
        d < 16,
    ensures
        r == upper_hex_digit(d),
{
    if d < 10 {
        0x30 + d
    } else {
        0x37 + d
    }
}

/// Appends to `out` what the encoder writes for `b` under `set`.
pub fn append_encoded_byte(out: &mut Vec<u8>, b: u8, set: &AsciiSet)
    ensures
        final(out)@ == old(out)@ + encode_one(b, set@),
{
    if set.should_percent_encode(b) {
        out.push(0x25);
        out.push(upper_hex(b / 16));
        out.push(upper_hex(b % 16));
    } else {
        out.push(b);
    }
    proof {
        assert(out@ =~= old(out)@ + encode_one(b, set@));
    }
}

/// Appends to `out` the percent-encoding, under `set`, of the bytes of `bytes` from
/// `from` to `to`.
pub fn append_encoded(out: &mut Vec<u8>, bytes: &[u8], from: usize, to: usize, set: &AsciiSet)
    requires
        from <= to <= bytes@.len(),
    ensures
        final(out)@ == old(out)@ + encode(bytes@.subrange(from as int, to as int), set@),
{
    let mut i = from;
    proof {
        assert(bytes@.subrange(from as int, from as int) =~= Seq::<u8>::empty());
        assert(out@ =~= old(out)@ + encode(bytes@.subrange(from as int, i as int), set@));
    }
    while i < to
        invariant
            from <= i <= to <= bytes@.len(),
            out@ == old(out)@ + encode(bytes@.subrange(from as int, i as int), set@),
        decreases to - i,
    {
        append_encoded_byte(out, bytes[i], set);
        proof {
            let next = bytes@.subrange(from as int, i + 1);
            assert(next.drop_last() =~= bytes@.subrange(from as int, i as int));
            assert(out@ =~= old(out)@ + encode(next, set@));
        }
        i += 1;
    }
}

/// Appends `bytes` to `out`.
pub fn append(out: &mut Vec<u8>, bytes: &[u8], from: usize, to: usize)
    requires
        from <= to <= bytes@.len(),
    ensures
        final(out)@ == old(out)@ + bytes@.subrange(from as int, to as int),
{
    let mut i = from;
    proof {
        assert(out@ =~= old(out)@ + bytes@.subrange(from as int, i as int));
    }
    while i < to
        invariant
            from <= i <= to <= bytes@.len(),
            out@ == old(out)@ + bytes@.subrange(from as int, i as int),
        decreases to - i,
    {
        out.push(bytes[i]);
        proof {
            assert(out@ =~= old(out)@ + bytes@.subrange(from as int, i + 1));
        }
        i += 1;
    }
}

} // verus!
