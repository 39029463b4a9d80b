//! The path of a URL: its segments, the removal of dot segments, and the quirks of
//! Windows drive letters in file URLs.

use vstd::prelude::*;
use crate::ascii_set::{controls, controls_set};
use crate::chars::{
    char_width, decode_char, drive_letter, is_alpha, is_drive_letter_at,
    is_normalized_drive_letter_at, is_tab_or_newline, lemma_char_at_ascii, normalized_drive_letter,
    path_starts_with_drive_letter, path_starts_with_windows_drive_letter,
};
use crate::error::SyntaxViolation;
use crate::input::{after_next, lemma_skip_ignored, peek, Input, InputView};
use crate::parser::scan::{
    check_url_code_point, code_point_log, find_first_of, first_of, scan_log, stripped,
};
use crate::parser::sets::{
    append_encoded, lemma_clean_concat, lemma_encode_clean, lemma_sets_hold_controls, path,
    path_segment, path_segment_set, path_set, special_path_segment, special_path_segment_set,
};
use crate::parser::{Context, Parser, Written};
use crate::percent::encode;
use crate::scheme::SchemeType;
use crate::url::{
    all_clean, dot_at, is_clean, is_dot_byte, lemma_dot_bytes, lemma_no_dots_before_kept,
    lemma_no_dots_push_slash, lemma_settled_end, lemma_tidy_cut, lemma_tidy_no_dots,
    no_dot_at_end, no_dots, no_dots_before, rooted, segment_start, tidy,
};
use crate::percent::{encode_one, escapes};


verus! {

/// The index of the last `/` of `s` between `from` and `to`.
pub open spec fn last_slash(s: Seq<u8>, from: int, to: int) -> Option<int>
    decreases to - from,
{
    if to <= from || from < 0 || to > s.len() {
        None
    } else if s[to - 1] == 0x2f {
        Some(to - 1)
    } else {
        last_slash(s, from, to - 1)
    }
}

/// Whether `s` ends in `/`.
pub open spec fn ends_with_slash(s: Seq<u8>) -> bool {
    s.len() > 0 && s.last() == 0x2f
}

/// The serialization `ser` without the last segment of its path, which starts at
/// `path_start`: cut behind the last `/` of the path. A normalized Windows drive letter
/// of a file URL stays, and so does a path in which no `/` stands.
pub open spec fn popped(ser: Seq<u8>, file: bool, path_start: int) -> Seq<u8> {
    if 0 <= path_start < ser.len() {
        match last_slash(ser, path_start, ser.len() as int) {
            Some(p) => if file && normalized_drive_letter(ser.skip(p + 1)) {
                ser
            } else {
                ser.take(p + 1)
            },
            None => ser,
        }
    } else {
        ser
    }
}

/// The serialization `ser` with its path shortened by a segment: as `popped`, but a path
/// that is empty or all of a normalized Windows drive letter of a file URL stays.
pub open spec fn shortened(ser: Seq<u8>, file: bool, path_start: int) -> Seq<u8> {
    if !(0 <= path_start < ser.len()) {
        ser
    } else if file && normalized_drive_letter(ser.skip(path_start)) {
        ser
    } else {
        popped(ser, file, path_start)
    }
}

/// Whether the `/` that `ser` ends in can go: another `/` stands before it in the path,
/// and what starts there is not a `/` and a Windows drive letter.
pub open spec fn slash_can_go(ser: Seq<u8>, path_start: int) -> bool {
    ser.len() > 0 && (match last_slash(ser, 0, ser.len() - 1) {
        Some(p) => p >= path_start && !path_starts_with_drive_letter(ser.skip(p)),
        None => false,
    })
}

/// Whether `%2e` or `%2E` stands at index `k` of `s`.
pub open spec fn encoded_dot_at(s: Seq<u8>, k: int) -> bool {
    s[k] == 0x25 && s[k + 1] == 0x32 && (s[k + 2] == 0x65 || s[k + 2] == 0x45)
}

/// Whether `seg` is a single-dot segment: `.`, or `%2e` in either case.
pub open spec fn single_dot(seg: Seq<u8>) -> bool {
    (seg.len() == 1 && seg[0] == 0x2e) || (seg.len() == 3 && encoded_dot_at(seg, 0))
}

/// Whether `seg` is a double-dot segment: two dots, each as `.` or as `%2e` in either
/// case.
pub open spec fn double_dot(seg: Seq<u8>) -> bool {
    ||| (seg.len() == 2 && seg[0] == 0x2e && seg[1] == 0x2e)
    ||| (seg.len() == 4 && seg[0] == 0x2e && encoded_dot_at(seg, 1))
    ||| (seg.len() == 4 && encoded_dot_at(seg, 0) && seg[3] == 0x2e)
    ||| (seg.len() == 6 && encoded_dot_at(seg, 0) && encoded_dot_at(seg, 3))
}

/// A dot segment is a single-dot segment or a double-dot segment.
pub proof fn lemma_dot_at(ser: Seq<u8>, a: int, b: int)
    requires
        0 <= a <= b <= ser.len(),
    ensures
        dot_at(ser, a, b) == (single_dot(ser.subrange(a, b)) || double_dot(ser.subrange(a, b))),
{
    let seg = ser.subrange(a, b);
    assert forall|i: int| 0 <= i < b - a implies seg[i] == ser[a + i] by {}
    if b - a >= 3 {
        assert(encoded_dot_at(seg, 0) == crate::url::encoded_dot(ser, a));
    }
    if b - a >= 4 {
        assert(encoded_dot_at(seg, 1) == crate::url::encoded_dot(ser, a + 1));
    }
    if b - a >= 6 {
        assert(encoded_dot_at(seg, 3) == crate::url::encoded_dot(ser, a + 3));
    }
}

/// No `/` is written for bytes that are no `/`, nor under a set that holds `/`.
pub proof fn lemma_encode_no_slash(x: Seq<u8>, set: Set<u8>)
    requires
        forall|i: int| 0 <= i < x.len() ==> #[trigger] x[i] != 0x2f || set.contains(0x2f),
    ensures
        forall|k: int| 0 <= k < encode(x, set).len() ==> #[trigger] encode(x, set)[k] != 0x2f,
    decreases x.len(),
{
    if x.len() > 0 {
        let front = x.drop_last();
        assert forall|i: int| 0 <= i < front.len() implies #[trigger] front[i] != 0x2f
            || set.contains(0x2f) by {
            assert(front[i] == x[i]);
        }
        lemma_encode_no_slash(front, set);
        let b = x.last();
        assert(x[x.len() - 1] == b);
        let one = encode_one(b, set);
        assert forall|k: int| 0 <= k < one.len() implies one[k] != 0x2f by {
            if escapes(set, b) {
                assert(crate::percent::upper_hex_digit(b / 16) != 0x2f);
                assert(crate::percent::upper_hex_digit(b % 16) != 0x2f);
            }
        }
        let head = encode(front, set);
        assert(encode(x, set) == head + one);
        assert forall|k: int| 0 <= k < encode(x, set).len() implies #[trigger] encode(x, set)[k]
            != 0x2f by {
            if k < head.len() {
                assert(encode(x, set)[k] == head[k]);
            } else {
                assert(encode(x, set)[k] == one[k - head.len()]);
            }
        }
    }
}

/// Whether a segment has been read behind a tidy path: the segment stands in `ser` from
/// `ss` on, before the `/` that ended it where `slash` is set, and holds no `/`; before
/// it no dot segment ends at a `/`, and the byte before it is one that no dot segment
/// holds.
pub open spec fn segment_read(ser: Seq<u8>, path_start: int, ss: int, slash: bool) -> bool {
    &&& 0 <= path_start <= ss <= ser.len()
    &&& no_dots_before(ser, path_start, ss)
    &&& (ss == path_start || !is_dot_byte(ser[ss - 1]))
    &&& forall|k: int|
        ss <= k < ser.len() - (if slash {
            1int
        } else {
            0int
        }) ==> #[trigger] ser[k] != 0x2f
    &&& (slash ==> ss < ser.len() && ser.last() == 0x2f)
}

/// What the end of a segment leaves of a path without dot segments: a tidy path behind a
/// separator, a path without dot segments at the end.
pub open spec fn segment_done(ser: Seq<u8>, path_start: int, slash: bool) -> bool {
    if slash {
        tidy(ser, path_start)
    } else {
        no_dots(ser, path_start, ser.len() as int)
    }
}

/// No segment that ends at index `end`, at or behind the end of a segment that was read
/// and is no dot segment, is a dot segment.
proof fn lemma_segment_end(ser: Seq<u8>, path_start: int, ss: int, end: int)
    requires
        0 <= path_start <= ss <= end <= ser.len(),
        ss == path_start || !is_dot_byte(ser[ss - 1]),
        forall|k: int| ss <= k < end ==> #[trigger] ser[k] != 0x2f,
        !dot_at(ser, ss, end),
    ensures
        no_dot_at_end(ser, path_start, end),
{
    assert forall|a: int| path_start <= a <= end && segment_start(ser, path_start, a)
        implies !#[trigger] dot_at(ser, a, end) by {
        if a < ss {
            if dot_at(ser, a, end) {
                lemma_dot_bytes(ser, a, end, ss - 1);
            }
        } else if a > ss {
            assert(ser[a - 1] != 0x2f);
        }
    }
}

/// A segment that was read and is no dot segment leaves the path without dot segments.
proof fn lemma_finish_plain(ser: Seq<u8>, path_start: int, ss: int, slash: bool)
    requires
        segment_read(ser, path_start, ss, slash),
        !dot_at(ser, ss, ser.len() - (if slash {
            1int
        } else {
            0int
        })),
    ensures
        segment_done(ser, path_start, slash),
{
    let end = ser.len() - (if slash {
        1int
    } else {
        0int
    });
    lemma_segment_end(ser, path_start, ss, end);
    assert forall|a: int, b: int|
        path_start <= a <= b < ser.len() && segment_start(ser, path_start, a) && ser[b]
            == 0x2f implies !#[trigger] dot_at(ser, a, b) by {
        if b >= ss {
            assert(b == end);
        }
    }
}

/// A drive letter written in place of the segment that was read leaves the path without
/// dot segments.
proof fn lemma_finish_drive(ser: Seq<u8>, new: Seq<u8>, path_start: int, ss: int, slash: bool)
    requires
        segment_read(ser, path_start, ss, slash),
        ss + 2 <= new.len(),
        forall|i: int| 0 <= i < ss ==> new[i] == ser[i],
        new[ss + 1] == 0x3a,
        new[ss] != 0x2f,
        new.len() == ss + 2 + (if slash {
            1int
        } else {
            0int
        }),
        slash ==> new[ss + 2] == 0x2f,
    ensures
        segment_done(new, path_start, slash),
{
    lemma_no_dots_before_kept(ser, new, path_start, ss);
    assert forall|a: int, b: int|
        path_start <= a <= b < new.len() && segment_start(new, path_start, a) && new[b]
            == 0x2f implies !#[trigger] dot_at(new, a, b) by {
        if b >= ss {
            assert(b == ss + 2);
            if a <= ss + 1 {
                if dot_at(new, a, b) {
                    lemma_dot_bytes(new, a, b, ss + 1);
                }
            }
        }
    }
    if !slash {
        lemma_settled_end(new, path_start);
    }
}

/// A single-dot segment that goes leaves the path without dot segments.
proof fn lemma_finish_single(ser: Seq<u8>, new: Seq<u8>, path_start: int, ss: int, slash: bool)
    requires
        segment_read(ser, path_start, ss, slash),
        new == (if ends_with_slash(ser.take(ss)) {
            ser.take(ss)
        } else {
            ser.take(ss).push(0x2f)
        }),
    ensures
        segment_done(new, path_start, slash),
{
    let cut = ser.take(ss);
    lemma_tidy_cut(ser, path_start, ss);
    if !ends_with_slash(cut) {
        lemma_tidy_no_dots(cut, path_start);
        lemma_no_dots_push_slash(cut, path_start);
    }
    lemma_tidy_no_dots(new, path_start);
}

/// A double-dot segment that goes, with the segment before it, leaves the path without
/// dot segments.
proof fn lemma_finish_double(
    ser: Seq<u8>,
    path_start: int,
    ss: int,
    slash: bool,
    without_slash: Seq<u8>,
    shorter: Seq<u8>,
    new: Seq<u8>,
)
    requires
        segment_read(ser, path_start, ss, slash),
        without_slash == ser.take(ss) || (ends_with_slash(ser.take(ss)) && slash_can_go(
            ser.take(ss),
            path_start,
        ) && without_slash == ser.take(ss).drop_last()),
        shorter == without_slash || (ends_with_slash(shorter) && path_start < shorter.len()
            <= without_slash.len() && shorter == without_slash.take(shorter.len() as int)),
        shorter == without_slash && path_start < without_slash.len() && last_slash(
            without_slash,
            path_start,
            without_slash.len() as int,
        ) is Some ==> !is_dot_byte(without_slash.last()),
        new == (if slash && !ends_with_slash(shorter) {
            shorter.push(0x2f)
        } else {
            shorter
        }),
    ensures
        segment_done(new, path_start, slash),
{
    let cut = ser.take(ss);
    lemma_tidy_cut(ser, path_start, ss);
    if without_slash != cut {
        lemma_last_slash(cut, 0, cut.len() - 1);
        lemma_last_slash_from(cut, without_slash, path_start, cut.len() - 1);
        lemma_no_dots_before_kept(cut, without_slash, path_start, without_slash.len() as int);
    }
    if shorter == without_slash {
        assert(tidy(shorter, path_start));
    } else {
        lemma_no_dots_before_kept(without_slash, shorter, path_start, shorter.len() as int);
        assert(tidy(shorter, path_start));
    }
    lemma_tidy_no_dots(shorter, path_start);
    if slash && !ends_with_slash(shorter) {
        lemma_no_dots_push_slash(shorter, path_start);
    }
}

/// The `/` at the start of a path are `/`, and what stands behind them is none.
proof fn lemma_leading_slashes(ser: Seq<u8>, i: int)
    requires
        0 <= i <= ser.len(),
    ensures
        0 <= leading_slashes(ser, i) <= ser.len() - i,
        forall|j: int| i <= j < i + leading_slashes(ser, i) ==> #[trigger] ser[j] == 0x2f,
        i + leading_slashes(ser, i) < ser.len() ==> ser[i + leading_slashes(ser, i)] != 0x2f,
    decreases ser.len() - i,
{
    if i < ser.len() && ser[i] == 0x2f {
        lemma_leading_slashes(ser, i + 1);
    }
}

/// A path without dot segments has none with one `/` at its start in place of all that
/// stand there.
proof fn lemma_collapse(read: Seq<u8>, path_start: int)
    requires
        0 <= path_start <= read.len(),
        no_dots(read, path_start, read.len() as int),
    ensures
        no_dots(
            one_leading_slash(read, path_start),
            path_start,
            one_leading_slash(read, path_start).len() as int,
        ),
{
    let k = leading_slashes(read, path_start);
    lemma_leading_slashes(read, path_start);
    let new = one_leading_slash(read, path_start);
    let end = new.len() as int;
    assert(new.len() == read.len() - k + 1);
    assert(new[path_start] == 0x2f);
    assert forall|j: int| path_start < j < end implies new[j] == read[j + k - 1] by {}
    assert forall|a: int, b: int|
        path_start <= a <= b <= end && segment_start(new, path_start, a) && (b == end || new[b]
            == 0x2f) implies !dot_at(new, a, b) by {
        if a == path_start {
            if b > a && dot_at(new, a, b) {
                lemma_dot_bytes(new, a, b, path_start);
            }
        } else {
            let a0 = a + k - 1;
            let b0 = b + k - 1;
            assert(segment_start(read, path_start, a0)) by {
                if a == path_start + 1 {
                    if k >= 1 {
                        assert(read[path_start + k - 1] == 0x2f);
                    }
                } else {
                    assert(new[a - 1] == read[a0 - 1]);
                }
            }
            if b == end {
                assert(b0 == read.len());
                assert(!dot_at(read, a0, b0));
            } else {
                assert(read[b0] == new[b]);
                assert(!dot_at(read, a0, b0));
            }
            assert forall|j: int| a <= j < b implies new[j] == read[j + k - 1] by {}
            assert(dot_at(new, a, b) == dot_at(read, a0, b0));
        }
    }
}

/// A path holds no dot segment where something is written behind it.
pub proof fn lemma_kept_dots(old: Seq<u8>, new: Seq<u8>, path_start: int)
    requires
        keeps(old, new, old.len() as int),
        0 <= path_start <= old.len(),
        no_dots(old, path_start, old.len() as int),
    ensures
        no_dots(new, path_start, old.len() as int),
{
    assert forall|i: int| 0 <= i < old.len() implies new[i] == old[i] by {
        lemma_keeps_index(old, new, old.len() as int, i);
    }
    crate::url::lemma_no_dots_kept(old, new, path_start, old.len() as int);
}

/// A `/` written where the path starts is a tidy path.
pub proof fn lemma_slash_is_tidy(ser: Seq<u8>)
    ensures
        tidy(ser.push(0x2f), ser.len() as int),
        tidy(ser, ser.len() as int),
{
    lemma_settled_end(ser, ser.len() as int);
    assert(no_dots(ser, ser.len() as int, ser.len() as int));
    lemma_no_dots_push_slash(ser, ser.len() as int);
}

/// A path without dot segments that starts with `/` is tidy when it is shortened by a
/// segment.
pub proof fn lemma_shortened_tidy(path: Seq<u8>, shorter: Seq<u8>, path_start: int)
    requires
        rooted(path, path_start),
        no_dots(path, path_start, path.len() as int),
        shorter == path || (ends_with_slash(shorter) && path_start < shorter.len() <= path.len()
            && shorter == path.take(shorter.len() as int)),
        shorter == path && path_start < path.len() && last_slash(
            path,
            path_start,
            path.len() as int,
        ) is Some ==> !is_dot_byte(path.last()),
    ensures
        tidy(shorter, path_start),
{
    if shorter == path {
        lemma_last_slash(path, path_start, path.len() as int);
    } else {
        lemma_no_dots_before_kept(path, shorter, path_start, shorter.len() as int);
    }
}

/// Where the last `/` of a serialization stands at or behind an index, it is the last
/// `/` from that index on, in every serialization that holds the same bytes.
proof fn lemma_last_slash_from(s: Seq<u8>, t: Seq<u8>, from: int, to: int)
    requires
        0 <= from <= to,
        to <= s.len(),
        to <= t.len(),
        forall|i: int| 0 <= i < to ==> s[i] == t[i],
        last_slash(s, 0, to) matches Some(p) && p >= from,
    ensures
        last_slash(t, from, to) == last_slash(s, 0, to),
    decreases to,
{
    if to > 0 && s[to - 1] != 0x2f {
        lemma_last_slash(s, 0, to - 1);
        lemma_last_slash_from(s, t, from, to - 1);
    }
}

/// The set that a path is encoded under: the path set; for a single path segment the
/// path segment set, that of special schemes where the scheme is special.
pub open spec fn path_set_of(context: Context, scheme_type: SchemeType) -> Set<u8> {
    if context == Context::PathSegmentSetter {
        if scheme_type.special() {
            special_path_segment_set()
        } else {
            path_segment_set()
        }
    } else {
        path_set()
    }
}

/// Where reading a segment has come to: what is written, the index in the input, where
/// the segment starts in the serialization, and whether a separator ended it.
pub struct SegmentScan {
    pub ser: Seq<u8>,
    pub log: Seq<SyntaxViolation>,
    pub pos: int,
    pub segment_start: int,
    pub ends_with_slash: bool,
}

/// Reads the bytes of `s` from `i` on up to the end of a segment. Tabs and newlines are
/// passed over. A `/` ends the segment and is written, and so is a `\` of a special
/// scheme, which is reported and written as `/`; neither does for a single path segment.
/// A `?` or `#` ends the segment where a whole URL is parsed, and is left in the input.
/// Every other character is reported for what it gives and written percent-encoded.
///
/// In a file URL, where the path that is written when the segment begins is `/` and a
/// normalized Windows drive letter, the first character of the segment gets a `/` written
/// before it, and the segment starts behind that. `fresh` says that nothing of the
/// segment is written yet.
pub open spec fn scan_segment(
    context: Context,
    scheme_type: SchemeType,
    path_start: int,
    s: Seq<u8>,
    i: int,
    ser: Seq<u8>,
    log: Seq<SyntaxViolation>,
    segment_start: int,
    fresh: bool,
) -> SegmentScan
    decreases s.len() + 4 - i,
{
    if i < 0 || i >= s.len() {
        SegmentScan { ser, log, pos: i, segment_start, ends_with_slash: false }
    } else if is_tab_or_newline(s[i]) {
        scan_segment(context, scheme_type, path_start, s, i + 1, ser, log, segment_start, fresh)
    } else if s[i] == 0x2f && context != Context::PathSegmentSetter {
        SegmentScan { ser: ser.push(0x2f), log, pos: i + 1, segment_start, ends_with_slash: true }
    } else if s[i] == 0x5c && context != Context::PathSegmentSetter && scheme_type.special() {
        SegmentScan {
            ser: ser.push(0x2f),
            log: log.push(SyntaxViolation::Backslash),
            pos: i + 1,
            segment_start,
            ends_with_slash: true,
        }
    } else if (s[i] == 0x3f || s[i] == 0x23) && context == Context::UrlParser {
        SegmentScan { ser, log, pos: i, segment_start, ends_with_slash: false }
    } else {
        let w = char_width(s, i);
        let set = path_set_of(context, scheme_type);
        if fresh && drive_before(scheme_type, path_start, ser) {
            scan_segment(
                context,
                scheme_type,
                path_start,
                s,
                i + w,
                ser.push(0x2f) + encode(s.subrange(i, i + w), set),
                log + code_point_log(s, i),
                segment_start + 1,
                false,
            )
        } else {
            scan_segment(
                context,
                scheme_type,
                path_start,
                s,
                i + w,
                ser + encode(s.subrange(i, i + w), set),
                log + code_point_log(s, i),
                segment_start,
                false,
            )
        }
    }
}

/// Whether, in a file URL, the path that is written is `/` and a normalized Windows
/// drive letter.
pub open spec fn drive_before(scheme_type: SchemeType, path_start: int, ser: Seq<u8>) -> bool {
    scheme_type is File && 0 <= path_start < ser.len() && normalized_drive_letter(
        ser.subrange(path_start + 1, ser.len() as int),
    )
}

/// What the end of a segment leaves: what is written, and whether the URL still has the
/// host it had.
pub struct SegmentEnd {
    pub ser: Seq<u8>,
    pub log: Seq<SyntaxViolation>,
    pub has_host: bool,
}

/// What the end of a segment makes of what was written: the segment stands in `ser` from
/// `segment_start` on, before the `/` that ended it where `slash` is set.
///
/// A double-dot segment goes, with the `/` before it where `slash_can_go`, and the path
/// is shortened by a segment; a `/` is written where a separator ended the segment and
/// none stands. A single-dot segment goes, and a `/` is written where none stands. In a
/// file URL, a Windows drive letter as the first segment gets `:` for its second byte, and
/// the URL loses its host, which is reported.
pub open spec fn finish_segment(
    scheme_type: SchemeType,
    path_start: int,
    ser: Seq<u8>,
    log: Seq<SyntaxViolation>,
    has_host: bool,
    segment_start: int,
    slash: bool,
) -> SegmentEnd {
    let segment_end = if slash {
        ser.len() - 1
    } else {
        ser.len() as int
    };
    if !(0 <= segment_start <= segment_end) {
        SegmentEnd { ser, log, has_host }
    } else {
        let segment = ser.subrange(segment_start, segment_end);
        let cut = ser.take(segment_start);
        if double_dot(segment) {
            let without_slash = if ends_with_slash(cut) && slash_can_go(cut, path_start) {
                cut.drop_last()
            } else {
                cut
            };
            let shorter = shortened(without_slash, scheme_type is File, path_start);
            SegmentEnd {
                ser: if slash && !ends_with_slash(shorter) {
                    shorter.push(0x2f)
                } else {
                    shorter
                },
                log,
                has_host,
            }
        } else if single_dot(segment) {
            SegmentEnd {
                ser: if !ends_with_slash(cut) {
                    cut.push(0x2f)
                } else {
                    cut
                },
                log,
                has_host,
            }
        } else if scheme_type is File && segment_start == path_start + 1 && drive_letter(segment) {
            let drive = cut.push(segment[0]).push(0x3a);
            SegmentEnd {
                ser: if slash {
                    drive.push(0x2f)
                } else {
                    drive
                },
                log: if has_host {
                    log.push(SyntaxViolation::FileWithHostAndWindowsDrive)
                } else {
                    log
                },
                has_host: false,
            }
        } else {
            SegmentEnd { ser, log, has_host }
        }
    }
}

/// What parsing a path gives: what is written, whether the URL still has the host it
/// had, and the index in the input where the path ended.
pub struct PathOutcome {
    pub written: Written,
    pub has_host: bool,
    pub pos: int,
}

/// Reads the segments of the path that stands in `s` from `i` on, one after the other,
/// until one ends without a separator.
pub open spec fn path_segments(
    context: Context,
    scheme_type: SchemeType,
    path_start: int,
    s: Seq<u8>,
    i: int,
    w: Written,
    has_host: bool,
) -> PathOutcome
    decreases s.len() - i,
{
    let scan = scan_segment(
        context,
        scheme_type,
        path_start,
        s,
        i,
        w.ser,
        w.log,
        w.ser.len() as int,
        true,
    );
    let end = finish_segment(
        scheme_type,
        path_start,
        scan.ser,
        scan.log,
        has_host,
        scan.segment_start,
        scan.ends_with_slash,
    );
    if scan.ends_with_slash && i < scan.pos <= s.len() {
        path_segments(
            context,
            scheme_type,
            path_start,
            s,
            scan.pos,
            Written { ser: end.ser, log: end.log },
            end.has_host,
        )
    } else {
        PathOutcome {
            written: Written { ser: end.ser, log: end.log },
            has_host: end.has_host,
            pos: scan.pos,
        }
    }
}

/// The number of `/` at the start of `s` from index `i` on.
pub open spec fn leading_slashes(s: Seq<u8>, i: int) -> int
    decreases s.len() - i,
{
    if 0 <= i < s.len() && s[i] == 0x2f {
        1 + leading_slashes(s, i + 1)
    } else {
        0
    }
}

/// The serialization `ser` with exactly one `/` at the start of its path, in place of
/// all that stand there.
pub open spec fn one_leading_slash(ser: Seq<u8>, path_start: int) -> Seq<u8> {
    ser.take(path_start).push(0x2f) + ser.skip(path_start + leading_slashes(ser, path_start))
}

/// What parsing the path that stands in `s` from `i` on gives: its segments are read, and
/// the path of a file URL then starts with exactly one `/`.
pub open spec fn path_outcome(
    context: Context,
    scheme_type: SchemeType,
    path_start: int,
    s: Seq<u8>,
    i: int,
    w: Written,
    has_host: bool,
) -> PathOutcome {
    let read = path_segments(context, scheme_type, path_start, s, i, w, has_host);
    if scheme_type is File {
        PathOutcome {
            written: Written {
                ser: one_leading_slash(read.written.ser, path_start),
                log: read.written.log,
            },
            has_host: read.has_host,
            pos: read.pos,
        }
    } else {
        read
    }
}

/// What parsing the start of a path gives. A special scheme has a path that starts with
/// `/`: one is written where the serialization does not end in one, and a `/` or `\` of
/// the input is then passed over; a `\` is reported. For any other scheme a `?` or `#`
/// leaves the path empty, and a `/` is written where the input goes on with another
/// character.
pub open spec fn path_start_outcome(
    context: Context,
    scheme_type: SchemeType,
    s: Seq<u8>,
    i: int,
    w: Written,
    has_host: bool,
) -> PathOutcome {
    let path_start = w.ser.len() as int;
    let c = peek(s, i);
    if scheme_type.special() {
        let log = if c == Some(0x5cu8) {
            w.log.push(SyntaxViolation::Backslash)
        } else {
            w.log
        };
        if !ends_with_slash(w.ser) {
            path_outcome(
                context,
                scheme_type,
                path_start,
                s,
                if c == Some(0x2fu8) || c == Some(0x5cu8) {
                    after_next(s, i)
                } else {
                    i
                },
                Written { ser: w.ser.push(0x2f), log },
                has_host,
            )
        } else {
            path_outcome(
                context,
                scheme_type,
                path_start,
                s,
                i,
                Written { ser: w.ser, log },
                has_host,
            )
        }
    } else if c == Some(0x3fu8) || c == Some(0x23u8) {
        PathOutcome { written: w, has_host, pos: i }
    } else {
        path_outcome(
            context,
            scheme_type,
            path_start,
            s,
            i,
            Written {
                ser: if c is Some && c != Some(0x2fu8) {
                    w.ser.push(0x2f)
                } else {
                    w.ser
                },
                log: w.log,
            },
            has_host,
        )
    }
}

/// The index at which a path that cannot be a base ends: at the next `?` or `#` where a
/// whole URL is parsed, else at the end of the input.
pub open spec fn opaque_path_end(context: Context, s: Seq<u8>, i: int) -> int {
    if context == Context::UrlParser {
        first_of(s, i, 0x3f, 0x23)
    } else {
        s.len() as int
    }
}

/// What parsing a path that cannot be a base writes: its bytes percent-encoded under the
/// set of the C0 controls, tabs and newlines left out; and what its characters give.
pub open spec fn opaque_path_written(context: Context, w: Written, s: Seq<u8>, i: int) -> Written {
    let end = opaque_path_end(context, s, i);
    Written {
        ser: w.ser + encode(stripped(s, i, end), controls_set()),
        log: scan_log(s, i, end, false, w.log),
    }
}

pub proof fn lemma_last_slash(s: Seq<u8>, from: int, to: int)
    requires
        0 <= from <= to <= s.len(),
    ensures
        last_slash(s, from, to) matches Some(p) ==> from <= p < to && s[p] == 0x2f,
        last_slash(s, from, to) is None ==> forall|k: int| from <= k < to ==> #[trigger] s[k]
            != 0x2f,
    decreases to - from,
{
    if to > from && s[to - 1] != 0x2f {
        lemma_last_slash(s, from, to - 1);
    }
}


/// Whether `new` holds the first `k` bytes of `old` as they were.
pub open spec fn keeps(old: Seq<u8>, new: Seq<u8>, k: int) -> bool {
    k <= new.len() && new.take(k) == old.take(k)
}

/// What is kept stands where it stood.
pub proof fn lemma_keeps_index(old: Seq<u8>, new: Seq<u8>, k: int, i: int)
    requires
        keeps(old, new, k),
        k <= old.len(),
        0 <= i < k,
    ensures
        new[i] == old[i],
{
    assert(new[i] == new.take(k)[i]);
    assert(old[i] == old.take(k)[i]);
}

/// What is kept twice is kept.
pub proof fn lemma_keeps_twice(a: Seq<u8>, b: Seq<u8>, c: Seq<u8>, k: int, m: int)
    requires
        keeps(a, b, k),
        keeps(b, c, m),
        0 <= k <= m,
        k <= a.len(),
        m <= b.len(),
    ensures
        keeps(a, c, k),
{
    assert forall|i: int| 0 <= i < k implies c[i] == a[i] by {
        lemma_keeps_index(a, b, k, i);
        lemma_keeps_index(b, c, m, i);
    }
    assert(c.take(k) =~= a.take(k));
}

/// What is kept up to an index is kept up to every smaller one.
pub proof fn lemma_keeps_less(old: Seq<u8>, new: Seq<u8>, k: int, m: int)
    requires
        keeps(old, new, k),
        0 <= m <= k <= old.len(),
    ensures
        keeps(old, new, m),
{
    assert forall|i: int| 0 <= i < m implies new[i] == old[i] by {
        lemma_keeps_index(old, new, k, i);
    }
    assert(new.take(m) =~= old.take(m));
}

/// What is appended to keeps what was there.
pub proof fn lemma_keeps_appended(a: Seq<u8>, tail: Seq<u8>)
    ensures
        keeps(a, a + tail, a.len() as int),
        keeps(a, a, a.len() as int),
{
    assert((a + tail).take(a.len() as int) =~= a.take(a.len() as int));
}

/// Whether `new` is clean where `old` is.
pub open spec fn kept_clean(old: Seq<u8>, new: Seq<u8>) -> bool {
    all_clean(old) ==> all_clean(new)
}

/// The index of the last `/` of `bytes` between `from` and `to`.
pub fn last_slash_in(bytes: &[u8], from: usize, to: usize) -> (r: Option<usize>)
    requires
        from <= to <= bytes@.len(),
    ensures
        match r {
            Some(p) => last_slash(bytes@, from as int, to as int) == Some(p as int) && from <= p
                < to && bytes@[p as int] == 0x2f,
            None => last_slash(bytes@, from as int, to as int) is None,
        },
{
    let mut i = to;
    while i > from
        invariant
            from <= i <= to <= bytes@.len(),
            last_slash(bytes@, from as int, i as int) == last_slash(bytes@, from as int, to as int),
        decreases i,
    {
        if bytes[i - 1] == 0x2f {
            return Some(i - 1);
        }
        i -= 1;
    }
    None
}

/// Which kind of dot segment stands in `bytes` from `from` to `to`: 1 for a single-dot
/// segment, 2 for a double-dot segment, 0 for any other.
pub fn dot_segment(bytes: &[u8], from: usize, to: usize) -> (r: u8)
    requires
        from <= to <= bytes@.len(),
    ensures
        r == if double_dot(bytes@.subrange(from as int, to as int)) {
            2u8
        } else if single_dot(bytes@.subrange(from as int, to as int)) {
            1u8
        } else {
            0u8
        },
{
    let n = to - from;
    let b = bytes;
    if n == 1 {
        if b[from] == 0x2e {
            1
        } else {
            0
        }
    } else if n == 2 {
        if b[from] == 0x2e && b[from + 1] == 0x2e {
            2
        } else {
            0
        }
    } else if n == 3 {
        if encoded_dot(b, from) {
            1
        } else {
            0
        }
    } else if n == 4 {
        if (b[from] == 0x2e && encoded_dot(b, from + 1)) || (encoded_dot(b, from) && b[from + 3]
            == 0x2e) {
            2
        } else {
            0
        }
    } else if n == 6 {
        if encoded_dot(b, from) && encoded_dot(b, from + 3) {
            2
        } else {
            0
        }
    } else {
        0
    }
}

fn encoded_dot(bytes: &[u8], k: usize) -> (r: bool)
    requires
        k + 3 <= bytes@.len(),
    ensures
        r == encoded_dot_at(bytes@, k as int),
{
    bytes[k] == 0x25 && bytes[k + 1] == 0x32 && (bytes[k + 2] == 0x65 || bytes[k + 2] == 0x45)
}

fn ends_in_slash(bytes: &Vec<u8>) -> (r: bool)
    ensures
        r == ends_with_slash(bytes@),
{
    bytes.len() > 0 && bytes[bytes.len() - 1] == 0x2f
}

impl<'a> Parser<'a> {
    /// Whether the `/` that `serialization` ends in can go: another `/` stands before it
    /// in the path, and what starts there is not a `/` and a Windows drive letter.
    pub fn last_slash_can_be_removed(serialization: &[u8], path_start: usize) -> (r: bool)
        ensures
            r == slash_can_go(serialization@, path_start as int),
    {
        let len = serialization.len();
        if len == 0 {
            return false;
        }
        match last_slash_in(serialization, 0, len - 1) {
            Some(p) => p >= path_start && !path_starts_with_windows_drive_letter(serialization, p),
            None => false,
        }
    }

    /// Removes the last segment of the path, which starts at `path_start`: cuts behind
    /// the last `/` of the path. A normalized Windows drive letter of a file URL stays.
    pub fn pop_path(&mut self, scheme_type: SchemeType, path_start: usize)
        ensures
            final(self).setup() == old(self).setup(),
            crate::parser::grows(old(self)@.log, final(self)@.log),
            final(self)@.log == old(self)@.log,
            final(self)@.ser == popped(old(self)@.ser, scheme_type is File, path_start as int),
            final(self)@.ser.len() <= old(self)@.ser.len(),
            path_start <= old(self)@.ser.len() ==> keeps(
                old(self)@.ser,
                final(self)@.ser,
                path_start as int,
            ),
            kept_clean(old(self)@.ser, final(self)@.ser),
            final(self)@.ser.len() < old(self)@.ser.len() ==> ends_with_slash(final(self)@.ser),
            rooted(old(self)@.ser, path_start as int) ==> keeps(
                old(self)@.ser,
                final(self)@.ser,
                path_start + 1,
            ),
            final(self)@.ser == old(self)@.ser || (ends_with_slash(final(self)@.ser) && path_start
                < final(self)@.ser.len() <= old(self)@.ser.len() && final(self)@.ser == old(self)@.ser.take(final(self)@.ser.len() as int)),
            final(self)@.ser == old(self)@.ser && path_start < old(self)@.ser.len() && last_slash(
                old(self)@.ser,
                path_start as int,
                old(self)@.ser.len() as int,
            ) is Some ==> !is_dot_byte(old(self)@.ser.last()),
    {
        proof {
            assert(self@.ser.take(path_start + 1) =~= old(self)@.ser.take(path_start + 1));
        }
        let len = self.serialization.len();
        if len > path_start {
            match last_slash_in(self.serialization.as_slice(), path_start, len) {
                Some(p) => {
                    let segment_start = p + 1;
                    proof {
                        assert(self.serialization@.skip(p + 1) =~= self.serialization@.subrange(
                            p + 1,
                            len as int,
                        ));
                    }
                    proof {
                        let tail = self.serialization@.subrange(p + 1, len as int);
                        if normalized_drive_letter(tail) {
                            assert(tail[1] == self.serialization@[p + 2]);
                        }
                    }
                    if !(scheme_type.is_file() && is_normalized_drive_letter_at(
                        self.serialization.as_slice(),
                        segment_start,
                        len,
                    )) {
                        self.serialization.truncate(segment_start);
                        proof {
                            let old_ser = old(self)@.ser;
                            assert(self.serialization@ =~= old_ser.take(p + 1));
                            assert(self.serialization@.take(path_start as int) =~= old_ser.take(
                                path_start as int,
                            ));
                            assert(self.serialization@.take(path_start + 1) =~= old_ser.take(
                                path_start + 1,
                            ));
                        }
                    }
                },
                None => {},
            }
        }
    }

    /// Shortens the path, which starts at `path_start`, by a segment. A path that is all
    /// of a normalized Windows drive letter of a file URL stays.
    pub fn shorten_path(&mut self, scheme_type: SchemeType, path_start: usize)
        ensures
            final(self).setup() == old(self).setup(),
            crate::parser::grows(old(self)@.log, final(self)@.log),
            final(self)@.log == old(self)@.log,
            final(self)@.ser == shortened(old(self)@.ser, scheme_type is File, path_start as int),
            final(self)@.ser.len() <= old(self)@.ser.len(),
            path_start <= old(self)@.ser.len() ==> keeps(
                old(self)@.ser,
                final(self)@.ser,
                path_start as int,
            ),
            kept_clean(old(self)@.ser, final(self)@.ser),
            rooted(old(self)@.ser, path_start as int) ==> keeps(
                old(self)@.ser,
                final(self)@.ser,
                path_start + 1,
            ),
            final(self)@.ser == old(self)@.ser || (ends_with_slash(final(self)@.ser) && path_start
                < final(self)@.ser.len() <= old(self)@.ser.len() && final(self)@.ser == old(self)@.ser.take(final(self)@.ser.len() as int)),
            final(self)@.ser == old(self)@.ser && path_start < old(self)@.ser.len() && last_slash(
                old(self)@.ser,
                path_start as int,
                old(self)@.ser.len() as int,
            ) is Some ==> !is_dot_byte(old(self)@.ser.last()),
    {
        proof {
            assert(self@.ser.take(path_start + 1) =~= old(self)@.ser.take(path_start + 1));
        }
        let len = self.serialization.len();
        if len <= path_start {
            return ;
        }
        proof {
            assert(self.serialization@.skip(path_start as int) =~= self.serialization@.subrange(
                path_start as int,
                len as int,
            ));
            let path = self.serialization@.subrange(path_start as int, len as int);
            if normalized_drive_letter(path) {
                assert(path[1] == self.serialization@[path_start + 1]);
            }
        }
        if scheme_type.is_file() && is_normalized_drive_letter_at(
            self.serialization.as_slice(),
            path_start,
            len,
        ) {
            return ;
        }
        self.pop_path(scheme_type, path_start);
    }

    /// Reads the input from index `i` on up to the end of a segment, which starts at the
    /// end of the serialization. Returns the index in the input where the segment ended,
    /// the index in the serialization where it starts, and whether a separator ended it.
    pub fn scan_segment(
        &mut self,
        scheme_type: SchemeType,
        path_start: usize,
        input: Input,
        i: usize,
    ) -> (r: (usize, usize, bool))
        requires
            input@.wf(),
            i <= input@.text.len(),
            path_start <= old(self)@.ser.len(),
        ensures
            final(self).setup() == old(self).setup(),
            crate::parser::grows(old(self)@.log, final(self)@.log),
            ({
                let scan = scan_segment(
                    old(self).context,
                    scheme_type,
                    path_start as int,
                    input@.text,
                    i as int,
                    old(self)@.ser,
                    old(self)@.log,
                    old(self)@.ser.len() as int,
                    true,
                );
                &&& final(self)@ == (Written { ser: scan.ser, log: scan.log })
                &&& r.0 == scan.pos
                &&& r.1 == scan.segment_start
                &&& r.2 == scan.ends_with_slash
            }),
            i <= r.0 <= input@.text.len(),
            r.2 ==> i < r.0 && ends_with_slash(final(self)@.ser),
            !r.2 ==> r.0 == input@.text.len() || (old(self).context == Context::UrlParser && (
            input@.text[r.0 as int] == 0x3f || input@.text[r.0 as int] == 0x23)),
            old(self)@.ser.len() <= r.1 <= final(self)@.ser.len(),
            r.2 ==> r.1 < final(self)@.ser.len(),
            keeps(old(self)@.ser, final(self)@.ser, old(self)@.ser.len() as int),
            kept_clean(old(self)@.ser, final(self)@.ser),
            forall|k: int|
                r.1 <= k < final(self)@.ser.len() - (if r.2 {
                    1int
                } else {
                    0int
                }) ==> #[trigger] final(self)@.ser[k] != 0x2f,
            r.1 == old(self)@.ser.len() || (r.1 == old(self)@.ser.len() + 1 && final(self)@.ser[old(self)@.ser.len() as int] == 0x2f),
    {
        let bytes = input.bytes();
        let len = bytes.len();
        let context = self.context;
        let set = if context == Context::PathSegmentSetter {
            if scheme_type.is_special() {
                special_path_segment()
            } else {
                path_segment()
            }
        } else {
            path()
        };
        let mut j = i;
        let mut segment_start = self.serialization.len();
        let mut fresh = true;
        let ghost s = bytes@;
        let ghost start = old(self)@;
        let ghost goal = scan_segment(
            context,
            scheme_type,
            path_start as int,
            s,
            i as int,
            start.ser,
            start.log,
            start.ser.len() as int,
            true,
        );
        proof {
            lemma_sets_hold_controls();
            assert(self@.ser.take(start.ser.len() as int) =~= start.ser.take(
                start.ser.len() as int,
            ));
        }
        loop
            invariant
                i <= j <= len,
                len == s.len(),
                s == bytes@,
                s == input@.text,
                input@.wf(),
                context == old(self).context,
                self.setup() == old(self).setup(),
                crate::parser::grows(old(self)@.log, self@.log),
                set@ == path_set_of(context, scheme_type),
                path_start <= start.ser.len() <= segment_start <= self@.ser.len(),
                fresh ==> self@.ser.len() == start.ser.len() && segment_start == start.ser.len(),
                keeps(start.ser, self@.ser, start.ser.len() as int),
                kept_clean(start.ser, self@.ser),
                forall|k: int| segment_start <= k < self@.ser.len() ==> #[trigger] self@.ser[k]
                    != 0x2f,
                segment_start == start.ser.len() || (segment_start == start.ser.len() + 1
                    && self@.ser[start.ser.len() as int] == 0x2f),
                start == old(self)@,
                goal == scan_segment(
                    context,
                    scheme_type,
                    path_start as int,
                    s,
                    i as int,
                    start.ser,
                    start.log,
                    start.ser.len() as int,
                    true,
                ),
                goal == scan_segment(
                    context,
                    scheme_type,
                    path_start as int,
                    s,
                    j as int,
                    self@.ser,
                    self@.log,
                    segment_start as int,
                    fresh,
                ),
            decreases len - j,
        {
            if j >= len {
                return (j, segment_start, false);
            }
            let b = bytes[j];
            let ghost before = self@.ser;
            if b == 0x09 || b == 0x0a || b == 0x0d {
                j += 1;
            } else if b == 0x2f && context != Context::PathSegmentSetter {
                self.serialization.push(0x2f);
                proof {
                    assert(self@.ser.take(start.ser.len() as int) =~= before.take(
                        start.ser.len() as int,
                    ));
                }
                return (j + 1, segment_start, true);
            } else if b == 0x5c && context != Context::PathSegmentSetter
                && scheme_type.is_special() {
                self.log_violation(SyntaxViolation::Backslash);
                self.serialization.push(0x2f);
                proof {
                    assert(self@.ser.take(start.ser.len() as int) =~= before.take(
                        start.ser.len() as int,
                    ));
                }
                return (j + 1, segment_start, true);
            } else if (b == 0x3f || b == 0x23) && context == Context::UrlParser {
                return (j, segment_start, false);
            } else {
                let (c, w) = decode_char(bytes, j);
                check_url_code_point(&mut self.violations, c, &input.at(j + w));
                if fresh && scheme_type.is_file() && self.serialization.len() > path_start
                    && is_normalized_drive_letter_at(
                    self.serialization.as_slice(),
                    path_start + 1,
                    self.serialization.len(),
                ) {
                    self.serialization.push(0x2f);
                    segment_start = self.serialization.len();
                }
                fresh = false;
                let ghost middle = self@.ser;
                append_encoded(&mut self.serialization, bytes, j, j + w, &set);
                proof {
                    let piece = s.subrange(j as int, j + w);
                    lemma_char_at_ascii(s, j as int);
                    assert forall|i: int| 0 <= i < piece.len() implies #[trigger] piece[i] != 0x2f
                        || set@.contains(0x2f) by {
                        if i > 0 {
                            assert(piece[i] == s[j + i]);
                            assert(s[j + i] >= 0x80);
                        }
                    }
                    lemma_encode_no_slash(piece, set@);
                    assert forall|k: int| segment_start <= k < self@.ser.len() implies
                        #[trigger] self@.ser[k] != 0x2f by {
                        if k >= middle.len() {
                            assert(self@.ser[k] == encode(piece, set@)[k - middle.len()]);
                        } else {
                            assert(self@.ser[k] == middle[k]);
                        }
                    }
                    lemma_encode_clean(s.subrange(j as int, j + w), set@);
                    assert(self@.ser.take(start.ser.len() as int) =~= before.take(
                        start.ser.len() as int,
                    ));
                    if all_clean(before) {
                        assert(all_clean(middle));
                        lemma_clean_concat(middle, encode(s.subrange(j as int, j + w), set@));
                    }
                }
                j += w;
            }
        }
    }

    /// Takes a double-dot segment away, which stands in the serialization from
    /// `segment_start` on, and the segment before it.
    pub fn remove_double_dot(
        &mut self,
        scheme_type: SchemeType,
        path_start: usize,
        segment_start: usize,
        slash: bool,
    )
        requires
            path_start <= segment_start <= old(self)@.ser.len(),
        ensures
            final(self).setup() == old(self).setup(),
            final(self)@.log == old(self)@.log,
            final(self)@.ser == ({
                let cut = old(self)@.ser.take(segment_start as int);
                let without_slash = if ends_with_slash(cut) && slash_can_go(
                    cut,
                    path_start as int,
                ) {
                    cut.drop_last()
                } else {
                    cut
                };
                let shorter = shortened(without_slash, scheme_type is File, path_start as int);
                if slash && !ends_with_slash(shorter) {
                    shorter.push(0x2f)
                } else {
                    shorter
                }
            }),
            keeps(old(self)@.ser, final(self)@.ser, path_start as int),
            kept_clean(old(self)@.ser, final(self)@.ser),
            path_start < segment_start ==> path_start < final(self)@.ser.len() && final(self)@.ser[path_start as int] == old(self)@.ser[path_start as int],
            segment_read(old(self)@.ser, path_start as int, segment_start as int, slash)
                ==> segment_done(final(self)@.ser, path_start as int, slash),
    {
        let ghost before = self@.ser;
        let ghost inside = path_start < segment_start;
        let ghost first = before[path_start as int];
        self.serialization.truncate(segment_start);
        proof {
            assert(self@.ser =~= before.take(segment_start as int));
            assert(self@.ser.take(path_start as int) =~= before.take(path_start as int));
            assert(inside ==> self@.ser[path_start as int] == first);
        }
        let ghost cut = self@.ser;
        if ends_in_slash(&self.serialization) && Parser::last_slash_can_be_removed(
            self.serialization.as_slice(),
            path_start,
        ) {
            proof {
                lemma_last_slash(cut, 0, cut.len() - 1);
            }
            self.serialization.pop();
            proof {
                assert(self@.ser =~= cut.drop_last());
                assert(self@.ser.take(path_start as int) =~= before.take(path_start as int));
                assert(inside ==> self@.ser[path_start as int] == first);
            }
        }
        let ghost popped_slash = self@.ser;
        self.shorten_path(scheme_type, path_start);
        let ghost shorter = self@.ser;
        proof {
            if inside {
                assert(path_start < shorter.len() && shorter[path_start as int] == first);
            }
        }
        if slash && !ends_in_slash(&self.serialization) {
            self.serialization.push(0x2f);
            proof {
                assert(self@.ser.take(path_start as int) =~= shorter.take(path_start as int));
            }
        }
        proof {
            if segment_read(before, path_start as int, segment_start as int, slash) {
                lemma_finish_double(
                    before,
                    path_start as int,
                    segment_start as int,
                    slash,
                    popped_slash,
                    shorter,
                    self@.ser,
                );
            }
        }
    }

    /// Takes a single-dot segment away, which stands in the serialization from
    /// `segment_start` on.
    pub fn remove_single_dot(&mut self, path_start: usize, segment_start: usize, slash: bool)
        requires
            path_start <= segment_start <= old(self)@.ser.len(),
        ensures
            final(self).setup() == old(self).setup(),
            final(self)@.log == old(self)@.log,
            final(self)@.ser == (if ends_with_slash(old(self)@.ser.take(segment_start as int)) {
                old(self)@.ser.take(segment_start as int)
            } else {
                old(self)@.ser.take(segment_start as int).push(0x2f)
            }),
            keeps(old(self)@.ser, final(self)@.ser, path_start as int),
            kept_clean(old(self)@.ser, final(self)@.ser),
            path_start < segment_start ==> path_start < final(self)@.ser.len() && final(self)@.ser[path_start as int] == old(self)@.ser[path_start as int],
            segment_read(old(self)@.ser, path_start as int, segment_start as int, slash)
                ==> segment_done(final(self)@.ser, path_start as int, slash),
    {
        let ghost before = self@.ser;
        self.serialization.truncate(segment_start);
        proof {
            assert(self@.ser =~= before.take(segment_start as int));
            assert(self@.ser.take(path_start as int) =~= before.take(path_start as int));
        }
        if !ends_in_slash(&self.serialization) {
            self.serialization.push(0x2f);
            proof {
                assert(self@.ser.take(path_start as int) =~= before.take(path_start as int));
            }
        }
        proof {
            if segment_read(before, path_start as int, segment_start as int, slash) {
                lemma_finish_single(
                    before,
                    self@.ser,
                    path_start as int,
                    segment_start as int,
                    slash,
                );
            }
        }
    }

    /// Writes `:` for the second byte of the Windows drive letter that stands in the
    /// serialization from `segment_start` on, as the first segment of the path.
    pub fn write_drive_letter(&mut self, path_start: usize, segment_start: usize, slash: bool)
        requires
            segment_start == path_start + 1,
            segment_start + 2 + (if slash {
                1int
            } else {
                0int
            }) == old(self)@.ser.len(),
            is_alpha(old(self)@.ser[segment_start as int]),
        ensures
            final(self).setup() == old(self).setup(),
            final(self)@.log == old(self)@.log,
            final(self)@.ser == ({
                let drive = old(self)@.ser.take(segment_start as int).push(
                    old(self)@.ser[segment_start as int],
                ).push(0x3a);
                if slash {
                    drive.push(0x2f)
                } else {
                    drive
                }
            }),
            keeps(old(self)@.ser, final(self)@.ser, path_start as int),
            kept_clean(old(self)@.ser, final(self)@.ser),
            path_start < final(self)@.ser.len() && final(self)@.ser[path_start as int] == old(self)@.ser[path_start as int],
            segment_read(old(self)@.ser, path_start as int, segment_start as int, slash)
                ==> segment_done(final(self)@.ser, path_start as int, slash),
    {
        let ghost before = self@.ser;
        let c = self.serialization[segment_start];
        self.serialization.truncate(segment_start);
        self.serialization.push(c);
        self.serialization.push(0x3a);
        if slash {
            self.serialization.push(0x2f);
        }
        proof {
            assert(is_clean(c)) by {
                assert(0x41 <= c <= 0x7a);
            }
            assert(self@.ser.take(path_start as int) =~= before.take(path_start as int));
            if all_clean(before) {
                assert(all_clean(before.take(segment_start as int)));
            }
            if segment_read(before, path_start as int, segment_start as int, slash) {
                lemma_finish_drive(
                    before,
                    self@.ser,
                    path_start as int,
                    segment_start as int,
                    slash,
                );
            }
        }
    }

    /// Makes of what was written what the end of a segment asks for; the segment stands
    /// in the serialization from `segment_start` on, before the `/` that ended it where
    /// `slash` is set.
    pub fn finish_segment(
        &mut self,
        scheme_type: SchemeType,
        has_host: &mut bool,
        path_start: usize,
        segment_start: usize,
        slash: bool,
    )
        requires
            path_start <= segment_start <= old(self)@.ser.len(),
            slash ==> segment_start < old(self)@.ser.len(),
        ensures
            final(self).setup() == old(self).setup(),
            crate::parser::grows(old(self)@.log, final(self)@.log),
            ({
                let end = finish_segment(
                    scheme_type,
                    path_start as int,
                    old(self)@.ser,
                    old(self)@.log,
                    *old(has_host),
                    segment_start as int,
                    slash,
                );
                &&& final(self)@ == (Written { ser: end.ser, log: end.log })
                &&& *final(has_host) == end.has_host
            }),
            keeps(old(self)@.ser, final(self)@.ser, path_start as int),
            kept_clean(old(self)@.ser, final(self)@.ser),
            path_start < segment_start ==> path_start < final(self)@.ser.len() && final(self)@.ser[path_start as int] == old(self)@.ser[path_start as int],
            segment_read(old(self)@.ser, path_start as int, segment_start as int, slash)
                ==> segment_done(final(self)@.ser, path_start as int, slash),
    {
        let len = self.serialization.len();
        let segment_end = if slash {
            len - 1
        } else {
            len
        };
        let ghost before = self@.ser;
        let ghost segment = before.subrange(segment_start as int, segment_end as int);
        let kind = dot_segment(self.serialization.as_slice(), segment_start, segment_end);
        proof {
            lemma_dot_at(before, segment_start as int, segment_end as int);
        }
        if kind == 2 {
            self.remove_double_dot(scheme_type, path_start, segment_start, slash);
        } else if kind == 1 {
            self.remove_single_dot(path_start, segment_start, slash);
        } else if scheme_type.is_file() && segment_start > 0 && segment_start - 1 == path_start
            && is_drive_letter_at(self.serialization.as_slice(), segment_start, segment_end) {
            proof {
                assert(segment[0] == before[segment_start as int]);
            }
            self.write_drive_letter(path_start, segment_start, slash);
            if *has_host {
                self.log_violation(SyntaxViolation::FileWithHostAndWindowsDrive);
                *has_host = false;
            }
        } else {
            proof {
                assert(self@.ser.take(path_start as int) =~= before.take(path_start as int));
                if segment_read(before, path_start as int, segment_start as int, slash) {
                    lemma_finish_plain(before, path_start as int, segment_start as int, slash);
                }
            }
        }
    }

    /// Parses the path that starts at the cursor, where the path starts at `path_start`
    /// in the serialization. Sets `has_host` to `false` where the URL loses its host to a
    /// Windows drive letter. Returns the cursor where the path ended: at the end of the
    /// input, or at `?` or `#` where a whole URL is parsed.
    pub fn parse_path<'i>(
        &mut self,
        scheme_type: SchemeType,
        has_host: &mut bool,
        path_start: usize,
        input: Input<'i>,
    ) -> (r: Input<'i>)
        requires
            input@.wf(),
            path_start <= old(self)@.ser.len(),
        ensures
            final(self).setup() == old(self).setup(),
            crate::parser::grows(old(self)@.log, final(self)@.log),
            ({
                let outcome = path_outcome(
                    old(self).context,
                    scheme_type,
                    path_start as int,
                    input@.text,
                    input@.pos,
                    old(self)@,
                    *old(has_host),
                );
                &&& final(self)@ == outcome.written
                &&& *final(has_host) == outcome.has_host
                &&& r@ == input@.at(outcome.pos)
            }),
            r@.wf(),
            at_tail(r@),
            keeps(old(self)@.ser, final(self)@.ser, path_start as int),
            kept_clean(old(self)@.ser, final(self)@.ser),
            scheme_type is File ==> rooted(final(self)@.ser, path_start as int),
            rooted(old(self)@.ser, path_start as int) ==> rooted(
                final(self)@.ser,
                path_start as int,
            ),
            tidy(old(self)@.ser, path_start as int) ==> no_dots(
                final(self)@.ser,
                path_start as int,
                final(self)@.ser.len() as int,
            ),
            !(scheme_type is File) && path_start < old(self)@.ser.len() ==> path_start < final(self)@.ser.len() && final(self)@.ser[path_start as int] == old(self)@.ser[path_start as int],
    {
        let bytes = input.bytes();
        let mut i = input.position();
        let context = self.context;
        let ghost s = bytes@;
        let ghost goal = path_segments(
            context,
            scheme_type,
            path_start as int,
            s,
            i as int,
            old(self)@,
            *old(has_host),
        );
        proof {
            assert(old(self)@.ser.take(path_start as int) =~= old(self)@.ser.take(
                path_start as int,
            ));
        }
        loop
            invariant_except_break
                goal == path_segments(
                    context,
                    scheme_type,
                    path_start as int,
                    s,
                    i as int,
                    self@,
                    *has_host,
                ),
                tidy(old(self)@.ser, path_start as int) ==> tidy(self@.ser, path_start as int),
            invariant
                i <= s.len(),
                s == bytes@,
                s == input@.text,
                input@.wf(),
                goal == path_segments(
                    context,
                    scheme_type,
                    path_start as int,
                    s,
                    input@.pos,
                    old(self)@,
                    *old(has_host),
                ),
                context == old(self).context,
                self.context == context,
                self.setup() == old(self).setup(),
                crate::parser::grows(old(self)@.log, self@.log),
                path_start <= self@.ser.len(),
                keeps(old(self)@.ser, self@.ser, path_start as int),
                kept_clean(old(self)@.ser, self@.ser),
                rooted(old(self)@.ser, path_start as int) ==> rooted(self@.ser, path_start as int),
                path_start < old(self)@.ser.len() ==> path_start < self@.ser.len()
                    && self@.ser[path_start as int] == old(self)@.ser[path_start as int],
            ensures
                rooted(old(self)@.ser, path_start as int) ==> rooted(self@.ser, path_start as int),
                path_start < old(self)@.ser.len() ==> path_start < self@.ser.len()
                    && self@.ser[path_start as int] == old(self)@.ser[path_start as int],
                tidy(old(self)@.ser, path_start as int) ==> no_dots(
                    self@.ser,
                    path_start as int,
                    self@.ser.len() as int,
                ),
                i <= s.len(),
                self.setup() == old(self).setup(),
                crate::parser::grows(old(self)@.log, self@.log),
                path_start <= self@.ser.len(),
                keeps(old(self)@.ser, self@.ser, path_start as int),
                kept_clean(old(self)@.ser, self@.ser),
                goal == (PathOutcome { written: self@, has_host: *has_host, pos: i as int }),
                i == s.len() || (context == Context::UrlParser && (s[i as int] == 0x3f || s[i as int]
                    == 0x23)),
            decreases s.len() - i,
        {
            let ghost before = self@.ser;
            let (pos, segment_start, slash) = self.scan_segment(scheme_type, path_start, input, i);
            let ghost scanned = self@.ser;
            self.finish_segment(scheme_type, has_host, path_start, segment_start, slash);
            proof {
                if rooted(before, path_start as int) {
                    lemma_keeps_index(before, scanned, before.len() as int, path_start as int);
                }
                if path_start < before.len() {
                    lemma_keeps_index(before, scanned, before.len() as int, path_start as int);
                }
                if tidy(before, path_start as int) {
                    let ps = path_start as int;
                    let ss = segment_start as int;
                    assert forall|x: int| 0 <= x < before.len() implies scanned[x] == before[x] by {
                        lemma_keeps_index(before, scanned, before.len() as int, x);
                    }
                    if ss == before.len() {
                        lemma_no_dots_before_kept(before, scanned, ps, ss);
                    } else {
                        let pushed = before.push(0x2f);
                        lemma_tidy_no_dots(before, ps);
                        lemma_no_dots_push_slash(before, ps);
                        lemma_no_dots_before_kept(pushed, scanned, ps, ss);
                    }
                    assert(segment_read(scanned, ps, ss, slash));
                }
                assert(scanned.take(path_start as int) =~= scanned.take(
                    before.len() as int,
                ).take(path_start as int));
                assert(before.take(path_start as int) =~= before.take(before.len() as int).take(
                    path_start as int,
                ));
            }
            i = pos;
            if !slash {
                break ;
            }
        }
        if scheme_type.is_file() {
            let ghost read = self@.ser;
            let mut k: usize = 0;
            let len = self.serialization.len();
            while path_start + k < len && self.serialization[path_start + k] == 0x2f
                invariant
                    path_start + k <= len,
                    len == self@.ser.len(),
                    self@.ser == read,
                    leading_slashes(read, path_start as int) == k + leading_slashes(
                        read,
                        path_start + k,
                    ),
                decreases self@.ser.len() - k,
            {
                k += 1;
            }
            let mut tail = self.serialization.split_off(path_start + k);
            self.serialization.truncate(path_start);
            self.serialization.push(0x2f);
            self.serialization.append(&mut tail);
            proof {
                assert(self@.ser =~= one_leading_slash(read, path_start as int));
                assert(self@.ser.take(path_start as int) =~= read.take(path_start as int));
                if tidy(old(self)@.ser, path_start as int) {
                    lemma_collapse(read, path_start as int);
                }
                if all_clean(read) {
                    assert(all_clean(self@.ser)) by {
                        assert forall|x: int| 0 <= x < self@.ser.len() implies is_clean(
                            #[trigger] self@.ser[x],
                        ) by {
                            if x < path_start {
                                assert(self@.ser[x] == read[x]);
                            } else if x > path_start {
                                assert(self@.ser[x] == read[x - 1 + k]);
                            }
                        }
                    }
                }
            }
        }
        proof {
            lemma_skip_ignored(s, i as int);
        }
        input.at(i)
    }

    /// Parses the start of a path and the path. Returns the cursor where the path ended.
    pub fn parse_path_start<'i>(
        &mut self,
        scheme_type: SchemeType,
        has_host: &mut bool,
        input: Input<'i>,
    ) -> (r: Input<'i>)
        requires
            input@.wf(),
        ensures
            final(self).setup() == old(self).setup(),
            crate::parser::grows(old(self)@.log, final(self)@.log),
            ({
                let outcome = path_start_outcome(
                    old(self).context,
                    scheme_type,
                    input@.text,
                    input@.pos,
                    old(self)@,
                    *old(has_host),
                );
                &&& final(self)@ == outcome.written
                &&& *final(has_host) == outcome.has_host
                &&& r@ == input@.at(outcome.pos)
            }),
            r@.wf(),
            at_tail(r@),
            keeps(old(self)@.ser, final(self)@.ser, old(self)@.ser.len() as int),
            kept_clean(old(self)@.ser, final(self)@.ser),
            scheme_type.special() && (scheme_type is File || !ends_with_slash(old(self)@.ser))
                ==> rooted(final(self)@.ser, old(self)@.ser.len() as int),
            no_dots(
                final(self)@.ser,
                old(self)@.ser.len() as int,
                final(self)@.ser.len() as int,
            ),
    {
        let path_start = self.serialization.len();
        let maybe_c = input.peek_byte();
        let remaining = input.advanced();
        let ghost before = self@.ser;
        proof {
            lemma_skip_ignored(input@.text, input@.pos);
            lemma_settled_end(before, path_start as int);
            assert(no_dots(before, path_start as int, path_start as int));
            lemma_no_dots_push_slash(before, path_start as int);
            assert(tidy(before, path_start as int));
        }
        if scheme_type.is_special() {
            if maybe_c == Some(0x5c) {
                self.log_violation(SyntaxViolation::Backslash);
            }
            if !ends_in_slash(&self.serialization) {
                self.serialization.push(0x2f);
                if maybe_c == Some(0x2f) || maybe_c == Some(0x5c) {
                    let r = self.parse_path(scheme_type, has_host, path_start, remaining);
                    proof {
                        assert(self@.ser.take(path_start as int) =~= before.take(
                            path_start as int,
                        ));
                    }
                    return r;
                }
            }
            let r = self.parse_path(scheme_type, has_host, path_start, input);
            proof {
                assert(self@.ser.take(path_start as int) =~= before.take(path_start as int));
            }
            return r;
        } else if maybe_c == Some(0x3f) || maybe_c == Some(0x23) {
            proof {
                assert(self@.ser.take(path_start as int) =~= before.take(path_start as int));
            }
            return input;
        }
        if maybe_c.is_some() && maybe_c != Some(0x2f) {
            self.serialization.push(0x2f);
        }
        let r = self.parse_path(scheme_type, has_host, path_start, input);
        proof {
            assert(self@.ser.take(path_start as int) =~= before.take(path_start as int));
        }
        r
    }

    /// Parses a path that cannot be a base: writes its bytes percent-encoded under the
    /// set of the C0 controls, tabs and newlines left out, and reports what its
    /// characters give. Returns the cursor where the path ended.
    pub fn parse_cannot_be_a_base_path<'i>(&mut self, input: Input<'i>) -> (r: Input<'i>)
        requires
            input@.wf(),
        ensures
            final(self).setup() == old(self).setup(),
            crate::parser::grows(old(self)@.log, final(self)@.log),
            final(self)@ == opaque_path_written(
                old(self).context,
                old(self)@,
                input@.text,
                input@.pos,
            ),
            r@ == input@.at(opaque_path_end(old(self).context, input@.text, input@.pos)),
            r@.wf(),
            at_tail(r@),
            keeps(old(self)@.ser, final(self)@.ser, old(self)@.ser.len() as int),
            kept_clean(old(self)@.ser, final(self)@.ser),
            peek(input@.text, input@.pos) != Some(0x2fu8) ==> !rooted(
                final(self)@.ser,
                old(self)@.ser.len() as int,
            ),
    {
        let bytes = input.bytes();
        let pos = input.position();
        let end = if self.context == Context::UrlParser {
            find_first_of(bytes, pos, 0x3f, 0x23)
        } else {
            bytes.len()
        };
        let ghost before = self@.ser;
        self.encode_run(input, end, controls(), false);
        proof {
            lemma_sets_hold_controls();
            lemma_encode_clean(stripped(input@.text, input@.pos, end as int), controls_set());
            assert(self@.ser.take(before.len() as int) =~= before.take(before.len() as int));
            lemma_skip_ignored(input@.text, end as int);
            let run = stripped(input@.text, input@.pos, end as int);
            crate::parser::scan::lemma_stripped_first(input@.text, input@.pos, end as int);
            lemma_skip_ignored(input@.text, input@.pos);
            if run.len() > 0 {
                crate::parser::scan::lemma_encode_first(run, controls_set());
                assert(self@.ser[before.len() as int] == encode(run, controls_set())[0]);
            } else {
                assert(encode(run, controls_set()).len() == 0);
            }
        }
        input.at(end)
    }
}

/// Whether the cursor stands where the query and fragment start: no character is left,
/// or the next is `?` or `#`.
pub open spec fn at_tail(input: InputView) -> bool {
    peek(input.text, input.pos) is None || peek(input.text, input.pos) == Some(0x3fu8) || peek(
        input.text,
        input.pos,
    ) == Some(0x23u8)
}

} // verus!
