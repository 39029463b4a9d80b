//! The URL record: a normalized serialization and the offsets of its components.

use vstd::prelude::*;
use vstd::string::StringSliceAdditionalSpecFns;
use vstd::utf8::{encode_utf8, is_ascii_chars};
use crate::host::HostInternal;
use crate::percent::as_text;
use crate::chars::decimal;
use crate::scheme::{default_port_of, scheme_type_of};
use crate::text::{lemma_ascii_is_utf8, lemma_ascii_text};

verus! {

/// Whether `b` may stand in a serialization: a printable ASCII byte or a space. No tab,
/// line feed or carriage return is one.
pub open spec fn is_clean(b: u8) -> bool {
    0x20 <= b <= 0x7e
}

/// Whether all bytes of `s` may stand in a serialization.
pub open spec fn all_clean(s: Seq<u8>) -> bool {
    forall|i: int| 0 <= i < s.len() ==> is_clean(#[trigger] s[i])
}

/// Whether `b` may stand in a serialized scheme: a lower-case ASCII letter, a digit, or
/// one of `+`, `-` and `.`.
pub open spec fn is_scheme_byte(b: u8) -> bool {
    (0x61 <= b <= 0x7a) || (0x30 <= b <= 0x39) || b == 0x2b || b == 0x2d || b == 0x2e
}

/// The index behind the path of a serialization of length `len`: where the query starts,
/// or else the fragment, or else the end of the serialization.
pub open spec fn path_end_of(len: int, query_start: Option<int>, fragment_start: Option<int>) -> int {
    match (query_start, fragment_start) {
        (Some(q), _) => q,
        (None, Some(f)) => f,
        (None, None) => len,
    }
}

/// What a URL record stands for: the bytes of its serialization, all of them ASCII, and
/// the offsets of the components in them.
pub struct UrlView {
    pub ser: Seq<u8>,
    pub scheme_end: int,
    pub username_end: int,
    pub host_start: int,
    pub host_end: int,
    pub host: HostInternal,
    pub port: Option<u16>,
    pub path_start: int,
    pub query_start: Option<int>,
    pub fragment_start: Option<int>,
}

impl UrlView {
    /// The index behind the path: where the query starts, or else the fragment, or else
    /// the end of the serialization.
    pub open spec fn path_end(self) -> int {
        path_end_of(self.ser.len() as int, self.query_start, self.fragment_start)
    }

    /// The index behind the query, or behind the path where there is no query.
    pub open spec fn before_fragment(self) -> int {
        match self.fragment_start {
            Some(f) => f,
            None => self.ser.len() as int,
        }
    }

    /// The scheme.
    pub open spec fn scheme(self) -> Seq<u8> {
        self.ser.take(self.scheme_end)
    }

    /// The record is laid out as a URL is: the offsets stand in order and divide the
    /// serialization into scheme, `:`, authority, path, `?` and query, `#` and fragment;
    /// the scheme is lower-case and starts with a letter; no byte is a control, and none
    /// is outside ASCII; a port is recorded only where it is not the scheme's default; the
    /// path of a special scheme starts with `/`; and a path that starts with `/` holds no
    /// dot segment.
    pub open spec fn wf(self) -> bool {
        &&& all_clean(self.ser)
        &&& head_ok(
            self.ser,
            self.scheme_end,
            self.username_end,
            self.host_start,
            self.host_end,
            self.host,
            self.path_start,
            self.port,
        )
        &&& tail_ok(self.ser, self.path_start, self.query_start, self.fragment_start)
        &&& (scheme_type_of(self.scheme()).special() ==> self.path_start < self.path_end()
            && self.ser[self.path_start] == 0x2f)
        &&& (rooted(self.ser, self.path_start) ==> no_dots(
            self.ser,
            self.path_start,
            self.path_end(),
        ))
    }
}

/// Whether the bytes of `ser` before index `scheme_end` are a scheme, and a `:` stands
/// at that index: the scheme starts with a lower-case letter and is made of lower-case
/// letters, digits, `+`, `-` and `.`.
pub open spec fn scheme_ok(ser: Seq<u8>, scheme_end: int) -> bool {
    &&& 0 < scheme_end < ser.len()
    &&& 0x61 <= ser[0] <= 0x7a
    &&& forall|i: int| 0 <= i < scheme_end ==> is_scheme_byte(#[trigger] ser[i])
    &&& ser[scheme_end] == 0x3a
}

/// Whether the offsets up to the path are those of a URL written `ser`: behind the scheme
/// and its `:` stands either no authority, and user name and host are empty at that
/// index; or `//` and the authority, with the offsets in order. A special scheme has an
/// authority. The host is `NoHost` exactly where its text is empty. A port is recorded
/// only where it is not the default port of the scheme, and stands behind the host then,
/// behind a `:` and in decimal digits; the path starts behind it. Without a port the path
/// of a URL with an authority starts behind the host. Without an authority the path
/// starts behind the `:` of the scheme, or behind `/.` there.
pub open spec fn head_ok(
    ser: Seq<u8>,
    scheme_end: int,
    username_end: int,
    host_start: int,
    host_end: int,
    host: HostInternal,
    path_start: int,
    port: Option<u16>,
) -> bool {
    &&& scheme_ok(ser, scheme_end)
    &&& username_end <= host_start <= host_end <= path_start <= ser.len()
    &&& ((username_end == scheme_end + 1 && host_end == username_end) || (scheme_end + 3
        <= username_end && ser[scheme_end + 1] == 0x2f && ser[scheme_end + 2] == 0x2f))
    &&& (scheme_type_of(ser.take(scheme_end)).special() ==> scheme_end + 3 <= username_end)
    &&& ((host == HostInternal::NoHost) == (host_start == host_end))
    &&& (port matches Some(p) ==> port != default_port_of(ser.take(scheme_end)) && scheme_end
        + 3 <= username_end && ser.subrange(host_end, path_start) == seq![0x3au8] + decimal(
        p as nat,
    ))
    &&& (port is None && scheme_end + 3 <= username_end ==> path_start == host_end)
    &&& (username_end == scheme_end + 1 ==> path_start == scheme_end + 1 || (path_start
        == scheme_end + 3 && ser[scheme_end + 1] == 0x2f && ser[scheme_end + 2] == 0x2e))
}

/// Whether a `/` stands at index `path_start` of `ser`: the path is not empty and starts
/// with `/`.
pub open spec fn rooted(ser: Seq<u8>, path_start: int) -> bool {
    0 <= path_start < ser.len() && ser[path_start] == 0x2f
}

/// Whether the scheme that stands in `ser` before index `scheme_end` is special.
pub open spec fn special_scheme(ser: Seq<u8>, scheme_end: int) -> bool {
    scheme_type_of(ser.take(scheme_end)).special()
}

/// Whether `%2e` or `%2E` stands at index `k` of `ser`.
pub open spec fn encoded_dot(ser: Seq<u8>, k: int) -> bool {
    ser[k] == 0x25 && ser[k + 1] == 0x32 && (ser[k + 2] == 0x65 || ser[k + 2] == 0x45)
}

/// Whether the bytes of `ser` from `a` to `b` are a dot segment: one dot or two, each as
/// `.` or as `%2e` in either case.
pub open spec fn dot_at(ser: Seq<u8>, a: int, b: int) -> bool {
    ||| (b - a == 1 && ser[a] == 0x2e)
    ||| (b - a == 3 && encoded_dot(ser, a))
    ||| (b - a == 2 && ser[a] == 0x2e && ser[a + 1] == 0x2e)
    ||| (b - a == 4 && ser[a] == 0x2e && encoded_dot(ser, a + 1))
    ||| (b - a == 4 && encoded_dot(ser, a) && ser[a + 3] == 0x2e)
    ||| (b - a == 6 && encoded_dot(ser, a) && encoded_dot(ser, a + 3))
}

/// Whether a segment of the path that starts at `path_start` can start at index `a` of
/// `ser`: at the start of the path, or behind a `/` of it.
pub open spec fn segment_start(ser: Seq<u8>, path_start: int, a: int) -> bool {
    a == path_start || (path_start < a && ser[a - 1] == 0x2f)
}

/// Whether no dot segment of the path that starts at `path_start` ends at a `/` before
/// index `m`.
pub open spec fn no_dots_before(ser: Seq<u8>, path_start: int, m: int) -> bool {
    forall|a: int, b: int|
        path_start <= a <= b < m && segment_start(ser, path_start, a) && ser[b] == 0x2f
            ==> !#[trigger] dot_at(ser, a, b)
}

/// Whether no dot segment of the path that starts at `path_start` ends at index `end`.
pub open spec fn no_dot_at_end(ser: Seq<u8>, path_start: int, end: int) -> bool {
    forall|a: int|
        path_start <= a <= end && segment_start(ser, path_start, a) ==> !#[trigger] dot_at(
            ser,
            a,
            end,
        )
}

/// Whether no segment of the path that stands in `ser` from `path_start` to `path_end`
/// is a dot segment.
pub open spec fn no_dots(ser: Seq<u8>, path_start: int, path_end: int) -> bool {
    no_dots_before(ser, path_start, path_end) && no_dot_at_end(ser, path_start, path_end)
}

/// Whether `b` can stand in a dot segment: `.`, `%`, `2`, `e` or `E`.
pub open spec fn is_dot_byte(b: u8) -> bool {
    b == 0x2e || b == 0x25 || b == 0x32 || b == 0x65 || b == 0x45
}

/// Whether what `ser` holds of the path that starts at `path_start` is free of dot
/// segments and can be gone on from: no dot segment ends at a `/`, and the path is empty
/// or ends in a byte that no dot segment holds, as `/` and `:` are.
pub open spec fn tidy(ser: Seq<u8>, path_start: int) -> bool {
    &&& path_start <= ser.len()
    &&& no_dots_before(ser, path_start, ser.len() as int)
    &&& (ser.len() == path_start || !is_dot_byte(ser.last()))
}

/// A path that is tidy holds no dot segment.
pub proof fn lemma_tidy_no_dots(ser: Seq<u8>, path_start: int)
    requires
        0 <= path_start,
        tidy(ser, path_start),
    ensures
        no_dots(ser, path_start, ser.len() as int),
{
    let end = ser.len() as int;
    assert forall|a: int| path_start <= a <= end && segment_start(ser, path_start, a)
        implies !#[trigger] dot_at(ser, a, end) by {
        if a < end {
            assert(!is_dot_byte(ser[end - 1]));
        }
    }
}

/// A dot segment is made of dot bytes.
pub proof fn lemma_dot_bytes(ser: Seq<u8>, a: int, b: int, k: int)
    requires
        dot_at(ser, a, b),
        a <= k < b,
    ensures
        is_dot_byte(ser[k]),
{
}

/// A path that is empty, or ends in a byte that no dot segment holds, ends in no dot
/// segment.
pub proof fn lemma_settled_end(ser: Seq<u8>, path_start: int)
    requires
        0 <= path_start <= ser.len(),
        ser.len() == path_start || !is_dot_byte(ser.last()),
    ensures
        no_dot_at_end(ser, path_start, ser.len() as int),
{
    let end = ser.len() as int;
    assert forall|a: int| path_start <= a <= end && segment_start(ser, path_start, a)
        implies !#[trigger] dot_at(ser, a, end) by {
        if a < end && dot_at(ser, a, end) {
            lemma_dot_bytes(ser, a, end, end - 1);
        }
    }
}

/// What is cut off a tidy path behind a byte that no dot segment holds leaves a tidy
/// path.
pub proof fn lemma_tidy_cut(ser: Seq<u8>, path_start: int, k: int)
    requires
        0 <= path_start <= k <= ser.len(),
        no_dots_before(ser, path_start, k),
        k == path_start || !is_dot_byte(ser[k - 1]),
    ensures
        tidy(ser.take(k), path_start),
{
    lemma_no_dots_before_kept(ser, ser.take(k), path_start, k);
}

/// A path that is moved holds the dot segments that it held.
pub proof fn lemma_no_dots_moved(
    old: Seq<u8>,
    new: Seq<u8>,
    old_start: int,
    new_start: int,
    len: int,
)
    requires
        0 <= old_start,
        0 <= new_start,
        0 <= len,
        old_start + len <= old.len(),
        new_start + len <= new.len(),
        forall|j: int| 0 <= j < len ==> #[trigger] new[new_start + j] == old[old_start + j],
        no_dots(old, old_start, old_start + len),
    ensures
        no_dots(new, new_start, new_start + len),
{
    let d = old_start - new_start;
    assert forall|a: int, b: int|
        new_start <= a <= b <= new_start + len && segment_start(new, new_start, a) && (b
            == new_start + len || new[b] == 0x2f) implies !dot_at(new, a, b) by {
        let a0 = a + d;
        let b0 = b + d;
        assert(segment_start(old, old_start, a0)) by {
            if a > new_start {
                assert(new[new_start + (a - 1 - new_start)] == old[old_start + (a - 1
                    - new_start)]);
            }
        }
        if b < new_start + len {
            assert(new[new_start + (b - new_start)] == old[old_start + (b - new_start)]);
            assert(!dot_at(old, a0, b0));
        } else {
            assert(!dot_at(old, a0, b0));
        }
        assert forall|j: int| a <= j < b implies new[j] == old[j + d] by {
            assert(new[new_start + (j - new_start)] == old[old_start + (j - new_start)]);
        }
        assert(dot_at(new, a, b) == dot_at(old, a0, b0));
    }
}

/// A path holds the dot segments that it held where something is written behind it.
pub proof fn lemma_no_dots_kept(old: Seq<u8>, new: Seq<u8>, path_start: int, path_end: int)
    requires
        0 <= path_start <= path_end,
        path_end <= old.len(),
        path_end <= new.len(),
        forall|i: int| 0 <= i < path_end ==> new[i] == old[i],
        no_dots(old, path_start, path_end),
    ensures
        no_dots(new, path_start, path_end),
{
    lemma_no_dots_before_kept(old, new, path_start, path_end);
    lemma_no_dot_at_end_kept(old, new, path_start, path_end);
}

/// Dot segments of the path are a matter of its bytes: a serialization that holds the
/// same bytes before index `m` holds the same dot segments before it.
pub proof fn lemma_no_dots_before_kept(old: Seq<u8>, new: Seq<u8>, path_start: int, m: int)
    requires
        0 <= path_start,
        m <= old.len(),
        m <= new.len(),
        forall|i: int| 0 <= i < m ==> new[i] == old[i],
        no_dots_before(old, path_start, m),
    ensures
        no_dots_before(new, path_start, m),
{
    assert forall|a: int, b: int|
        path_start <= a <= b < m && segment_start(new, path_start, a) && new[b]
            == 0x2f implies !#[trigger] dot_at(new, a, b) by {
        assert(segment_start(old, path_start, a));
        assert(!dot_at(old, a, b));
    }
}

/// The same at the end of the path.
pub proof fn lemma_no_dot_at_end_kept(old: Seq<u8>, new: Seq<u8>, path_start: int, end: int)
    requires
        0 <= path_start,
        end <= old.len(),
        end <= new.len(),
        forall|i: int| 0 <= i < end ==> new[i] == old[i],
        no_dot_at_end(old, path_start, end),
    ensures
        no_dot_at_end(new, path_start, end),
{
    assert forall|a: int|
        path_start <= a <= end && segment_start(new, path_start, a) implies !#[trigger] dot_at(
        new,
        a,
        end,
    ) by {
        assert(segment_start(old, path_start, a));
        assert(!dot_at(old, a, end));
    }
}

/// A `/` behind a path without dot segments ends no dot segment.
pub proof fn lemma_no_dots_push_slash(ser: Seq<u8>, path_start: int)
    requires
        0 <= path_start <= ser.len(),
        no_dots(ser, path_start, ser.len() as int),
    ensures
        tidy(ser.push(0x2f), path_start),
{
    let new = ser.push(0x2f);
    let end = ser.len() as int;
    assert forall|a: int, b: int|
        path_start <= a <= b < new.len() && segment_start(new, path_start, a) && new[b]
            == 0x2f implies !#[trigger] dot_at(new, a, b) by {
        assert(segment_start(ser, path_start, a));
        if b < end {
            assert(!dot_at(ser, a, b));
        } else {
            assert(!dot_at(ser, a, end));
        }
    }
}

/// Bytes without a `/` behind a path end no dot segment at a `/`.
pub proof fn lemma_no_dots_before_grown(old: Seq<u8>, new: Seq<u8>, path_start: int)
    requires
        0 <= path_start,
        old.len() <= new.len(),
        forall|i: int| 0 <= i < old.len() ==> new[i] == old[i],
        forall|i: int| old.len() <= i < new.len() ==> new[i] != 0x2f,
        no_dots_before(old, path_start, old.len() as int),
    ensures
        no_dots_before(new, path_start, new.len() as int),
{
    assert forall|a: int, b: int|
        path_start <= a <= b < new.len() && segment_start(new, path_start, a) && new[b]
            == 0x2f implies !#[trigger] dot_at(new, a, b) by {
        assert(b < old.len());
        assert(segment_start(old, path_start, a));
        assert(!dot_at(old, a, b));
    }
}

/// Whether the offsets of query and fragment are those of a URL written `ser` whose path
/// starts at `path_start`: each stands at its `?` or `#`, the query before the fragment.
pub open spec fn tail_ok(
    ser: Seq<u8>,
    path_start: int,
    query_start: Option<int>,
    fragment_start: Option<int>,
) -> bool {
    &&& (query_start matches Some(q) ==> path_start <= q < ser.len() && ser[q] == 0x3f)
    &&& (fragment_start matches Some(f) ==> path_start <= f < ser.len() && ser[f] == 0x23)
    &&& (query_start matches Some(q) ==> (fragment_start matches Some(f) ==> q < f))
}

/// What stands before the path stays what it is while the serialization grows or
/// changes behind it.
pub proof fn lemma_head_kept(
    old: Seq<u8>,
    new: Seq<u8>,
    scheme_end: int,
    username_end: int,
    host_start: int,
    host_end: int,
    host: HostInternal,
    path_start: int,
    port: Option<u16>,
    k: int,
)
    requires
        head_ok(old, scheme_end, username_end, host_start, host_end, host, path_start, port),
        path_start <= k,
        scheme_end < k <= new.len(),
        k <= old.len(),
        new.take(k) == old.take(k),
        path_start <= new.len(),
    ensures
        head_ok(new, scheme_end, username_end, host_start, host_end, host, path_start, port),
{
    assert forall|i: int| 0 <= i < k implies new[i] == old[i] by {
        assert(new[i] == new.take(k)[i]);
        assert(old[i] == old.take(k)[i]);
    }
    assert(new.take(scheme_end) =~= old.take(scheme_end));
    assert forall|i: int| 0 <= i < scheme_end implies is_scheme_byte(#[trigger] new[i]) by {
        assert(is_scheme_byte(old[i]));
    }
    if port is Some {
        assert(new.subrange(host_end, path_start) =~= old.subrange(host_end, path_start));
    }
}

/// A port stands behind the host of a URL that has one, and nothing else does before
/// the path: the serialization leaves out a port that is not recorded.
pub proof fn lemma_port_is_written(
    ser: Seq<u8>,
    scheme_end: int,
    username_end: int,
    host_start: int,
    host_end: int,
    host: HostInternal,
    path_start: int,
    port: Option<u16>,
)
    requires
        head_ok(ser, scheme_end, username_end, host_start, host_end, host, path_start, port),
    ensures
        port matches Some(p) ==> ser.subrange(host_end, path_start) == seq![0x3au8] + decimal(
            p as nat,
        ),
        port is None && host != HostInternal::NoHost ==> path_start == host_end,
{
}

impl UrlView {
    /// The scheme is lower-case and starts with a letter.
    pub proof fn lemma_scheme_is_lower_case(self)
        requires
            self.wf(),
        ensures
            self.scheme().len() > 0,
            0x61 <= self.scheme()[0] <= 0x7a,
            forall|i: int|
                0 <= i < self.scheme().len() ==> !(0x41 <= #[trigger] self.scheme()[i] <= 0x5a),
    {
        assert forall|i: int| 0 <= i < self.scheme().len() implies !(0x41
            <= #[trigger] self.scheme()[i] <= 0x5a) by {
            assert(is_scheme_byte(self.ser[i]));
        }
    }

    /// No tab, line feed or carriage return stands in the serialization.
    pub proof fn lemma_no_tab_or_newline(self)
        requires
            self.wf(),
        ensures
            forall|i: int|
                0 <= i < self.ser.len() ==> !crate::chars::is_tab_or_newline(
                    #[trigger] self.ser[i],
                ),
    {
        assert forall|i: int| 0 <= i < self.ser.len() implies !crate::chars::is_tab_or_newline(
            #[trigger] self.ser[i],
        ) by {
            assert(is_clean(self.ser[i]));
        }
    }

    /// The offsets stand in order, within the serialization, and at the delimiters.
    pub proof fn lemma_offsets_in_order(self)
        requires
            self.wf(),
        ensures
            0 < self.scheme_end < self.username_end <= self.host_start <= self.host_end
                <= self.path_start <= self.path_end() <= self.before_fragment() <= self.ser.len(),
            self.ser[self.scheme_end] == 0x3a,
            self.query_start matches Some(q) ==> self.ser[q] == 0x3f,
            self.fragment_start matches Some(f) ==> self.ser[f] == 0x23,
    {
    }

    /// The path of a URL of a special scheme is not empty and starts with `/`.
    pub proof fn lemma_special_path_is_rooted(self)
        requires
            self.wf(),
            scheme_type_of(self.scheme()).special(),
        ensures
            self.path_start < self.path_end(),
            self.ser[self.path_start] == 0x2f,
    {
    }

    /// A URL that cannot be a base, since no `/` stands behind the `:` of its scheme,
    /// has no host and no port.
    pub proof fn lemma_cannot_be_a_base(self)
        requires
            self.wf(),
            !(self.scheme_end + 1 < self.ser.len() && self.ser[self.scheme_end + 1] == 0x2f),
        ensures
            self.host == HostInternal::NoHost,
            self.port is None,
            self.path_start == self.scheme_end + 1,
            !(self.path_start < self.ser.len() && self.ser[self.path_start] == 0x2f),
    {
    }

    /// No segment of a path that starts with `/` is a dot segment: for every segment,
    /// which stands between the start of the path or a `/` and a `/` or the end of the
    /// path, the bytes are none of `.`, `..` and their forms with `%2e` in either case.
    pub proof fn lemma_no_dot_segments(self, a: int, b: int)
        requires
            self.wf(),
            rooted(self.ser, self.path_start),
            self.path_start <= a <= b <= self.path_end(),
            a == self.path_start || self.ser[a - 1] == 0x2f,
            b == self.path_end() || self.ser[b] == 0x2f,
        ensures
            !dot_at(self.ser, a, b),
    {
        assert(segment_start(self.ser, self.path_start, a));
    }

    /// A recorded port is not the default port of the scheme.
    pub proof fn lemma_port_is_not_default(self)
        requires
            self.wf(),
        ensures
            self.port is Some ==> self.port != default_port_of(self.scheme()),
    {
    }
}

/// The bytes of an ASCII text.
pub open spec fn bytes_of(text: Seq<char>) -> Seq<u8> {
    Seq::new(text.len(), |i: int| text[i] as u8)
}

/// A parsed URL: its serialization and the offsets of its components, in bytes.
#[derive(Debug, PartialEq, Eq)]
pub struct Url {
    serialization: String,
    scheme_end: u32,
    username_end: u32,
    host_start: u32,
    host_end: u32,
    host: HostInternal,
    port: Option<u16>,
    path_start: u32,
    query_start: Option<u32>,
    fragment_start: Option<u32>,
}

/// The offset, where there is one, as a mathematical integer.
pub open spec fn as_int(offset: Option<u32>) -> Option<int> {
    match offset {
        Some(i) => Some(i as int),
        None => None,
    }
}

impl View for Url {
    type V = UrlView;

    closed spec fn view(&self) -> UrlView {
        UrlView {
            ser: bytes_of(self.serialization@),
            scheme_end: self.scheme_end as int,
            username_end: self.username_end as int,
            host_start: self.host_start as int,
            host_end: self.host_end as int,
            host: self.host,
            port: self.port,
            path_start: self.path_start as int,
            query_start: as_int(self.query_start),
            fragment_start: as_int(self.fragment_start),
        }
    }
}

impl Url {
    #[verifier::type_invariant]
    spec fn inv(self) -> bool {
        is_ascii_chars(self.serialization@) && self@.wf()
    }

    /// The record with the given serialization and offsets.
    pub fn new(
        serialization: Vec<u8>,
        scheme_end: u32,
        username_end: u32,
        host_start: u32,
        host_end: u32,
        host: HostInternal,
        port: Option<u16>,
        path_start: u32,
        query_start: Option<u32>,
        fragment_start: Option<u32>,
    ) -> (r: Url)
        requires
            (UrlView {
                ser: serialization@,
                scheme_end: scheme_end as int,
                username_end: username_end as int,
                host_start: host_start as int,
                host_end: host_end as int,
                host,
                port,
                path_start: path_start as int,
                query_start: as_int(query_start),
                fragment_start: as_int(fragment_start),
            }).wf(),
        ensures
            r@ == (UrlView {
                ser: serialization@,
                scheme_end: scheme_end as int,
                username_end: username_end as int,
                host_start: host_start as int,
                host_end: host_end as int,
                host,
                port,
                path_start: path_start as int,
                query_start: as_int(query_start),
                fragment_start: as_int(fragment_start),
            }),
            r@.wf(),
    {
        let ghost bytes = serialization@;
        proof {
            assert forall|i: int| 0 <= i < bytes.len() implies bytes[i] < 128 by {
                assert(is_clean(bytes[i]));
            }
            lemma_ascii_is_utf8(bytes);
        }
        let text = match String::from_utf8(serialization) {
            Ok(text) => text,
            Err(_) => String::new(),
        };
        proof {
            vstd::utf8::decode_utf8_encode_utf8(bytes);
            lemma_ascii_text(text@, bytes);
            assert(bytes_of(text@) =~= bytes);
            assert forall|i: int| 0 <= i < text@.len() implies '\0' <= #[trigger] text@[i]
                <= '\u{7f}' by {
                assert(text@[i] == bytes[i] as char);
            }
        }
        Url {
            serialization: text,
            scheme_end,
            username_end,
            host_start,
            host_end,
            host,
            port,
            path_start,
            query_start,
            fragment_start,
        }
    }

    /// The serialization.
    pub fn as_str(&self) -> (r: &str)
        ensures
            r@ == as_text(self@.ser),
            r.spec_bytes() == self@.ser,
            self@.wf(),
    {
        proof {
            use_type_invariant(self);
            vstd::utf8::is_ascii_chars_encode_utf8(self.serialization@);
            assert(encode_utf8(self.serialization@) =~= self@.ser);
            assert(self.serialization@ =~= as_text(self@.ser));
        }
        self.serialization.as_str()
    }

    /// The bytes of the serialization.
    pub fn as_bytes(&self) -> (r: &[u8])
        ensures
            r@ == self@.ser,
            self@.wf(),
    {
        self.as_str().as_bytes()
    }

    /// The index of the `:` behind the scheme.
    pub fn scheme_end(&self) -> (r: u32)
        ensures
            r == self@.scheme_end,
    {
        self.scheme_end
    }

    /// The index behind the user name.
    pub fn username_end(&self) -> (r: u32)
        ensures
            r == self@.username_end,
    {
        self.username_end
    }

    /// The index of the first byte of the host.
    pub fn host_start(&self) -> (r: u32)
        ensures
            r == self@.host_start,
    {
        self.host_start
    }

    /// The index behind the host.
    pub fn host_end(&self) -> (r: u32)
        ensures
            r == self@.host_end,
    {
        self.host_end
    }

    /// The kind of the host.
    pub fn host(&self) -> (r: HostInternal)
        ensures
            r == self@.host,
    {
        self.host
    }

    /// The port, where the URL has one that is not its scheme's default.
    pub fn port(&self) -> (r: Option<u16>)
        ensures
            r == self@.port,
    {
        self.port
    }

    /// The index of the first byte of the path.
    pub fn path_start(&self) -> (r: u32)
        ensures
            r == self@.path_start,
    {
        self.path_start
    }

    /// The index of the `?` before the query, where there is one.
    pub fn query_start(&self) -> (r: Option<u32>)
        ensures
            as_int(r) == self@.query_start,
    {
        self.query_start
    }

    /// The index of the `#` before the fragment, where there is one.
    pub fn fragment_start(&self) -> (r: Option<u32>)
        ensures
            as_int(r) == self@.fragment_start,
    {
        self.fragment_start
    }

    /// Whether the URL cannot be a base: no `/` stands behind the `:` of its scheme.
    pub fn cannot_be_a_base(&self) -> (r: bool)
        ensures
            r == !(self@.scheme_end + 1 < self@.ser.len() && self@.ser[self@.scheme_end + 1]
                == 0x2f),
    {
        let bytes = self.as_bytes();
        let after = self.scheme_end as usize + 1;
        !(after < bytes.len() && bytes[after] == 0x2f)
    }

    /// The index behind the path.
    pub fn path_end(&self) -> (r: usize)
        ensures
            r == self@.path_end(),
            self@.wf(),
    {
        let bytes = self.as_bytes();
        match (self.query_start, self.fragment_start) {
            (Some(q), _) => q as usize,
            (None, Some(f)) => f as usize,
            (None, None) => bytes.len(),
        }
    }

    /// The index behind the query, or behind the path where there is no query.
    pub fn before_fragment(&self) -> (r: usize)
        ensures
            r == self@.before_fragment(),
            self@.wf(),
    {
        let bytes = self.as_bytes();
        match self.fragment_start {
            Some(f) => f as usize,
            None => bytes.len(),
        }
    }
}

} // verus!
