//! What this library takes on trust of the standard library's conversions between
//! bytes, characters and text, stated over `vstd`'s model of UTF-8.

use vstd::prelude::*;
use vstd::string::StringSliceAdditionalSpecFns;
use vstd::utf8::{decode_utf8, encode_utf8, is_ascii_chars, is_scalar, valid_utf8};
use std::borrow::Cow;
use std::str::Utf8Error;
use std::string::FromUtf8Error;

verus! {

/// The error of `core::str::from_utf8`, carried through unread.
#[verifier::external_type_specification]
#[verifier::external_body]
pub struct ExUtf8Error(Utf8Error);

/// The error of `String::from_utf8`, carried through unread.
#[verifier::external_type_specification]
#[verifier::external_body]
pub struct ExFromUtf8Error(FromUtf8Error);

/// `core::str::from_utf8` succeeds exactly on well-formed UTF-8, and the text it returns
/// is made of the bytes it was given.
pub assume_specification<'a>[ core::str::from_utf8 ](v: &'a [u8]) -> (r: Result<&'a str, Utf8Error>)
    ensures
        r is Ok <==> valid_utf8(v@),
        r matches Ok(s) ==> s.spec_bytes() == v@,
;

/// `String::from_utf8` succeeds exactly on well-formed UTF-8, and the text it returns
/// is what the bytes decode to.
pub assume_specification[ String::from_utf8 ](vec: Vec<u8>) -> (r: Result<String, FromUtf8Error>)
    ensures
        r is Ok <==> valid_utf8(vec@),
        r matches Ok(s) ==> s@ == decode_utf8(vec@),
;

/// `FromUtf8Error::utf8_error` hands out the underlying error; nothing is claimed of it.
pub assume_specification[ FromUtf8Error::utf8_error ](e: &FromUtf8Error) -> (r: Utf8Error)
;

/// `char::from_u32` returns the character with the given scalar value, and `None` for a
/// number that is no Unicode scalar value.
pub assume_specification[ char::from_u32 ](i: u32) -> (r: Option<char>)
    ensures
        is_scalar(i) ==> r == Some(i as char),
        !is_scalar(i) ==> r is None,
;

/// The text that `String::from_utf8_lossy` makes of `bytes`: the decoded text, with
/// U+FFFD in place of each ill-formed sequence.
pub uninterp spec fn utf8_lossy(bytes: Seq<u8>) -> Seq<char>;

/// `String::from_utf8_lossy` borrows its argument exactly when it is well-formed UTF-8
/// and then returns it as text; otherwise it returns the owned lossy text.
pub assume_specification<'a>[ String::from_utf8_lossy ](v: &'a [u8]) -> (r: Cow<'a, str>)
    ensures
        r@ == utf8_lossy(v@),
        valid_utf8(v@) ==> r@ == decode_utf8(v@),
        (r matches Cow::Borrowed(_)) <==> valid_utf8(v@),
;

/// Text whose UTF-8 encoding is `bytes`, all of them ASCII, has one character per byte.
pub proof fn lemma_ascii_text(chars: Seq<char>, bytes: Seq<u8>)
    requires
        encode_utf8(chars) == bytes,
        forall|i: int| 0 <= i < bytes.len() ==> bytes[i] < 128,
    ensures
        chars.len() == bytes.len(),
        forall|i: int| 0 <= i < bytes.len() ==> chars[i] == #[trigger] bytes[i] as char,
{
    let twin = Seq::new(bytes.len(), |i: int| bytes[i] as char);
    assert(is_ascii_chars(twin));
    vstd::utf8::is_ascii_chars_encode_utf8(twin);
    assert(encode_utf8(twin) =~= bytes);
    vstd::utf8::encode_utf8_decode_utf8(twin);
    vstd::utf8::encode_utf8_decode_utf8(chars);
    assert(twin == chars);
}

/// ASCII bytes are well-formed UTF-8.
pub proof fn lemma_ascii_is_utf8(bytes: Seq<u8>)
    requires
        forall|i: int| 0 <= i < bytes.len() ==> bytes[i] < 128,
    ensures
        valid_utf8(bytes),
{
    assert(bytes.subrange(0, 0) =~= Seq::<u8>::empty());
    assert(vstd::utf8::partial_valid_utf8(bytes, 0));
    vstd::utf8::partial_valid_utf8_extend_ascii_block(bytes, 0, bytes.len() as int);
    assert(bytes.subrange(0, bytes.len() as int) =~= bytes);
}

} // verus!
