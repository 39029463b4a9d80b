use std::borrow::Cow;

use url_core::ascii_set::{controls, non_alphanumeric, AsciiSet};
use url_core::percent::{after_percent_sign, decode_into, decode_utf8_lossy, hex_digit};
use url_core::{percent_decode, percent_encode, percent_encode_byte, utf8_percent_encode};

fn encode(bytes: &[u8], set: &'static AsciiSet) -> String {
    percent_encode(bytes, set).to_string()
}

fn decode(bytes: &[u8]) -> Vec<u8> {
    percent_decode(bytes).to_vec()
}

#[test]
fn sets() {
    let empty = AsciiSet::empty();
    for b in 0..=255u8 {
        assert!(!empty.contains(b));
        assert_eq!(empty.should_percent_encode(b), b >= 128);
        assert_eq!(controls().contains(b), b <= 0x1f || b == 0x7f);
        assert_eq!(non_alphanumeric().contains(b), b < 128 && !b.is_ascii_alphanumeric());
        assert_eq!(
            non_alphanumeric().should_percent_encode(b),
            !b.is_ascii_alphanumeric()
        );
    }
    let set = empty.add(b' ').add(b'a').add(0).add(127);
    assert!(set.contains(b' ') && set.contains(b'a') && set.contains(0) && set.contains(127));
    assert!(!set.contains(b'b') && !set.contains(200));
    let set = set.remove(b'a').remove(b'z');
    assert!(set.contains(b' ') && !set.contains(b'a') && !set.contains(b'z'));
    assert_eq!(set.add(b' '), set);
    assert_eq!(AsciiSet::from_mask(1 << 32), empty.add(b' '));
}

#[test]
fn escapes_are_upper_case() {
    assert_eq!(percent_encode_byte(0xab), "%AB");
    assert_eq!(percent_encode_byte(0x0f), "%0F");
    assert_eq!(percent_encode_byte(b' '), "%20");
    assert_eq!(encode(b"\xaa\xff\x1b", controls()), "%AA%FF%1B");
    for b in 0..=255u8 {
        assert!(!percent_encode_byte(b).bytes().any(|c| c.is_ascii_lowercase()));
    }
}

#[test]
fn fragments_of_an_encoding() {
    let mut encoded = percent_encode(b"ab c\xe9\xe9de", non_alphanumeric());
    assert_eq!(encoded.size_hint(), (1, Some(8)));
    assert_eq!(encoded.next(), Some("ab"));
    assert_eq!(encoded.next(), Some("%20"));
    assert_eq!(encoded.next(), Some("c"));
    assert_eq!(encoded.next(), Some("%E9"));
    assert_eq!(encoded.next(), Some("%E9"));
    assert_eq!(encoded.size_hint(), (1, Some(2)));
    assert_eq!(encoded.next(), Some("de"));
    assert_eq!(encoded.size_hint(), (0, Some(0)));
    assert_eq!(encoded.next(), None);
    assert_eq!(encoded.next(), None);
    assert_eq!(percent_encode(b"", controls()).next(), None);
    assert_eq!(utf8_percent_encode("\u{e9}", controls()).to_string(), "%C3%A9");
}

#[test]
fn encoding_borrows_a_single_fragment() {
    assert!(matches!(Cow::from(percent_encode(b"abc", non_alphanumeric())), Cow::Borrowed("abc")));
    assert!(matches!(Cow::from(percent_encode(b"", non_alphanumeric())), Cow::Borrowed("")));
    assert!(matches!(Cow::from(percent_encode(b" ", non_alphanumeric())), Cow::Borrowed("%20")));
    assert!(matches!(Cow::from(percent_encode(b"a ", non_alphanumeric())), Cow::Owned(_)));
    assert!(matches!(Cow::from(percent_encode(b" a", non_alphanumeric())), Cow::Owned(_)));
    assert!(matches!(Cow::from(percent_encode(b"  ", non_alphanumeric())), Cow::Owned(_)));
    assert_eq!(Cow::from(percent_encode(b"a b c", non_alphanumeric())), "a%20b%20c");
}

#[test]
fn decoding_takes_what_is_no_escape_as_it_is() {
    assert_eq!(decode(b"%"), b"%");
    assert_eq!(decode(b"%4"), b"%4");
    assert_eq!(decode(b"abc%"), b"abc%");
    assert_eq!(decode(b"abc%4"), b"abc%4");
    assert_eq!(decode(b"%41%"), b"A%");
    assert_eq!(decode(b"%41%4"), b"A%4");
    assert_eq!(decode(b"%zz"), b"%zz");
    assert_eq!(decode(b"%4z"), b"%4z");
    assert_eq!(decode(b"%%41"), b"%A");
    assert_eq!(decode(b"%2541"), b"%41");
    assert_eq!(decode(b"%e9%E9%Aa"), b"\xe9\xe9\xaa");
    assert_eq!(decode(b""), b"");
}

#[test]
fn bytes_of_a_decoding() {
    let mut decoded = percent_decode(b"a%20%2");
    assert_eq!(decoded.size_hint(), (2, Some(6)));
    assert_eq!(decoded.next(), Some(b'a'));
    assert_eq!(decoded.size_hint(), (2, Some(5)));
    assert_eq!(decoded.next(), Some(b' '));
    assert_eq!(decoded.next(), Some(b'%'));
    assert_eq!(decoded.next(), Some(b'2'));
    assert_eq!(decoded.size_hint(), (0, Some(0)));
    assert_eq!(decoded.next(), None);
    assert_eq!(percent_decode(b"abcd").size_hint(), (2, Some(4)));
    assert_eq!(percent_decode(b"abc").size_hint(), (1, Some(3)));
}

#[test]
fn decoding_borrows_without_escapes() {
    assert_eq!(percent_decode(b"a%zzb%").if_any(), None);
    assert_eq!(percent_decode(b"a%20b").if_any(), Some(b"a b".to_vec()));
    assert_eq!(percent_decode(b"%%20").if_any(), Some(b"% ".to_vec()));
    assert!(matches!(Cow::from(percent_decode(b"a%zzb%")), Cow::Borrowed(b"a%zzb%")));
    assert!(matches!(Cow::from(percent_decode(b"a%41")), Cow::Owned(_)));
    assert!(matches!(percent_decode(b"abc").decode_utf8(), Ok(Cow::Borrowed("abc"))));
    assert!(matches!(percent_decode(b"ab%63").decode_utf8(), Ok(Cow::Owned(_))));
    assert!(matches!(percent_decode(b"abc").decode_utf8_lossy(), Cow::Borrowed("abc")));
    assert!(matches!(percent_decode(b"ab%63").decode_utf8_lossy(), Cow::Owned(_)));
    assert!(matches!(percent_decode(b"ab\xff").decode_utf8_lossy(), Cow::Owned(_)));
    assert_eq!(percent_decode(b"ab\xff").decode_utf8_lossy(), "ab\u{fffd}");
    assert!(percent_decode(b"ab\xff").decode_utf8().is_err());
    assert!(percent_decode(b"ab%ff").decode_utf8().is_err());
    assert_eq!(percent_decode(b"%c3%a9").decode_utf8().unwrap(), "\u{e9}");
    assert_eq!(decode_utf8_lossy(Cow::Borrowed(b"\xc3\xa9")), "\u{e9}");
    assert!(matches!(decode_utf8_lossy(Cow::Borrowed(b"ab")), Cow::Borrowed("ab")));
    assert!(matches!(decode_utf8_lossy(Cow::Owned(b"ab".to_vec())), Cow::Owned(_)));
    assert_eq!(decode_utf8_lossy(Cow::Owned(b"a\x80".to_vec())), "a\u{fffd}");
}

#[test]
fn hexadecimal_digits() {
    assert_eq!(hex_digit(b'0'), Some(0));
    assert_eq!(hex_digit(b'9'), Some(9));
    assert_eq!(hex_digit(b'a'), Some(10));
    assert_eq!(hex_digit(b'F'), Some(15));
    assert_eq!(hex_digit(b'g'), None);
    assert_eq!(hex_digit(b'/'), None);
    assert_eq!(hex_digit(b':'), None);
    assert_eq!(hex_digit(b'@'), None);
    assert_eq!(after_percent_sign(b"41x"), Some((0x41, &b"x"[..])));
    assert_eq!(after_percent_sign(b"fF"), Some((0xff, &b""[..])));
    assert_eq!(after_percent_sign(b"4"), None);
    assert_eq!(after_percent_sign(b"4g"), None);
    assert_eq!(after_percent_sign(b"g4"), None);
    let mut out = b"x".to_vec();
    decode_into(&mut out, b"%41%4");
    assert_eq!(out, b"xA%4");
}

#[test]
fn decoding_undoes_encoding() {
    let inputs: [&[u8]; 6] = [b"", b"foo bar?", b"a%41b", b"\x00\xff%", b"%%25", b"100%"];
    for input in inputs {
        let encoded = encode(input, non_alphanumeric());
        assert_eq!(decode(encoded.as_bytes()), input);
    }
    assert_eq!(decode(encode(b"a%b", controls()).as_bytes()), b"a%b");
    assert_eq!(decode(encode(b"a%4", controls()).as_bytes()), b"a%4");
    assert_eq!(decode(encode(b"%\x80", controls()).as_bytes()), b"%\x80");
    // A bare escape of the input is kept by a set without `%`, and is decoded.
    assert_eq!(decode(encode(b"a%41b", controls()).as_bytes()), b"aAb");
}

#[test]
fn encoding_again_under_a_superset() {
    let first = AsciiSet::empty().add(b' ');
    let once = percent_encode(b"a b<c", first_static(first)).to_string();
    assert_eq!(once, "a%20b<c");
    let second = controls().add(b' ').add(b'<');
    assert_eq!(encode(once.as_bytes(), first_static(second)), "a%20b%3Cc");
    assert_eq!(encode(b"a b<c", first_static(second)), "a%20b%3Cc");
    // A superset that holds `%` escapes the escapes of the first pass.
    assert_eq!(encode(once.as_bytes(), non_alphanumeric()), "a%2520b%3Cc");
}

fn first_static(set: AsciiSet) -> &'static AsciiSet {
    Box::leak(Box::new(set))
}
