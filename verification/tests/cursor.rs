use url_core::chars::{
    ascii_alpha, ascii_tab_or_new_line, c0_control_or_space, decode_char, fast_u16_to_str,
    is_normalized_windows_drive_letter, is_url_code_point, is_windows_drive_letter,
    path_starts_with_windows_drive_letter, starts_with_windows_drive_letter, to_u32,
};
use url_core::parser::scan::check_url_code_point;
use url_core::parser::special::starts_with_windows_drive_letter_segment;
use url_core::{default_port, Input, ParseError, SchemeType, SyntaxViolation};

#[test]
fn cursor_passes_over_tabs_and_newlines() {
    let mut input = Input::new_no_trim("a\tb\n\rc");
    assert_eq!(input.next(), Some('a'));
    assert_eq!(input.next(), Some('b'));
    assert!(!input.is_empty());
    assert_eq!(input.next(), Some('c'));
    assert!(input.is_empty());
    assert_eq!(input.next(), None);
    assert_eq!(input.next(), None);
    assert!(Input::new_no_trim("\t\n\r").is_empty());
    assert!(Input::new_no_trim("").is_empty());
    assert!(!Input::new_no_trim(" ").is_empty());
}

#[test]
fn cursor_reads_characters_of_any_width() {
    let mut input = Input::new_no_trim("a\u{e9}\t\u{20ac}\u{1f496}z");
    assert_eq!(input.next_utf8(), Some(('a', "a".as_bytes())));
    assert_eq!(input.next_utf8(), Some(('\u{e9}', "\u{e9}".as_bytes())));
    assert_eq!(input.next_utf8(), Some(('\u{20ac}', "\u{20ac}".as_bytes())));
    assert_eq!(input.next_utf8(), Some(('\u{1f496}', "\u{1f496}".as_bytes())));
    assert_eq!(input.position(), 11);
    assert_eq!(input.next_utf8(), Some(('z', "z".as_bytes())));
    assert_eq!(input.next_utf8(), None);
    assert_eq!(decode_char("\u{fffd}".as_bytes(), 0), ('\u{fffd}', 3));
    assert_eq!(decode_char(b"\xff", 0), ('\u{fffd}', 1));
    assert_eq!(decode_char(b"\xc3", 0), ('\u{fffd}', 1));
    assert_eq!(decode_char(b"\xc1\x81", 0), ('\u{fffd}', 2));
    assert_eq!(decode_char(b"\xed\xa0\x80", 0), ('\u{fffd}', 3));
    assert_eq!(decode_char(b"a\x80", 1), ('\u{fffd}', 1));
}

#[test]
fn split_first_leaves_the_cursor() {
    let input = Input::new_no_trim("\txy");
    let (first, rest) = input.split_first();
    assert_eq!(first, Some('x'));
    assert_eq!(rest.position(), 2);
    assert_eq!(input.position(), 0);
    assert_eq!(rest.split_first().0, Some('y'));
    assert_eq!(rest.advanced().split_first().0, None);
    assert_eq!(input.peek_byte(), Some(b'x'));
    assert_eq!(input.skipped().position(), 1);
    assert_eq!(input.at(2).peek_byte(), Some(b'y'));
    assert_eq!(input.bytes(), b"\txy");
}

#[test]
fn patterns() {
    let input = Input::new_no_trim("/\t/x");
    assert!(input.starts_with('/'));
    assert!(!input.starts_with('x'));
    assert!(input.starts_with("//"));
    assert!(input.starts_with("//x"));
    assert!(!input.starts_with("///"));
    assert!(input.starts_with(""));
    assert!(input.starts_with(|c| c == '/'));
    assert!(!input.starts_with(ascii_alpha));
    assert!(input.starts_with_byte(b'/'));
    assert_eq!(input.split_prefix("//").unwrap().position(), 3);
    assert_eq!(input.split_prefix('/').unwrap().position(), 1);
    assert!(input.split_prefix("/x").is_none());
    assert!(input.split_prefix(ascii_alpha).is_none());
    assert_eq!(input.split_prefix(|c| c == '/').unwrap().position(), 1);
    let input = Input::new_no_trim("\u{e9}t\u{e9}");
    assert!(input.starts_with("\u{e9}t"));
    assert!(input.starts_with('\u{e9}'));
    assert!(!Input::new_no_trim("").starts_with('a'));
    assert!(!Input::new_no_trim("").starts_with(ascii_alpha));
}

#[test]
fn counting() {
    let input = Input::new_no_trim("/\\\t/x/");
    let (count, rest) = input.count_matching(|c| matches!(c, '/' | '\\'));
    assert_eq!(count, 3);
    assert_eq!(rest.split_first().0, Some('x'));
    let (count, rest) = input.count_separators();
    assert_eq!(count, 3);
    assert_eq!(rest.position(), 4);
    let (count, rest) = Input::new_no_trim("abc").count_matching(ascii_alpha);
    assert_eq!(count, 3);
    assert!(rest.is_empty());
    let (count, rest) = Input::new_no_trim("abc").count_separators();
    assert_eq!(count, 0);
    assert_eq!(rest.position(), 0);
}

#[test]
fn trimming() {
    let mut log = Vec::new();
    let input = Input::new_trim_c0_control_and_space(" \u{0}a b\t ", &mut log);
    assert_eq!(input.bytes(), b"a b");
    assert_eq!(log, vec![SyntaxViolation::C0SpaceIgnored]);
    let mut log = Vec::new();
    let input = Input::new_trim_tab_and_newlines("\n a\tb \r", &mut log);
    assert_eq!(input.bytes(), b" a\tb ");
    assert_eq!(
        log,
        vec![SyntaxViolation::C0SpaceIgnored, SyntaxViolation::TabOrNewlineIgnored]
    );
    let mut log = vec![SyntaxViolation::Backslash];
    let input = Input::new_trim_tab_and_newlines("a\rb", &mut log);
    assert_eq!(input.bytes(), b"a\rb");
    assert_eq!(log, vec![SyntaxViolation::Backslash, SyntaxViolation::TabOrNewlineIgnored]);
    let mut log = Vec::new();
    assert!(Input::new_trim_c0_control_and_space(" \t\n ", &mut log).is_empty());
    assert_eq!(log, vec![SyntaxViolation::C0SpaceIgnored]);
    let mut log = Vec::new();
    assert_eq!(Input::new_trim_c0_control_and_space("ab", &mut log).bytes(), b"ab");
    assert_eq!(log, vec![]);
}

#[test]
fn character_classes() {
    assert!(c0_control_or_space(' '));
    assert!(c0_control_or_space('\u{0}'));
    assert!(c0_control_or_space('\u{1f}'));
    assert!(!c0_control_or_space('!'));
    assert!(!c0_control_or_space('\u{7f}'));
    assert!(ascii_tab_or_new_line('\t'));
    assert!(ascii_tab_or_new_line('\n'));
    assert!(ascii_tab_or_new_line('\r'));
    assert!(!ascii_tab_or_new_line(' '));
    assert!(ascii_alpha('a') && ascii_alpha('z') && ascii_alpha('A') && ascii_alpha('Z'));
    assert!(!ascii_alpha('0') && !ascii_alpha('@') && !ascii_alpha('[') && !ascii_alpha('\u{e9}'));
    for c in "azAZ09!$&'()*+,-./:;=?@_~\u{a0}\u{d7ff}\u{e000}\u{fdcf}\u{fdf0}\u{fffd}\u{10000}\u{1fffd}\u{e1000}\u{10fffd}".chars() {
        assert!(is_url_code_point(c), "{:?}", c);
    }
    for c in " \"#%<>[\\]^`{|}\u{0}\u{7f}\u{9f}\u{fdd0}\u{fdef}\u{fffe}\u{ffff}\u{1fffe}\u{1ffff}\u{e0000}\u{e0fff}\u{10fffe}\u{10ffff}".chars() {
        assert!(!is_url_code_point(c), "{:?}", c);
    }
}

#[test]
fn code_point_violations() {
    let mut log = Vec::new();
    check_url_code_point(&mut log, '%', &Input::new_no_trim("4\t1"));
    check_url_code_point(&mut log, 'a', &Input::new_no_trim(""));
    assert_eq!(log, vec![]);
    check_url_code_point(&mut log, '%', &Input::new_no_trim("4"));
    check_url_code_point(&mut log, '%', &Input::new_no_trim("g1"));
    check_url_code_point(&mut log, ' ', &Input::new_no_trim("41"));
    assert_eq!(
        log,
        vec![
            SyntaxViolation::PercentDecode,
            SyntaxViolation::PercentDecode,
            SyntaxViolation::NonUrlCodePoint,
        ]
    );
}

#[test]
fn windows_drive_letters() {
    assert!(is_windows_drive_letter("C:"));
    assert!(is_windows_drive_letter("c|"));
    assert!(!is_windows_drive_letter("C:/"));
    assert!(!is_windows_drive_letter("C"));
    assert!(!is_windows_drive_letter("1:"));
    assert!(!is_windows_drive_letter("C;"));
    assert!(!is_windows_drive_letter(""));
    assert!(is_normalized_windows_drive_letter("C:"));
    assert!(!is_normalized_windows_drive_letter("C|"));
    assert!(!is_normalized_windows_drive_letter("/C:"));
    assert!(starts_with_windows_drive_letter(b"C:", 0));
    assert!(starts_with_windows_drive_letter(b"C|/x", 0));
    assert!(starts_with_windows_drive_letter(b"xC:\\", 1));
    assert!(starts_with_windows_drive_letter(b"C:?", 0));
    assert!(starts_with_windows_drive_letter(b"C:#", 0));
    assert!(!starts_with_windows_drive_letter(b"C:x", 0));
    assert!(!starts_with_windows_drive_letter(b"C", 0));
    assert!(!starts_with_windows_drive_letter(b"C:", 2));
    assert!(path_starts_with_windows_drive_letter(b"/c:", 0));
    assert!(path_starts_with_windows_drive_letter(b"/a:/", 0));
    assert!(path_starts_with_windows_drive_letter(b"?a|", 0));
    assert!(!path_starts_with_windows_drive_letter(b"a:/", 0));
    assert!(!path_starts_with_windows_drive_letter(b"/a:b", 0));
    assert!(!path_starts_with_windows_drive_letter(b"", 0));
    assert!(starts_with_windows_drive_letter_segment(&Input::new_no_trim("C:")));
    assert!(starts_with_windows_drive_letter_segment(&Input::new_no_trim("C\t|\n/x")));
    assert!(starts_with_windows_drive_letter_segment(&Input::new_no_trim("c:#")));
    assert!(!starts_with_windows_drive_letter_segment(&Input::new_no_trim("C:x")));
    assert!(!starts_with_windows_drive_letter_segment(&Input::new_no_trim("C")));
    assert!(!starts_with_windows_drive_letter_segment(&Input::new_no_trim("/C:")));
}

#[test]
fn offsets_of_32_bits() {
    assert_eq!(to_u32(0), Ok(0));
    assert_eq!(to_u32(4294967295), Ok(4294967295));
    assert_eq!(to_u32(4294967296), Err(ParseError::Overflow));
    assert_eq!(to_u32(usize::MAX), Err(ParseError::Overflow));
}

#[test]
fn schemes() {
    assert_eq!(default_port("http"), Some(80));
    assert_eq!(default_port("ws"), Some(80));
    assert_eq!(default_port("https"), Some(443));
    assert_eq!(default_port("wss"), Some(443));
    assert_eq!(default_port("ftp"), Some(21));
    assert_eq!(default_port("file"), None);
    assert_eq!(default_port("HTTP"), None);
    assert_eq!(default_port("httpx"), None);
    assert_eq!(default_port(""), None);
    assert!(SchemeType::from("http") == SchemeType::SpecialNotFile);
    assert!(SchemeType::from("wss") == SchemeType::SpecialNotFile);
    assert!(SchemeType::from("file") == SchemeType::File);
    assert!(SchemeType::from("files") == SchemeType::NotSpecial);
    assert!(SchemeType::from("") == SchemeType::NotSpecial);
    assert!(SchemeType::File.is_special() && SchemeType::File.is_file());
    assert!(SchemeType::SpecialNotFile.is_special() && !SchemeType::SpecialNotFile.is_file());
    assert!(!SchemeType::NotSpecial.is_special() && !SchemeType::NotSpecial.is_file());
}

#[test]
fn decimal_digits() {
    for (value, digits) in [
        (0u16, "0"),
        (7, "7"),
        (10, "10"),
        (99, "99"),
        (100, "100"),
        (8080, "8080"),
        (10000, "10000"),
        (65535, "65535"),
    ] {
        let mut out = b"x".to_vec();
        fast_u16_to_str(&mut out, value);
        assert_eq!(out, format!("x{}", digits).into_bytes());
    }
}

#[test]
fn descriptions() {
    assert_eq!(ParseError::EmptyHost.description(), "empty host");
    assert_eq!(ParseError::IdnaError.to_string(), "invalid international domain name");
    assert_eq!(ParseError::InvalidPort.to_string(), "invalid port number");
    assert_eq!(ParseError::InvalidIpv4Address.to_string(), "invalid IPv4 address");
    assert_eq!(ParseError::InvalidIpv6Address.to_string(), "invalid IPv6 address");
    assert_eq!(ParseError::InvalidDomainCharacter.to_string(), "invalid domain character");
    assert_eq!(ParseError::RelativeUrlWithoutBase.to_string(), "relative URL without a base");
    assert_eq!(
        ParseError::RelativeUrlWithCannotBeABaseBase.to_string(),
        "relative URL with a cannot-be-a-base base"
    );
    assert_eq!(
        ParseError::SetHostOnCannotBeABaseUrl.to_string(),
        "a cannot-be-a-base URL doesn\u{2019}t have a host to set"
    );
    assert_eq!(ParseError::Overflow.to_string(), "URLs more than 4 GB are not supported");
    assert_eq!(SyntaxViolation::Backslash.description(), "backslash");
    assert_eq!(SyntaxViolation::ExpectedDoubleSlash.to_string(), "expected //");
    assert_eq!(SyntaxViolation::PercentDecode.to_string(), "expected 2 hex digits after %");
    assert_eq!(
        SyntaxViolation::EmbeddedCredentials.to_string(),
        "embedding authentication information (username or password) in an URL is not recommended"
    );
}
