use puffyrs::escape::{unescape, write_escaped};

fn bytes_of(s: &str) -> (Vec<u8>, bool) {
    let mut buf = Vec::new();
    let complete = write_escaped(&mut buf, s).unwrap();
    (buf, complete)
}

#[test]
fn octal_above_255_writes_nothing() {
    assert_eq!(unescape("\\0777"), (String::new(), true));
    assert_eq!(unescape("a\\0400x"), ("ax".to_string(), true));
}

#[test]
fn octal_and_hex_above_127_are_utf8_encoded() {
    assert_eq!(bytes_of("\\0377"), (vec![0xc3, 0xbf], true));
    assert_eq!(bytes_of("\\xe9"), (vec![0xc3, 0xa9], true));
    assert_eq!(unescape("\\xe9"), ("\u{e9}".to_string(), true));
}

#[test]
fn octal_takes_at_most_three_digits() {
    assert_eq!(unescape("\\01411"), ("a1".to_string(), true));
}

#[test]
fn hex_takes_at_most_two_digits() {
    assert_eq!(unescape("\\x414"), ("A4".to_string(), true));
    assert_eq!(unescape("\\xAf"), ("\u{af}".to_string(), true));
}

#[test]
fn non_ascii_text_passes_through() {
    assert_eq!(unescape("h\u{e9}llo \u{1F600}"), ("h\u{e9}llo \u{1F600}".to_string(), true));
    assert_eq!(bytes_of("\u{e9}"), ("\u{e9}".as_bytes().to_vec(), true));
}

#[test]
fn stop_discards_the_rest() {
    assert_eq!(unescape("a\\cb\\c"), ("a".to_string(), false));
    assert_eq!(unescape("\\c"), (String::new(), false));
}

#[test]
fn write_escaped_appends() {
    let mut buf = b"> ".to_vec();
    assert!(write_escaped(&mut buf, "x\\ty").unwrap());
    assert_eq!(buf, b"> x\ty");
}

#[test]
fn escape_without_backslash_is_identity() {
    for s in ["", "plain", "a-b c", "\u{e9}t\u{e9}"] {
        assert_eq!(unescape(s), (s.to_string(), true));
    }
}

#[test]
fn backslash_escape_is_not_an_escape_start() {
    assert_eq!(unescape("\\\\n"), ("\\n".to_string(), true));
}

#[test]
fn unescape_returns_what_write_escaped_writes() {
    for s in ["a\\nb", "\\0377\\x41", "\\e[1m\u{e9}", "stop\\cafter", "\\x", "\\0", "\\q\\"] {
        let (text, complete) = unescape(s);
        let (bytes, complete2) = bytes_of(s);
        assert_eq!(text.as_bytes(), &bytes[..]);
        assert_eq!(complete, complete2);
    }
}

#[test]
fn text_after_stop_is_ignored() {
    assert_eq!(unescape("ab\\c"), unescape("ab\\c\\x41 more \\0101"));
}

#[test]
fn output_is_never_longer_than_input() {
    for s in ["\\x41\\0101\\n", "\\0377", "\\xff", "\\q\\", "\u{e9}\\t", "\\c", ""] {
        assert!(unescape(s).0.len() <= s.len());
    }
}

#[test]
fn stop_after_complete_text_keeps_its_output() {
    for s1 in ["", "abc", "a\\\\", "\\x4", "\\0", "\\n\\t"] {
        let (o1, complete) = unescape(s1);
        assert!(complete);
        assert_eq!(unescape(&format!("{s1}\\crest\\x41")), (o1, false));
    }
}
