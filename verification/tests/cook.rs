use puffyrs::cook::{cook_bytes, CookFlags, CookState};
use puffyrs::flags::FlagParser;

fn flags(opts: &[&str]) -> CookFlags {
    let mut all = vec!["cat".to_string()];
    all.extend(opts.iter().map(|s| s.to_string()));
    let parsed = FlagParser::new()
        .bool('b', false)
        .bool('e', false)
        .bool('n', false)
        .bool('s', false)
        .bool('t', false)
        .bool('u', false)
        .bool('v', false)
        .parse(all);
    CookFlags::from_parsed(&parsed)
}

fn cook(opts: &[&str], input: &[u8]) -> Vec<u8> {
    let f = flags(opts);
    let mut st = CookState::new();
    let mut out = Vec::new();
    cook_bytes(&mut st, &f, input, &mut out);
    out
}

#[test]
fn no_options_needs_no_cooking_and_copies() {
    assert!(!flags(&[]).needs_cooking());
    assert!(!flags(&["-u"]).needs_cooking());
    assert_eq!(cook(&[], b"a\tb\x01\n\n\n"), b"a\tb\x01\n\n\n");
}

#[test]
fn option_implications() {
    let f = flags(&["-b"]);
    assert!(f.number && f.number_nonblank && !f.visible);
    let f = flags(&["-e"]);
    assert!(f.show_ends && f.visible);
    let f = flags(&["-t"]);
    assert!(f.show_tabs && f.visible);
    assert!(flags(&["-s"]).needs_cooking());
}

#[test]
fn number_lines() {
    assert_eq!(cook(&["-n"], b"a\nb\n"), b"     1\ta\n     2\tb\n");
    assert_eq!(cook(&["-n"], b"a\n\nb"), b"     1\ta\n     2\t\n     3\tb");
}

#[test]
fn number_nonblank_lines() {
    assert_eq!(cook(&["-b"], b"a\n\nb\n"), b"     1\ta\n\n     2\tb\n");
}

#[test]
fn number_nonblank_with_ends() {
    assert_eq!(cook(&["-be"], b"a\n\nb\n"), b"     1\ta$\n      \t$\n     2\tb$\n");
}

#[test]
fn squeeze_blank_lines() {
    assert_eq!(cook(&["-s"], b"a\n\n\n\nb\n"), b"a\n\nb\n");
    assert_eq!(cook(&["-s"], b"\n\n\na"), b"\na");
    assert_eq!(cook(&["-sn"], b"a\n\n\nb"), b"     1\ta\n     2\t\n     3\tb");
}

#[test]
fn show_tabs_and_nonprinting() {
    assert_eq!(cook(&["-t"], b"a\tb\x01"), b"a^Ib^A");
    assert_eq!(cook(&["-v"], b"a\tb\x7f\x80\xff\xe1"), b"a\tb^?M-^@M-^?M-a");
    assert_eq!(cook(&["-e"], b"x\r\n"), b"x^M$\n");
}

#[test]
fn stripped_meta_newline_starts_a_line() {
    assert_eq!(cook(&["-nv"], b"a\x8ab"), b"     1\taM-^J     2\tb");
}

#[test]
fn wide_line_numbers_are_not_truncated() {
    let f = flags(&["-n"]);
    let mut st = CookState { line: 999_999, gobble: false, prev: b'\n' };
    let mut out = Vec::new();
    cook_bytes(&mut st, &f, b"x\ny", &mut out);
    assert_eq!(out, b"1000000\tx\n1000001\ty");
    assert_eq!(st.line, 1_000_001);
}

#[test]
fn chunks_cook_like_the_whole() {
    let input: &[u8] = b"one\n\n\n\ttwo\x80\n\nthree\n";
    for opts in [&["-n"][..], &["-bs"][..], &["-et"][..], &["-vns"][..]] {
        let whole = cook(opts, input);
        for cut in 0..=input.len() {
            let f = flags(opts);
            let mut st = CookState::new();
            let mut out = Vec::new();
            cook_bytes(&mut st, &f, &input[..cut], &mut out);
            cook_bytes(&mut st, &f, &input[cut..], &mut out);
            assert_eq!(out, whole);
        }
    }
}

#[test]
fn visible_bytes_match_vis() {
    for b in 0..=255u8 {
        if b == b'\n' || b == b'\t' {
            continue;
        }
        let mut expected = Vec::new();
        puffyrs::vis::write_vis_byte(&mut expected, b).unwrap();
        assert_eq!(cook(&["-v"], &[b'x', b]), [&[b'x'][..], &expected[..]].concat());
    }
}
