use puffyrs::flags::FlagParser;

fn args(v: &[&str]) -> Vec<String> {
    let mut all: Vec<String> = vec!["program".to_string()];
    all.extend(v.iter().map(|s| s.to_string()));
    all
}

#[test]
fn undefined_flag_reads_false() {
    let p = FlagParser::new().bool('n', true).parse(args(&[]));
    assert!(!p.bool('x'));
    assert!(p.bool('n'));
}

#[test]
fn later_definition_replaces_earlier() {
    let p = FlagParser::new().bool('n', true).bool('n', false).parse(args(&["a"]));
    assert!(!p.bool('n'));
    let p = FlagParser::new().bool('n', true).bool('n', false).parse(args(&["-n"]));
    assert!(p.bool('n'));
}

#[test]
fn double_dash_after_operands_is_dropped() {
    let p = FlagParser::new().bool('n', false).parse(args(&["a", "--", "b", "--"]));
    assert_eq!(p.args(), &["a", "b"]);
}

#[test]
fn empty_argument_list_without_program_name() {
    let p = FlagParser::new().bool('n', false).parse(Vec::new());
    assert!(!p.bool('n'));
    assert!(p.args().is_empty());
}

#[test]
fn double_dash_prefix_is_an_operand() {
    let p = FlagParser::new().bool('n', false).parse(args(&["--n", "x"]));
    assert!(!p.bool('n'));
    assert_eq!(p.args(), &["--n", "x"]);
}

#[test]
fn repeated_letters_in_a_group() {
    let p = FlagParser::new().bool('n', false).parse(args(&["-nnn"]));
    assert!(p.bool('n'));
    assert!(p.args().is_empty());
}

#[test]
fn flag_letters_may_be_non_ascii() {
    let p = FlagParser::new().bool('\u{e9}', false).parse(args(&["-\u{e9}", "x"]));
    assert!(p.bool('\u{e9}'));
    assert_eq!(p.args(), &["x"]);
}

#[test]
fn bundle_equals_flags_one_by_one_with_more_arguments() {
    let mut parser = FlagParser::new();
    parser.bool('a', false).bool('b', false).bool('c', true).bool('d', false);
    let bundled = parser.parse(args(&["-d", "-ab", "-c", "x", "-a"]));
    let single = parser.parse(args(&["-d", "-a", "-b", "-c", "x", "-a"]));
    for c in ['a', 'b', 'c', 'd', 'z'] {
        assert_eq!(bundled.bool(c), single.bool(c));
    }
    assert_eq!(bundled.args(), single.args());
    assert_eq!(bundled.args(), &["x", "-a"]);
}

#[test]
fn flags_in_closed_form() {
    let p = FlagParser::new()
        .bool('a', false)
        .bool('b', false)
        .bool('c', false)
        .parse(args(&["-a", "-bz", "-c", "y"]));
    assert!(p.bool('a'));
    assert!(!p.bool('b'));
    assert!(!p.bool('c'));
    assert_eq!(p.args(), &["-bz", "-c", "y"]);
}
