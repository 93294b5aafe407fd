use puffyrs::echo::{echo_options, echo_output};

fn run(v: &[&str]) -> Vec<u8> {
    let mut args = vec!["echo".to_string()];
    args.extend(v.iter().map(|s| s.to_string()));
    let o = echo_options(&args);
    echo_output(&args[o.first_operand..], o.escape, o.no_newline)
}

#[test]
fn echo_plain() {
    assert_eq!(run(&["hello", "world"]), b"hello world\n");
    assert_eq!(run(&[]), b"\n");
}

#[test]
fn echo_no_newline() {
    assert_eq!(run(&["-n", "hi"]), b"hi");
}

#[test]
fn echo_escapes_only_with_e() {
    assert_eq!(run(&["a\\tb"]), b"a\\tb\n");
    assert_eq!(run(&["-e", "a\\tb"]), b"a\tb\n");
    assert_eq!(run(&["-eE", "a\\tb"]), b"a\\tb\n");
    assert_eq!(run(&["-Ee", "a\\tb"]), b"a\tb\n");
}

#[test]
fn echo_stop_suppresses_the_rest_and_newline() {
    assert_eq!(run(&["-e", "a\\cb", "c"]), b"a");
    assert_eq!(run(&["-e", "x", "y\\c"]), b"x y");
}

#[test]
fn echo_unknown_option_is_an_operand_and_resets() {
    assert_eq!(run(&["-n", "-x", "hi"]), b"-x hi\n");
    assert_eq!(run(&["-e", "-nq", "a\\tb"]), b"-nq a\\tb\n");
}

#[test]
fn echo_dash_and_double_dash_are_operands() {
    assert_eq!(run(&["-", "a"]), b"- a\n");
    assert_eq!(run(&["--", "a"]), b"-- a\n");
    assert_eq!(run(&["", "-n"]), b" -n\n");
}

#[test]
fn echo_options_stop_at_first_operand() {
    let args: Vec<String> = ["echo", "-n", "-e", "x", "-n"].iter().map(|s| s.to_string()).collect();
    let o = echo_options(&args);
    assert_eq!(o.first_operand, 3);
    assert!(o.no_newline && o.escape);
    let args: Vec<String> = Vec::new();
    assert_eq!(echo_options(&args).first_operand, 1);
}
