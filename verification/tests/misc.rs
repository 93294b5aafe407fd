use std::sync::atomic::{AtomicBool, Ordering};

use puffyrs::chroot::{group_names, room_for_group, shell_to_run, usage_ok, MAX_GROUPS};
use puffyrs::progname::progname_of;
use puffyrs::sig::raised;
use puffyrs::watchdog::{after_setup, finish, retrigger_interval, strtonum, AfterSetup};

#[test]
fn raised_reads_the_flag() {
    let flag = AtomicBool::new(false);
    assert!(!raised(&flag));
    flag.store(true, Ordering::Relaxed);
    assert!(raised(&flag));
}

#[test]
fn progname_is_the_last_component() {
    assert_eq!(progname_of(Some("/usr/bin/cat"), "???"), "cat");
    assert_eq!(progname_of(Some("echo"), "???"), "echo");
    assert_eq!(progname_of(Some("bin/ls/"), "???"), "ls");
}

#[test]
fn progname_falls_back() {
    assert_eq!(progname_of(None, "???"), "???");
    assert_eq!(progname_of(Some("/"), "chroot"), "chroot");
    assert_eq!(progname_of(Some("a/.."), "watchdogd"), "watchdogd");
    assert_eq!(progname_of(Some(""), "???"), "???");
}

#[test]
fn watchdog_option_numbers() {
    assert_eq!(strtonum("30", 2, 86400), Ok(30));
    assert_eq!(strtonum("1", 2, 86400), Err("too small"));
    assert_eq!(strtonum("86401", 2, 86400), Err("too large"));
    assert_eq!(strtonum(" 30", 2, 86400), Err("invalid"));
    assert_eq!(strtonum("x", 1, 86400), Err("invalid"));
    assert_eq!(strtonum("4294967296", 0, 5_000_000_000), Ok(0));
}

#[test]
fn watchdog_retrigger_interval() {
    assert_eq!(retrigger_interval(0, 30), Some(10));
    assert_eq!(retrigger_interval(0, 2), Some(1));
    assert_eq!(retrigger_interval(0, 1), None);
    assert_eq!(retrigger_interval(5, 30), Some(5));
    assert_eq!(retrigger_interval(30, 30), None);
    assert_eq!(retrigger_interval(40, 30), None);
}

#[test]
fn chroot_group_names() {
    assert_eq!(group_names("wheel,,staff,"), vec!["wheel", "staff"]);
    assert_eq!(group_names(""), Vec::<String>::new());
    assert_eq!(group_names(",,,"), Vec::<String>::new());
    assert_eq!(group_names("one"), vec!["one"]);
    assert_eq!(group_names("\u{e9}t\u{e9},x"), vec!["\u{e9}t\u{e9}", "x"]);
}

#[test]
fn watchdog_after_setup() {
    assert!(matches!(after_setup(None, 30, 10, false), (false, AfterSetup::ReadBackFailed)));
    assert!(matches!(after_setup(Some(30), 30, 10, false), (false, AfterSetup::Proceed)));
    assert!(matches!(after_setup(Some(32), 30, 10, false), (true, AfterSetup::Proceed)));
    assert!(matches!(after_setup(Some(32), 30, 10, true), (false, AfterSetup::Proceed)));
    assert!(matches!(after_setup(Some(8), 30, 10, false), (true, AfterSetup::IntervalTooLong)));
    assert!(matches!(after_setup(Some(10), 30, 10, true), (false, AfterSetup::IntervalTooLong)));
}

#[test]
fn watchdog_finish() {
    let f = finish(false, false);
    assert!(f.restore && f.status == 0);
    let f = finish(true, true);
    assert!(!f.restore && f.status == 1);
}

#[test]
fn chroot_usage_and_limits() {
    assert!(usage_ok(1, None, None));
    assert!(usage_ok(2, Some("root"), Some("wheel")));
    assert!(!usage_ok(0, None, None));
    assert!(!usage_ok(1, Some(""), None));
    assert!(!usage_ok(1, None, Some("")));
    assert!(room_for_group(15));
    assert!(!room_for_group(MAX_GROUPS));
    assert_eq!(shell_to_run(Some("/bin/ksh")), "/bin/ksh");
    assert_eq!(shell_to_run(Some("")), "/bin/sh");
    assert_eq!(shell_to_run(None), "/bin/sh");
}

#[test]
fn progname_skips_dot_and_empty_pieces() {
    assert_eq!(progname_of(Some("a/."), "???"), "a");
    assert_eq!(progname_of(Some("./foo"), "???"), "foo");
    assert_eq!(progname_of(Some("a//b//"), "???"), "b");
    assert_eq!(progname_of(Some("."), "???"), "???");
    assert_eq!(progname_of(Some(".."), "???"), "???");
    assert_eq!(progname_of(Some("x/../y"), "???"), "y");
}
