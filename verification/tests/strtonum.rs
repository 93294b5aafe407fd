use puffyrs::strtonum::strtonum;

#[test]
fn strtonum_in_range() {
    assert_eq!(strtonum("42", 0, 100), Ok(42));
    assert_eq!(strtonum("-7", -10, 10), Ok(-7));
    assert_eq!(strtonum("+7", 0, 10), Ok(7));
    assert_eq!(strtonum("0", 0, 0), Ok(0));
}

#[test]
fn strtonum_skips_leading_white_space() {
    assert_eq!(strtonum("  12", 0, 100), Ok(12));
    assert_eq!(strtonum("\t\n\x0b\x0c\r-3", -5, 100), Ok(-3));
}

#[test]
fn strtonum_rejects_trailing_text() {
    assert_eq!(strtonum("12 ", 0, 100), Err("invalid"));
    assert_eq!(strtonum("12\n", 0, 100), Err("invalid"));
    assert_eq!(strtonum("\u{3000}5", 0, 100), Err("invalid"));
}

#[test]
fn strtonum_min_above_max_is_invalid() {
    assert_eq!(strtonum("5", 10, 0), Err("invalid"));
    assert_eq!(strtonum("x", 1, 0), Err("invalid"));
}

#[test]
fn strtonum_too_small() {
    assert_eq!(strtonum("-1", 0, 10), Err("too small"));
}

#[test]
fn strtonum_too_large() {
    assert_eq!(strtonum("11", 0, 10), Err("too large"));
}

#[test]
fn strtonum_invalid() {
    assert_eq!(strtonum("", 0, 10), Err("invalid"));
    assert_eq!(strtonum("   ", 0, 10), Err("invalid"));
    assert_eq!(strtonum("12a", 0, 100), Err("invalid"));
    assert_eq!(strtonum("-", 0, 100), Err("invalid"));
    assert_eq!(strtonum("+-1", -5, 100), Err("invalid"));
    assert_eq!(strtonum("1 2", 0, 100), Err("invalid"));
    assert_eq!(strtonum("٣", 0, 100), Err("invalid"));
}

#[test]
fn strtonum_i64_limits() {
    assert_eq!(strtonum("9223372036854775807", i64::MIN, i64::MAX), Ok(i64::MAX));
    assert_eq!(strtonum("-9223372036854775808", i64::MIN, i64::MAX), Ok(i64::MIN));
    assert_eq!(strtonum("9223372036854775808", i64::MIN, i64::MAX), Err("too large"));
    assert_eq!(strtonum("-9223372036854775809", i64::MIN, i64::MAX), Err("too small"));
    assert_eq!(strtonum("99999999999999999999999", 0, 10), Err("too large"));
    assert_eq!(strtonum("-99999999999999999999999", 0, 10), Err("too small"));
    assert_eq!(strtonum("00000000000000000000000000001", 0, 5), Ok(1));
}

#[test]
fn strtonum_round_trips_decimal_text() {
    for n in [-1000i64, -1, 0, 1, 99, 123456789] {
        assert_eq!(strtonum(&n.to_string(), -1000, 123456789), Ok(n));
    }
}
