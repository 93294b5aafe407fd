use vstd::prelude::*;

use crate::escape::{digit_value, digits_value};
use crate::text::chars_of;

verus! {

/// The characters `isspace(3)` accepts in the C locale: space, tab, newline,
/// vertical tab, form feed and carriage return.
pub open spec fn is_c_space(c: char) -> bool {
    c == ' ' || ('\t' <= c && c <= '\r')
}

/// `s` without its leading `isspace` characters, which `strtoll(3)` skips.
pub open spec fn skip_space(s: Seq<char>) -> Seq<char>
    decreases s.len(),
{
    if s.len() > 0 && is_c_space(s[0]) {
        skip_space(s.drop_first())
    } else {
        s
    }
}

/// One or more ASCII decimal digits.
pub open spec fn is_decimal(d: Seq<char>) -> bool {
    d.len() > 0 && forall|i: int| 0 <= i < d.len() ==> '0' <= #[trigger] d[i] && d[i] <= '9'
}

/// The integer that `t` writes in the syntax of `i64::from_str`: an optional
/// `+` or `-` followed by one or more decimal digits.
pub open spec fn integer_value(t: Seq<char>) -> Option<int> {
    if t.len() > 0 && (t[0] == '+' || t[0] == '-') {
        if is_decimal(t.drop_first()) {
            let v = digits_value(t.drop_first(), 10) as int;
            Some(if t[0] == '-' { -v } else { v })
        } else {
            None
        }
    } else if is_decimal(t) {
        Some(digits_value(t, 10) as int)
    } else {
        None
    }
}

/// What `strtonum(3)` answers for the text `s` and the bounds `min` and `max`.
///
/// Bounds with `min > max` are invalid. Otherwise leading white space is skipped,
/// and the rest must be an optional sign followed by decimal digits and nothing
/// else. A value below `min` (also one below the `i64` range) is too small, one
/// above `max` (also one above the `i64` range) is too large.
pub open spec fn strtonum_spec(s: Seq<char>, min: i64, max: i64) -> Result<i64, Seq<char>> {
    if min > max {
        Err("invalid"@)
    } else {
        match integer_value(skip_space(s)) {
            Some(v) => {
                if v < min {
                    Err("too small"@)
                } else if v > max {
                    Err("too large"@)
                } else {
                    Ok(v as i64)
                }
            },
            None => Err("invalid"@),
        }
    }
}

fn is_space(c: char) -> (b: bool)
    ensures
        b == is_c_space(c),
{
    c == ' ' || ('\t' <= c && c <= '\r')
}

/// The index of the first character of `cs` that is not `isspace`.
fn skip_space_index(cs: &Vec<char>) -> (lo: usize)
    ensures
        lo <= cs@.len(),
        cs@.skip(lo as int) == skip_space(cs@),
{
    let n = cs.len();
    let mut lo: usize = 0;
    assert(cs@.skip(0) =~= cs@);
    while lo < n && is_space(cs[lo])
        invariant
            n == cs@.len(),
            lo <= n,
            skip_space(cs@) == skip_space(cs@.skip(lo as int)),
        decreases n - lo,
    {
        assert(cs@.skip(lo as int).drop_first() =~= cs@.skip(lo + 1));
        lo += 1;
    }
    lo
}

/// The value of the decimal digits `cs[lo..hi]`, or `None` when it exceeds 2^63.
fn magnitude(cs: &Vec<char>, lo: usize, hi: usize) -> (r: Option<u64>)
    requires
        lo <= hi <= cs@.len(),
        is_decimal(cs@.subrange(lo as int, hi as int)),
    ensures
        r is Some <==> digits_value(cs@.subrange(lo as int, hi as int), 10) <= 0x8000_0000_0000_0000,
        r matches Some(m) ==> m == digits_value(cs@.subrange(lo as int, hi as int), 10),
{
    let ghost d = cs@.subrange(lo as int, hi as int);
    let mut acc: u64 = 0;
    let mut big = false;
    let mut i: usize = lo;
    while i < hi
        invariant
            lo <= i <= hi <= cs@.len(),
            d == cs@.subrange(lo as int, hi as int),
            is_decimal(d),
            !big ==> acc == digits_value(d.take(i - lo), 10) && acc <= 0x8000_0000_0000_0000,
            big ==> digits_value(d.take(i - lo), 10) > 0x8000_0000_0000_0000,
        decreases hi - i,
    {
        let c = cs[i];
        assert(c == d[i - lo]);
        let digit = c as u64 - '0' as u64;
        assert(d.take(i - lo + 1).drop_last() =~= d.take(i - lo));
        assert(d.take(i - lo + 1).last() == c);
        let ghost prev = digits_value(d.take(i - lo), 10);
        assert(digits_value(d.take(i - lo + 1), 10) == prev * 10 + digit);
        if !big {
            if acc > 922_337_203_685_477_580 || (acc == 922_337_203_685_477_580 && digit > 8) {
                big = true;
                assert(prev * 10 + digit > 0x8000_0000_0000_0000) by (nonlinear_arith)
                    requires
                        prev == acc,
                        acc > 922_337_203_685_477_580 || (acc == 922_337_203_685_477_580 && digit
                            > 8),
                ;
            } else {
                assert(acc * 10 + digit <= 0x8000_0000_0000_0000) by (nonlinear_arith)
                    requires
                        acc <= 922_337_203_685_477_580,
                        acc == 922_337_203_685_477_580 ==> digit <= 8,
                        digit <= 9,
                ;
                acc = acc * 10 + digit;
            }
        } else {
            assert(prev * 10 + digit > 0x8000_0000_0000_0000) by (nonlinear_arith)
                requires
                    prev > 0x8000_0000_0000_0000,
                    digit >= 0,
            ;
        }
        i += 1;
    }
    assert(d.take(hi - lo) =~= d);
    if big {
        None
    } else {
        Some(acc)
    }
}

/// What reading `cs[lo..hi]` as an optional sign followed by decimal digits gives.
pub(crate) enum Reading {
    /// The text is not an optional sign followed by decimal digits.
    NotNumber,
    /// The value, which fits in an `i64`.
    Value(i64),
    /// The value lies below the `i64` range.
    BelowRange,
    /// The value lies above the `i64` range.
    AboveRange,
}

/// Reads `cs[lo..hi]` as an optional sign followed by decimal digits, keeping the
/// direction in which a value outside the `i64` range overflows.
pub(crate) fn read_integer(cs: &Vec<char>, lo: usize, hi: usize) -> (r: Reading)
    requires
        lo <= hi <= cs@.len(),
    ensures
        match r {
            Reading::NotNumber => integer_value(cs@.subrange(lo as int, hi as int)) is None,
            Reading::Value(n) => integer_value(cs@.subrange(lo as int, hi as int)) == Some(n as int),
            Reading::BelowRange => integer_value(cs@.subrange(lo as int, hi as int)) matches Some(v)
                && v < i64::MIN,
            Reading::AboveRange => integer_value(cs@.subrange(lo as int, hi as int)) matches Some(v)
                && v > i64::MAX,
        },
{
    let ghost t = cs@.subrange(lo as int, hi as int);
    if lo == hi {
        return Reading::NotNumber;
    }
    let first = cs[lo];
    let negative = first == '-';
    let start = if first == '+' || first == '-' {
        lo + 1
    } else {
        lo
    };
    let mut all_digits = start < hi;
    let mut i = start;
    while i < hi
        invariant
            start <= i <= hi <= cs@.len(),
            all_digits ==> forall|j: int| start <= j < i ==> '0' <= #[trigger] cs@[j] && cs@[j] <= '9',
            !all_digits ==> !is_decimal(cs@.subrange(start as int, hi as int)),
            all_digits ==> start < hi,
        decreases hi - i,
    {
        if !('0' <= cs[i] && cs[i] <= '9') {
            if all_digits {
                assert(cs@.subrange(start as int, hi as int)[i - start] == cs@[i as int]);
            }
            all_digits = false;
        }
        i += 1;
    }
    let ghost digits = cs@.subrange(start as int, hi as int);
    if start == lo + 1 {
        assert(t.drop_first() =~= digits);
    } else {
        assert(t =~= digits);
    }
    if !all_digits {
        return Reading::NotNumber;
    }
    assert(is_decimal(digits)) by {
        assert forall|j: int| 0 <= j < digits.len() implies '0' <= #[trigger] digits[j] && digits[j]
            <= '9' by {
            assert(digits[j] == cs@[start + j]);
        }
    }
    match magnitude(cs, start, hi) {
        None => {
            if negative {
                Reading::BelowRange
            } else {
                Reading::AboveRange
            }
        },
        Some(m) => {
            if negative {
                if m == 0x8000_0000_0000_0000 {
                    Reading::Value(i64::MIN)
                } else {
                    Reading::Value(-(m as i64))
                }
            } else {
                if m > 0x7fff_ffff_ffff_ffff {
                    Reading::AboveRange
                } else {
                    Reading::Value(m as i64)
                }
            }
        },
    }
}

/// The value of `cs[lo..hi]` read as by `i64::from_str`, or `None` when that text
/// is not an integer or its value does not fit in an `i64`.
pub(crate) fn parse_i64(cs: &Vec<char>, lo: usize, hi: usize) -> (r: Option<i64>)
    requires
        lo <= hi <= cs@.len(),
    ensures
        r matches Some(n) ==> integer_value(cs@.subrange(lo as int, hi as int)) == Some(n as int),
        r is None ==> match integer_value(cs@.subrange(lo as int, hi as int)) {
            Some(v) => v < i64::MIN || v > i64::MAX,
            None => true,
        },
{
    match read_integer(cs, lo, hi) {
        Reading::Value(n) => Some(n),
        _ => None,
    }
}

/// OpenBSD `strtonum(3)`: parse a string to a bounded `i64`.
/// Returns `Err("too small")`, `Err("too large")`, or `Err("invalid")`.
///
/// As in `strtonum(3)`: `min > max` is invalid; leading white space is skipped;
/// the rest must be an optional sign and decimal digits with nothing after them;
/// a value outside `min..=max`, even one outside the `i64` range, is too small or
/// too large.
pub fn strtonum(s: &str, min: i64, max: i64) -> (r: Result<i64, &'static str>)
    ensures
        r matches Ok(n) ==> strtonum_spec(s@, min, max) == Ok::<i64, Seq<char>>(n),
        r matches Err(e) ==> strtonum_spec(s@, min, max) == Err::<i64, Seq<char>>(e@),
{
    if min > max {
        return Err("invalid");
    }
    let cs = chars_of(s);
    let lo = skip_space_index(&cs);
    let hi = cs.len();
    assert(cs@.subrange(lo as int, hi as int) =~= cs@.skip(lo as int));
    match read_integer(&cs, lo, hi) {
        Reading::NotNumber => Err("invalid"),
        Reading::BelowRange => Err("too small"),
        Reading::AboveRange => Err("too large"),
        Reading::Value(n) => {
            if n < min {
                Err("too small")
            } else if n > max {
                Err("too large")
            } else {
                Ok(n)
            }
        },
    }
}

/// Every character of `w` is `isspace` white space.
pub open spec fn all_c_space(w: Seq<char>) -> bool {
    forall|i: int| 0 <= i < w.len() ==> is_c_space(#[trigger] w[i])
}

proof fn lemma_skip_space_prefix(w: Seq<char>, x: Seq<char>)
    requires
        all_c_space(w),
    ensures
        skip_space(w + x) == skip_space(x),
    decreases w.len(),
{
    if w.len() > 0 {
        assert((w + x)[0] == w[0]);
        assert((w + x).drop_first() =~= w.drop_first() + x);
        assert(all_c_space(w.drop_first())) by {
            assert forall|i: int| 0 <= i < w.drop_first().len() implies is_c_space(
                #[trigger] w.drop_first()[i],
            ) by {
                assert(w.drop_first()[i] == w[i + 1]);
            }
        }
        lemma_skip_space_prefix(w.drop_first(), x);
    } else {
        assert(w + x =~= x);
    }
}

/// White space in front of a number does not change what `strtonum` answers.
pub proof fn lemma_strtonum_skips_leading_space(w: Seq<char>, s: Seq<char>, min: i64, max: i64)
    requires
        all_c_space(w),
    ensures
        strtonum_spec(w + s, min, max) == strtonum_spec(s, min, max),
{
    lemma_skip_space_prefix(w, s);
}

/// Text after the number, white space included, makes it invalid.
pub proof fn lemma_strtonum_rejects_trailing(n: Seq<char>, c: char, min: i64, max: i64)
    requires
        min <= max,
        is_decimal(n),
        !('0' <= c && c <= '9'),
    ensures
        strtonum_spec(n + seq![c], min, max) == Err::<i64, Seq<char>>("invalid"@),
{
    let t = n + seq![c];
    assert(t[0] == n[0]);
    assert(!is_c_space(t[0]));
    assert(skip_space(t) == t);
    assert(t[t.len() - 1] == c);
    assert(!is_decimal(t));
    if t[0] == '+' || t[0] == '-' {
        assert(!is_decimal(t.drop_first())) by {
            assert(t.drop_first()[t.drop_first().len() - 1] == c);
        }
    }
}

/// The decimal digits of `m`.
pub open spec fn digits_text(m: nat) -> Seq<char>
    decreases m,
{
    if m < 10 {
        seq![(m + 0x30) as char]
    } else {
        digits_text(m / 10) + seq![(m % 10 + 0x30) as char]
    }
}

/// `n` written in decimal, with a `-` when it is negative.
pub open spec fn decimal_text(n: int) -> Seq<char> {
    if n < 0 {
        seq!['-'] + digits_text((-n) as nat)
    } else {
        digits_text(n as nat)
    }
}

proof fn lemma_digits_text(m: nat)
    ensures
        is_decimal(digits_text(m)),
        digits_value(digits_text(m), 10) == m,
    decreases m,
{
    let t = digits_text(m);
    if m >= 10 {
        lemma_digits_text(m / 10);
        assert(t.drop_last() =~= digits_text(m / 10));
        assert forall|i: int| 0 <= i < t.len() implies '0' <= #[trigger] t[i] && t[i] <= '9' by {
            if i < t.len() - 1 {
                assert(t[i] == digits_text(m / 10)[i]);
            }
        }
    }
    assert(t.last() == ((m % 10 + 0x30) as char));
    assert(digit_value(t.last()) == m % 10);
    assert(digits_value(t, 10) == digits_value(t.drop_last(), 10) * 10 + digit_value(t.last()));
    if m >= 10 {
        assert(digits_value(t.drop_last(), 10) == m / 10);
        assert((m / 10) * 10 + m % 10 == m) by (nonlinear_arith);
    } else {
        assert(t.drop_last() =~= Seq::<char>::empty());
        assert(digits_value(t.drop_last(), 10) == 0);
    }
}

/// A number within the bounds, written in decimal, reads back as itself.
pub proof fn lemma_strtonum_reads_decimal(n: i64, min: i64, max: i64)
    requires
        min <= n <= max,
    ensures
        strtonum_spec(decimal_text(n as int), min, max) == Ok::<i64, Seq<char>>(n),
{
    let m: nat = if n < 0 { (-n) as nat } else { n as nat };
    let d = digits_text(m);
    lemma_digits_text(m);
    let t = decimal_text(n as int);
    assert(!is_c_space(d[0]));
    if n < 0 {
        assert(t.drop_first() =~= d);
        assert(t.last() == d.last());
        assert(t[0] == '-');
    }
    assert(t.len() > 0 && !is_c_space(t[0]));
    assert(skip_space(t) == t);
    assert(t[0] != '+');
}

/// An accepted number lies within the bounds.
pub proof fn lemma_strtonum_within_bounds(s: Seq<char>, min: i64, max: i64)
    ensures
        strtonum_spec(s, min, max) matches Ok(n) ==> min <= n <= max,
{
}

} // verus!
