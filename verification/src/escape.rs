use vstd::prelude::*;
use vstd::utf8::*;

use crate::text::{chars_of, lemma_encode_utf8_concat, lemma_encode_utf8_single, push_utf8_all};

verus! {

/// `0`..`7`.
pub open spec fn is_octal_digit(c: char) -> bool {
    '0' <= c && c <= '7'
}

/// `0`..`9`, `a`..`f` or `A`..`F`.
pub open spec fn is_hex_digit(c: char) -> bool {
    ||| ('0' <= c && c <= '9')
    ||| ('a' <= c && c <= 'f')
    ||| ('A' <= c && c <= 'F')
}

/// The value of a hexadecimal (or octal) digit.
pub open spec fn digit_value(c: char) -> nat {
    if '0' <= c && c <= '9' {
        (c as int - '0' as int) as nat
    } else if 'a' <= c && c <= 'f' {
        (c as int - 'a' as int + 10) as nat
    } else {
        (c as int - 'A' as int + 10) as nat
    }
}

/// The number written by the digits `ds` in base `radix`.
pub open spec fn digits_value(ds: Seq<char>, radix: nat) -> nat
    decreases ds.len(),
{
    if ds.len() == 0 {
        0
    } else {
        digits_value(ds.drop_last(), radix) * radix + digit_value(ds.last())
    }
}

/// How many octal digits (at most three) stand at the front of `r`.
pub open spec fn octal_run(r: Seq<char>) -> nat {
    if r.len() >= 1 && is_octal_digit(r[0]) {
        if r.len() >= 2 && is_octal_digit(r[1]) {
            if r.len() >= 3 && is_octal_digit(r[2]) {
                3
            } else {
                2
            }
        } else {
            1
        }
    } else {
        0
    }
}

/// How many hexadecimal digits (at most two) stand at the front of `r`.
pub open spec fn hex_run(r: Seq<char>) -> nat {
    if r.len() >= 1 && is_hex_digit(r[0]) {
        if r.len() >= 2 && is_hex_digit(r[1]) {
            2
        } else {
            1
        }
    } else {
        0
    }
}

/// The character that a one-letter escape `\n`, `\t`, ... stands for.
pub open spec fn simple_escape(n: char) -> Option<char> {
    if n == '\\' {
        Some('\\')
    } else if n == 'a' {
        Some('\x07')
    } else if n == 'b' {
        Some('\x08')
    } else if n == 'e' {
        Some('\x1b')
    } else if n == 'f' {
        Some('\x0c')
    } else if n == 'n' {
        Some('\n')
    } else if n == 'r' {
        Some('\r')
    } else if n == 't' {
        Some('\t')
    } else if n == 'v' {
        Some('\x0b')
    } else {
        None
    }
}

/// What the escape made of a backslash, the character `n` (not `c`) and the
/// characters `rest` after it produces, and how many characters of `rest` it uses.
///
/// `\0` takes up to three more octal digits (a value above 255 produces nothing),
/// `\x` up to two hexadecimal digits; `\x` without digits and an unknown escape
/// are kept as written.
pub open spec fn escape_piece(n: char, rest: Seq<char>) -> (Seq<char>, nat) {
    if simple_escape(n) is Some {
        (seq![simple_escape(n)->0], 0)
    } else if n == '0' {
        let k = octal_run(rest);
        if k == 0 {
            (seq!['\0'], 0)
        } else {
            let v = digits_value(rest.take(k as int), 8);
            if v <= 0xff {
                (seq![v as char], k)
            } else {
                (seq![], k)
            }
        }
    } else if n == 'x' {
        let k = hex_run(rest);
        if k == 0 {
            (seq!['\\', 'x'], 0)
        } else {
            (seq![digits_value(rest.take(k as int), 16) as char], k)
        }
    } else {
        (seq!['\\', n], 0)
    }
}

/// The characters that escape processing makes of `s`, and whether all of `s`
/// was processed (`false` when a `\c` stopped it).
pub open spec fn unescape_chars(s: Seq<char>) -> (Seq<char>, bool)
    decreases s.len(),
{
    if s.len() == 0 {
        (seq![], true)
    } else if s[0] != '\\' {
        let r = unescape_chars(s.drop_first());
        (seq![s[0]] + r.0, r.1)
    } else if s.len() == 1 {
        (seq!['\\'], true)
    } else if s[1] == 'c' {
        (seq![], false)
    } else {
        let piece = escape_piece(s[1], s.skip(2));
        let r = unescape_chars(s.skip(2 + piece.1 as int));
        (piece.0 + r.0, r.1)
    }
}

/// The bytes that escape processing writes for `s`.
pub open spec fn escaped_bytes(s: Seq<char>) -> Seq<u8> {
    encode_utf8(unescape_chars(s).0)
}

spec fn radix_pow(r: nat, j: nat) -> nat
    decreases j,
{
    if j == 0 {
        1
    } else {
        r * radix_pow(r, (j - 1) as nat)
    }
}

fn is_octal(c: char) -> (b: bool)
    ensures
        b == is_octal_digit(c),
{
    '0' <= c && c <= '7'
}

fn is_hex(c: char) -> (b: bool)
    ensures
        b == is_hex_digit(c),
{
    ('0' <= c && c <= '9') || ('a' <= c && c <= 'f') || ('A' <= c && c <= 'F')
}

fn digit_of(c: char) -> (d: u32)
    requires
        is_hex_digit(c),
    ensures
        d == digit_value(c),
        d < 16,
{
    if '0' <= c && c <= '9' {
        c as u32 - '0' as u32
    } else if 'a' <= c && c <= 'f' {
        c as u32 - 'a' as u32 + 10
    } else {
        c as u32 - 'A' as u32 + 10
    }
}

fn is_run_digit(c: char, octal: bool) -> (b: bool)
    ensures
        b == (if octal { is_octal_digit(c) } else { is_hex_digit(c) }),
{
    if octal {
        is_octal(c)
    } else {
        is_hex(c)
    }
}

/// The length of the run of octal digits (at most three) or hexadecimal digits (at
/// most two) that starts at `start`.
fn digit_run(cs: &Vec<char>, start: usize, octal: bool) -> (k: usize)
    requires
        start <= cs@.len(),
    ensures
        octal ==> k == octal_run(cs@.skip(start as int)),
        !octal ==> k == hex_run(cs@.skip(start as int)),
{
    let n = cs.len();
    let limit: usize = if octal { 3 } else { 2 };
    let mut k: usize = 0;
    while k < limit && start + k < n && is_run_digit(cs[start + k], octal)
        invariant
            n == cs@.len(),
            start <= n,
            limit == (if octal { 3usize } else { 2usize }),
            k <= limit,
            start + k <= n,
            forall|j: int|
                0 <= j < k ==> (if octal { is_octal_digit(#[trigger] cs@[start + j]) } else { is_hex_digit(cs@[start + j]) }),
        decreases limit - k,
    {
        k += 1;
    }
    let ghost r = cs@.skip(start as int);
    assert(forall|j: int| 0 <= j < r.len() ==> r[j] == cs@[start + j]);
    k
}

/// The value of the `k` digits starting at `start`, in base `radix`.
fn run_value(cs: &Vec<char>, start: usize, k: usize, radix: u32) -> (v: u32)
    requires
        radix == 8 || radix == 16,
        k <= 3,
        radix == 16 ==> k <= 2,
        start + k <= cs@.len(),
        forall|j: int| 0 <= j < k ==> is_hex_digit(#[trigger] cs@[start + j]),
        forall|j: int| 0 <= j < k ==> digit_value(#[trigger] cs@[start + j]) < radix,
    ensures
        v == digits_value(cs@.skip(start as int).take(k as int), radix as nat),
        radix == 8 ==> v < 512,
        radix == 16 ==> v < 256,
{
    let ghost r = cs@.skip(start as int);
    let n = cs.len();
    let mut v: u32 = 0;
    let mut j: usize = 0;
    while j < k
        invariant
            radix == 8 || radix == 16,
            k <= 3,
            radix == 16 ==> k <= 2,
            n == cs@.len(),
            start + k <= n,
            r == cs@.skip(start as int),
            forall|i: int| 0 <= i < k ==> is_hex_digit(#[trigger] cs@[start + i]),
            forall|i: int| 0 <= i < k ==> digit_value(#[trigger] cs@[start + i]) < radix,
            j <= k,
            v == digits_value(r.take(j as int), radix as nat),
            v < radix_pow(radix as nat, j as nat),
        decreases k - j,
    {
        let d = digit_of(cs[start + j]);
        proof {
            reveal_with_fuel(radix_pow, 4);
            assert(r.take(j + 1).drop_last() =~= r.take(j as int));
            assert(r.take(j + 1).last() == cs@[start + j]);
            assert(radix_pow(radix as nat, j as nat) <= 256);
            assert(v * radix + d < radix_pow(radix as nat, j as nat) * radix) by (nonlinear_arith)
                requires
                    v < radix_pow(radix as nat, j as nat),
                    d < radix,
            ;
            assert(radix_pow(radix as nat, (j + 1) as nat) == radix * radix_pow(radix as nat, j as nat));
            assert(v * radix <= 256 * 16) by (nonlinear_arith)
                requires
                    v < 256,
                    radix <= 16,
            ;
        }
        v = v * radix + d;
        j += 1;
    }
    proof {
        reveal_with_fuel(radix_pow, 4);
    }
    v
}

/// Escape processing on a character vector; see [`unescape_chars`].
fn unescape_vec(cs: &Vec<char>) -> (r: (Vec<char>, bool))
    ensures
        (r.0@, r.1) == unescape_chars(cs@),
{
    let n = cs.len();
    let mut out: Vec<char> = Vec::new();
    let mut i: usize = 0;
    assert(cs@.skip(0) =~= cs@);
    while i < n
        invariant
            n == cs@.len(),
            i <= n,
            unescape_chars(cs@) == (out@ + unescape_chars(cs@.skip(i as int)).0, unescape_chars(
                cs@.skip(i as int),
            ).1),
        decreases n - i,
    {
        let ghost rest = cs@.skip(i as int);
        let ch = cs[i];
        if ch != '\\' {
            proof {
                assert(rest.drop_first() =~= cs@.skip(i + 1));
                assert(out@ + (seq![ch] + unescape_chars(rest.drop_first()).0) =~= out@.push(ch)
                    + unescape_chars(rest.drop_first()).0);
            }
            out.push(ch);
            i += 1;
            continue;
        }
        if i + 1 == n {
            out.push('\\');
            proof {
                assert(rest.len() == 1);
            }
            return (out, true);
        }
        let next = cs[i + 1];
        if next == 'c' {
            proof {
                assert(out@ + Seq::<char>::empty() =~= out@);
            }
            return (out, false);
        }
        let ghost after = cs@.skip(i + 2);
        assert(rest.skip(2) =~= after);
        let ghost piece = escape_piece(next, after);
        let ghost old_out = out@;
        let mut used: usize = 0;
        if next == '\\' {
            out.push('\\');
        } else if next == 'a' {
            out.push('\x07');
        } else if next == 'b' {
            out.push('\x08');
        } else if next == 'e' {
            out.push('\x1b');
        } else if next == 'f' {
            out.push('\x0c');
        } else if next == 'n' {
            out.push('\n');
        } else if next == 'r' {
            out.push('\r');
        } else if next == 't' {
            out.push('\t');
        } else if next == 'v' {
            out.push('\x0b');
        } else if next == '0' {
            let k = digit_run(cs, i + 2, true);
            if k == 0 {
                out.push('\0');
            } else {
                proof {
                    assert forall|j: int| 0 <= j < k implies is_hex_digit(#[trigger] cs@[i + 2 + j])
                        && digit_value(cs@[i + 2 + j]) < 8 by {
                        assert(cs@[i + 2 + j] == after[j]);
                    }
                }
                let val = run_value(cs, i + 2, k, 8);
                if val <= 0xff {
                    let b = val as u8;
                    out.push(b as char);
                }
                used = k;
            }
        } else if next == 'x' {
            let k = digit_run(cs, i + 2, false);
            if k == 0 {
                out.push('\\');
                out.push('x');
            } else {
                proof {
                    assert forall|j: int| 0 <= j < k implies is_hex_digit(#[trigger] cs@[i + 2 + j])
                        && digit_value(cs@[i + 2 + j]) < 16 by {
                        assert(cs@[i + 2 + j] == after[j]);
                    }
                }
                let val = run_value(cs, i + 2, k, 16);
                let b = val as u8;
                out.push(b as char);
                used = k;
            }
        } else {
            out.push('\\');
            out.push(next);
        }
        assert(used == piece.1);
        assert(out@ == old_out + piece.0);
        proof {
            let tail = unescape_chars(rest.skip(2 + piece.1 as int));
            assert(unescape_chars(rest) == (piece.0 + tail.0, tail.1));
            assert(old_out + (piece.0 + tail.0) =~= out@ + tail.0);
        }
        assert(rest.skip(2 + piece.1 as int) =~= cs@.skip(i + 2 + used));
        i = i + 2 + used;
    }
    proof {
        assert(cs@.skip(n as int) =~= Seq::<char>::empty());
        assert(out@ + Seq::<char>::empty() =~= out@);
    }
    (out, true)
}

/// Processes backslash escapes in `s` as `echo -e` does and appends the result,
/// UTF-8 encoded, to `writer`.
///
/// Recognised escapes are `\\`, `\a`, `\b`, `\e`, `\f`, `\n`, `\r`, `\t`, `\v`,
/// `\0` followed by up to three octal digits, and `\x` followed by up to two
/// hexadecimal digits. `\c` stops the output: the function then returns
/// `Ok(false)`, and `Ok(true)` otherwise. Writing to a vector never fails.
pub fn write_escaped(writer: &mut Vec<u8>, s: &str) -> (r: Result<bool, std::io::Error>)
    ensures
        r is Ok,
        final(writer)@ == old(writer)@ + escaped_bytes(s@),
        r->Ok_0 == unescape_chars(s@).1,
        final(writer)@.len() <= old(writer)@.len() + encode_utf8(s@).len(),
{
    proof {
        lemma_escaped_no_longer(s@);
    }
    let cs = chars_of(s);
    let (out, complete) = unescape_vec(&cs);
    push_utf8_all(writer, &out);
    Ok(complete)
}

/// Calls `String::from_utf8`, which gives back the string whose UTF-8 encoding is
/// `bytes` when `bytes` is valid UTF-8, and an error otherwise.
#[verifier::external_body]
fn string_from_utf8(bytes: Vec<u8>) -> (r: Option<String>)
    ensures
        r is Some <==> valid_utf8(bytes@),
        r matches Some(s) ==> s@ == decode_utf8(bytes@),
{
    String::from_utf8(bytes).ok()
}

/// Processes backslash escapes in `s` (see [`write_escaped`]) and returns the
/// resulting string, together with `false` when a `\c` stopped the processing.
/// The result is never longer in bytes than `s`.
pub fn unescape(s: &str) -> (r: (String, bool))
    ensures
        (r.0@, r.1) == unescape_chars(s@),
        encode_utf8(r.0@).len() <= encode_utf8(s@).len(),
{
    proof {
        lemma_escaped_no_longer(s@);
    }
    let mut buf = Vec::with_capacity(s.len());
    match write_escaped(&mut buf, s) {
        Ok(complete) => {
            proof {
                encode_utf8_valid_utf8(unescape_chars(s@).0);
                encode_utf8_decode_utf8(unescape_chars(s@).0);
            }
            match string_from_utf8(buf) {
                Some(result) => (result, complete),
                None => {
                    proof {
                        assert(false);
                    }
                    (String::new(), complete)
                },
            }
        },
        Err(_) => (String::new(), true),
    }
}

/// Text without a backslash comes out unchanged, and all of it is processed.
pub proof fn lemma_plain_text_unchanged(s: Seq<char>)
    requires
        !s.contains('\\'),
    ensures
        unescape_chars(s) == (s, true),
    decreases s.len(),
{
    if s.len() > 0 {
        assert(s[0] != '\\');
        assert forall|j: int| 0 <= j < s.drop_first().len() implies s.drop_first()[j] != '\\' by {
            assert(s.drop_first()[j] == s[j + 1]);
        }
        lemma_plain_text_unchanged(s.drop_first());
        assert(seq![s[0]] + s.drop_first() =~= s);
    }
}

/// What `write_escaped` writes is valid UTF-8 and decodes to exactly the string that
/// `unescape` returns, so `unescape` never has to repair its bytes.
pub proof fn lemma_unescape_matches_write_escaped(s: Seq<char>)
    ensures
        valid_utf8(escaped_bytes(s)),
        decode_utf8(escaped_bytes(s)) == unescape_chars(s).0,
{
    encode_utf8_valid_utf8(unescape_chars(s).0);
    encode_utf8_decode_utf8(unescape_chars(s).0);
}

proof fn lemma_stopped_has_backslash(s: Seq<char>)
    requires
        !unescape_chars(s).1,
    ensures
        exists|j: int| 0 <= j < s.len() && s[j] == '\\',
    decreases s.len(),
{
    if s[0] != '\\' {
        lemma_stopped_has_backslash(s.drop_first());
        let j = choose|j: int| 0 <= j < s.drop_first().len() && s.drop_first()[j] == '\\';
        assert(s[j + 1] == '\\');
    } else {
        assert(s[0] == '\\');
    }
}

proof fn lemma_piece_extends(n: char, r: Seq<char>, t: Seq<char>)
    requires
        !unescape_chars(r.skip(escape_piece(n, r).1 as int)).1,
        escape_piece(n, r).1 <= r.len(),
    ensures
        escape_piece(n, r + t) == escape_piece(n, r),
{
    let k = escape_piece(n, r).1 as int;
    lemma_stopped_has_backslash(r.skip(k));
    let j = choose|j: int| 0 <= j < r.skip(k).len() && r.skip(k)[j] == '\\';
    assert(r[k + j] == '\\');
    let rt = r + t;
    assert(forall|i: int| 0 <= i < r.len() ==> rt[i] == r[i]);
    assert(rt.take(k) =~= r.take(k));
    if n == '0' {
        assert(octal_run(rt) == octal_run(r));
        assert(rt.take(octal_run(r) as int) =~= r.take(octal_run(r) as int));
    } else if n == 'x' {
        assert(hex_run(rt) == hex_run(r));
        assert(rt.take(hex_run(r) as int) =~= r.take(hex_run(r) as int));
    }
}

/// Once `\c` has stopped the processing, whatever follows is ignored:
/// appending text to a stopped input changes nothing.
pub proof fn lemma_stop_ignores_rest(s: Seq<char>, t: Seq<char>)
    requires
        !unescape_chars(s).1,
    ensures
        unescape_chars(s + t) == unescape_chars(s),
    decreases s.len(),
{
    let st = s + t;
    assert(st[0] == s[0]);
    if s[0] != '\\' {
        assert(st.drop_first() =~= s.drop_first() + t);
        lemma_stop_ignores_rest(s.drop_first(), t);
    } else {
        assert(s.len() >= 2);
        assert(st[1] == s[1]);
        if s[1] != 'c' {
            let r = s.skip(2);
            let piece = escape_piece(s[1], r);
            assert(st.skip(2) =~= r + t);
            assert(r.skip(piece.1 as int) =~= s.skip(2 + piece.1 as int));
            lemma_piece_extends(s[1], r, t);
            assert(st.skip(2 + piece.1 as int) =~= s.skip(2 + piece.1 as int) + t);
            lemma_stop_ignores_rest(s.skip(2 + piece.1 as int), t);
        }
    }
}


/// The number of backslashes that end `s`.
pub open spec fn trailing_backslashes(s: Seq<char>) -> nat
    decreases s.len(),
{
    if s.len() == 0 || s.last() != '\\' {
        0
    } else {
        1 + trailing_backslashes(s.drop_last())
    }
}

proof fn lemma_trailing_run(s: Seq<char>)
    ensures
        trailing_backslashes(s) <= s.len(),
        forall|i: int| s.len() - trailing_backslashes(s) <= i < s.len() ==> s[i] == '\\',
        trailing_backslashes(s) < s.len() ==> s[s.len() - 1 - trailing_backslashes(s)] != '\\',
    decreases s.len(),
{
    if s.len() > 0 && s.last() == '\\' {
        let d = s.drop_last();
        lemma_trailing_run(d);
        assert forall|i: int| s.len() - trailing_backslashes(s) <= i < s.len() implies s[i]
            == '\\' by {
            if i < s.len() - 1 {
                assert(s[i] == d[i]);
            }
        }
        if trailing_backslashes(s) < s.len() {
            assert(s[s.len() - 1 - trailing_backslashes(s)] == d[d.len() - 1
                - trailing_backslashes(d)]);
        }
    }
}

proof fn lemma_trailing_exact(s: Seq<char>, m: nat)
    requires
        m <= s.len(),
        forall|i: int| s.len() - m <= i < s.len() ==> s[i] == '\\',
        m < s.len() ==> s[s.len() - 1 - m] != '\\',
    ensures
        trailing_backslashes(s) == m,
    decreases s.len(),
{
    if m > 0 {
        let d = s.drop_last();
        assert(s[s.len() - 1] == '\\');
        assert forall|i: int| d.len() - (m - 1) <= i < d.len() implies d[i] == '\\' by {
            assert(d[i] == s[i]);
        }
        if m - 1 < d.len() {
            assert(d[d.len() - 1 - (m - 1)] == s[s.len() - 1 - m]);
        }
        lemma_trailing_exact(d, (m - 1) as nat);
    }
}

proof fn lemma_piece_before_backslash(n: char, r: Seq<char>, t: Seq<char>)
    requires
        t.len() > 0,
        t[0] == '\\',
    ensures
        escape_piece(n, r + t) == escape_piece(n, r),
        escape_piece(n, r).1 <= r.len(),
        escape_piece(n, r).1 > 0 ==> r[escape_piece(n, r).1 - 1] != '\\',
{
    let rt = r + t;
    assert(forall|i: int| 0 <= i < r.len() ==> rt[i] == r[i]);
    assert(rt[r.len() as int] == '\\');
    assert(!is_octal_digit('\\') && !is_hex_digit('\\'));
    if n == '0' {
        assert(octal_run(rt) == octal_run(r));
        assert(rt.take(octal_run(r) as int) =~= r.take(octal_run(r) as int));
    } else if n == 'x' {
        assert(hex_run(rt) == hex_run(r));
        assert(rt.take(hex_run(r) as int) =~= r.take(hex_run(r) as int));
    }
}

/// `\c` ends all output once the text before it has been processed: when `s`
/// does not end in an unpaired backslash (it ends in an even number of them,
/// possibly none), escape processing of `s`, then `\c`, then anything writes
/// exactly what `s` alone writes, and reports that it stopped.
pub proof fn lemma_stop_after_text(s: Seq<char>, rest: Seq<char>)
    requires
        trailing_backslashes(s) % 2 == 0,
    ensures
        unescape_chars(s + seq!['\\', 'c'] + rest) == (unescape_chars(s).0, false),
        escaped_bytes(s + seq!['\\', 'c'] + rest) == escaped_bytes(s),
    decreases s.len(),
{
    let t = seq!['\\', 'c'] + rest;
    let st = s + t;
    assert(s + seq!['\\', 'c'] + rest =~= st);
    lemma_trailing_run(s);
    let big_t = trailing_backslashes(s);
    if !unescape_chars(s).1 {
        lemma_stop_ignores_rest(s, t);
    } else if s.len() == 0 {
        assert(st =~= t);
        assert(t[0] == '\\' && t[1] == 'c');
    } else if s[0] != '\\' {
        let d = s.drop_first();
        assert(big_t < s.len());
        assert forall|i: int| d.len() - big_t <= i < d.len() implies d[i] == '\\' by {
            assert(d[i] == s[i + 1]);
        }
        if big_t < d.len() {
            assert(d[d.len() - 1 - big_t] == s[s.len() - 1 - big_t]);
        }
        lemma_trailing_exact(d, big_t);
        lemma_stop_after_text(d, rest);
        assert(st[0] == s[0]);
        assert(st.drop_first() =~= d + seq!['\\', 'c'] + rest);
    } else {
        if s.len() == 1 {
            assert(s.drop_last().len() == 0);
            assert(big_t == 1);
        }
        assert(s.len() >= 2);
        assert(s[1] != 'c');
        assert(st[0] == '\\' && st[1] == s[1]);
        let r = s.skip(2);
        lemma_piece_before_backslash(s[1], r, t);
        let piece = escape_piece(s[1], r);
        let k = piece.1 as int;
        assert(st.skip(2) =~= r + t);
        let u = s.skip(2 + k);
        assert(st.skip(2 + k) =~= u + seq!['\\', 'c'] + rest);
        if big_t <= u.len() {
            assert forall|i: int| u.len() - big_t <= i < u.len() implies u[i] == '\\' by {
                assert(u[i] == s[i + 2 + k]);
            }
            if big_t < u.len() {
                assert(u[u.len() - 1 - big_t] == s[s.len() - 1 - big_t]);
            }
            lemma_trailing_exact(u, big_t);
        } else {
            assert(s[1 + k] == '\\');
            if k > 0 {
                assert(s[1 + k] == r[k - 1]);
            }
            assert(k == 0);
            assert(big_t == s.len());
            assert forall|i: int| 0 <= i < u.len() implies u[i] == '\\' by {
                assert(u[i] == s[i + 2]);
            }
            lemma_trailing_exact(u, u.len());
        }
        lemma_stop_after_text(u, rest);
    }
}

proof fn lemma_encode_at_least_chars(x: Seq<char>)
    ensures
        encode_utf8(x).len() >= x.len(),
    decreases x.len(),
{
    if x.len() > 0 {
        lemma_encode_at_least_chars(x.drop_first());
    }
}

proof fn lemma_one_char_bytes(c: char)
    ensures
        encode_utf8(seq![c]).len() <= 4,
        c as u32 <= 0x7ff ==> encode_utf8(seq![c]).len() <= 2,
        c as u32 <= 0x7f ==> encode_utf8(seq![c]).len() == 1,
{
    lemma_encode_utf8_single(c);
}

proof fn lemma_two_hex_digits(ds: Seq<char>)
    requires
        ds.len() <= 2,
        forall|i: int| 0 <= i < ds.len() ==> is_hex_digit(#[trigger] ds[i]),
    ensures
        digits_value(ds, 16) <= 0xff,
{
    if ds.len() > 0 {
        let d = ds.drop_last();
        assert(is_hex_digit(ds.last()));
        assert(digit_value(ds.last()) <= 15);
        if d.len() > 0 {
            assert(is_hex_digit(d.last()));
            assert(digit_value(d.last()) <= 15);
            assert(digits_value(d.drop_last(), 16) == 0);
            assert(digits_value(d, 16) == digit_value(d.last()));
        } else {
            assert(digits_value(d, 16) == 0);
        }
        assert(digits_value(ds, 16) == digits_value(d, 16) * 16 + digit_value(ds.last()));
    }
}

proof fn lemma_piece_no_longer(n: char, r: Seq<char>)
    requires
        n != 'c',
    ensures
        escape_piece(n, r).1 <= r.len(),
        encode_utf8(escape_piece(n, r).0).len() <= encode_utf8(
            seq!['\\', n] + r.take(escape_piece(n, r).1 as int),
        ).len(),
{
    let piece = escape_piece(n, r);
    let k = piece.1 as int;
    let src = seq!['\\', n] + r.take(k);
    lemma_encode_at_least_chars(src);
    if simple_escape(n) is Some {
        lemma_one_char_bytes(simple_escape(n)->0);
    } else if n == '0' {
        if k == 0 {
            lemma_one_char_bytes('\0');
        } else {
            let v = digits_value(r.take(k), 8);
            if v <= 0xff {
                lemma_one_char_bytes(v as char);
            } else {
                assert(encode_utf8(piece.0) =~= Seq::<u8>::empty());
            }
        }
    } else if n == 'x' {
        if k > 0 {
            lemma_two_hex_digits(r.take(k));
            lemma_one_char_bytes(digits_value(r.take(k), 16) as char);
        }
    } else {
        assert(src =~= seq!['\\', n]);
    }
}

/// Escape processing never lengthens text: the UTF-8 encoding of the result is
/// no longer than that of the input (each escape is replaced by at most as many
/// bytes as it is written with).
pub proof fn lemma_escaped_no_longer(s: Seq<char>)
    ensures
        escaped_bytes(s).len() <= encode_utf8(s).len(),
    decreases s.len(),
{
    let r = unescape_chars(s);
    if s.len() == 0 {
    } else if s[0] != '\\' {
        let d = s.drop_first();
        lemma_escaped_no_longer(d);
        lemma_encode_utf8_concat(seq![s[0]], unescape_chars(d).0);
        lemma_encode_utf8_concat(seq![s[0]], d);
        assert(seq![s[0]] + d =~= s);
    } else if s.len() == 1 {
        assert(r.0 =~= s);
    } else if s[1] == 'c' {
        assert(encode_utf8(r.0) =~= Seq::<u8>::empty());
    } else {
        let piece = escape_piece(s[1], s.skip(2));
        lemma_piece_no_longer(s[1], s.skip(2));
        let k = piece.1 as int;
        let u = s.skip(2 + k);
        lemma_escaped_no_longer(u);
        lemma_encode_utf8_concat(piece.0, unescape_chars(u).0);
        let head = seq!['\\', s[1]] + s.skip(2).take(k);
        assert(head + u =~= s);
        lemma_encode_utf8_concat(head, u);
    }
}

/// After `\0` the escape takes the longest run of octal digits that follows it,
/// up to three; after `\x`, the longest run of hexadecimal digits, up to two.
/// The digits it takes are all digits, and it stops only at the limit, at the end
/// of the text or at a character that is not a digit.
pub proof fn lemma_digit_runs_are_longest(r: Seq<char>)
    ensures
        ({
            let k = escape_piece('0', r).1;
            &&& k <= 3
            &&& k <= r.len()
            &&& forall|i: int| 0 <= i < k ==> is_octal_digit(#[trigger] r[i])
            &&& (k < 3 && k < r.len()) ==> !is_octal_digit(r[k as int])
        }),
        ({
            let k = escape_piece('x', r).1;
            &&& k <= 2
            &&& k <= r.len()
            &&& forall|i: int| 0 <= i < k ==> is_hex_digit(#[trigger] r[i])
            &&& (k < 2 && k < r.len()) ==> !is_hex_digit(r[k as int])
        }),
{
    assert(simple_escape('0') is None && simple_escape('x') is None);
}

/// The digits after `\0` are read in base 8, most significant first: one, two or
/// three octal digits (the run ending where a non-digit or the text ends) give the
/// character with that value, and a value above 255 gives nothing.
pub proof fn lemma_octal_escape_value(d1: char, d2: char, d3: char, rest: Seq<char>)
    requires
        is_octal_digit(d1),
        is_octal_digit(d2),
        is_octal_digit(d3),
    ensures
        (rest.len() == 0 || !is_octal_digit(rest[0])) ==> escape_piece('0', seq![d1] + rest) == (
        seq![(d1 as int - 48) as char], 1nat),
        (rest.len() == 0 || !is_octal_digit(rest[0])) ==> escape_piece('0', seq![d1, d2] + rest)
            == (seq![(8 * (d1 as int - 48) + (d2 as int - 48)) as char], 2nat),
        ({
            let v = 64 * (d1 as int - 48) + 8 * (d2 as int - 48) + (d3 as int - 48);
            escape_piece('0', seq![d1, d2, d3] + rest) == (if v <= 255 {
                seq![v as char]
            } else {
                Seq::<char>::empty()
            }, 3nat)
        }),
{
    assert(simple_escape('0') is None);
    let r1 = seq![d1] + rest;
    let r2 = seq![d1, d2] + rest;
    let r3 = seq![d1, d2, d3] + rest;
    assert(r1[0] == d1);
    assert(r2[0] == d1 && r2[1] == d2);
    assert(r3[0] == d1 && r3[1] == d2 && r3[2] == d3);
    if rest.len() > 0 {
        assert(r1[1] == rest[0] && r2[2] == rest[0]);
    }
    assert(r1.take(1) =~= seq![d1]);
    assert(r2.take(2) =~= seq![d1, d2]);
    assert(r3.take(3) =~= seq![d1, d2, d3]);
    assert(seq![d1].drop_last() =~= Seq::<char>::empty());
    assert(seq![d1, d2].drop_last() =~= seq![d1]);
    assert(seq![d1, d2, d3].drop_last() =~= seq![d1, d2]);
    assert(digits_value(Seq::<char>::empty(), 8) == 0);
    assert(seq![d1].last() == d1);
    assert(digits_value(seq![d1], 8) == digits_value(seq![d1].drop_last(), 8) * 8 + digit_value(d1));
    assert(digits_value(seq![d1], 8) == digit_value(d1));
    assert(digits_value(seq![d1, d2], 8) == digits_value(seq![d1], 8) * 8 + digit_value(d2));
    assert(digits_value(seq![d1, d2, d3], 8) == digits_value(seq![d1, d2], 8) * 8 + digit_value(
        d3,
    ));
}

/// The digits after `\x` are read in base 16, most significant first: one or two
/// hexadecimal digits (the run ending where a non-digit or the text ends) give the
/// character with that value.
pub proof fn lemma_hex_escape_value(h1: char, h2: char, rest: Seq<char>)
    requires
        is_hex_digit(h1),
        is_hex_digit(h2),
    ensures
        (rest.len() == 0 || !is_hex_digit(rest[0])) ==> escape_piece('x', seq![h1] + rest) == (
        seq![digit_value(h1) as char], 1nat),
        escape_piece('x', seq![h1, h2] + rest) == (seq![(16 * digit_value(h1) + digit_value(h2)) as char], 2nat),
{
    assert(simple_escape('x') is None);
    let r1 = seq![h1] + rest;
    let r2 = seq![h1, h2] + rest;
    assert(r1[0] == h1);
    assert(r2[0] == h1 && r2[1] == h2);
    if rest.len() > 0 {
        assert(r1[1] == rest[0]);
    }
    assert(r1.take(1) =~= seq![h1]);
    assert(r2.take(2) =~= seq![h1, h2]);
    assert(seq![h1].drop_last() =~= Seq::<char>::empty());
    assert(seq![h1, h2].drop_last() =~= seq![h1]);
    assert(digits_value(Seq::<char>::empty(), 16) == 0);
    assert(seq![h1].last() == h1);
    assert(digits_value(seq![h1], 16) == digits_value(seq![h1].drop_last(), 16) * 16 + digit_value(h1));
    assert(digits_value(seq![h1], 16) == digit_value(h1));
    assert(digits_value(seq![h1, h2], 16) == digits_value(seq![h1], 16) * 16 + digit_value(h2));
}

} // verus!
