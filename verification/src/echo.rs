use vstd::prelude::*;
use vstd::utf8::*;

use crate::escape::{lemma_plain_text_unchanged, unescape_chars, write_escaped};
use crate::flags::string_views;
use crate::text::{lemma_encode_utf8_concat, lemma_encode_utf8_single, push_str_bytes};

verus! {

/// What the leading options of `echo` select.
pub struct EchoOptions {
    /// The index in the argument list of the first operand.
    pub first_operand: usize,
    /// `-n`: no newline after the operands.
    pub no_newline: bool,
    /// `-e` (undone by a later `-E`): process backslash escapes.
    pub escape: bool,
}

/// The effect of the option letters `letters` on `(no_newline, escape)`, or `None`
/// when one of them is not `n`, `e` or `E`.
pub open spec fn echo_letters(letters: Seq<char>, no_newline: bool, escape: bool) -> Option<(bool, bool)>
    decreases letters.len(),
{
    if letters.len() == 0 {
        Some((no_newline, escape))
    } else if letters[0] == 'E' {
        echo_letters(letters.drop_first(), no_newline, false)
    } else if letters[0] == 'e' {
        echo_letters(letters.drop_first(), no_newline, true)
    } else if letters[0] == 'n' {
        echo_letters(letters.drop_first(), true, escape)
    } else {
        None
    }
}

/// `echo`'s scan of its options from the argument at index `i` on: the index of
/// the first operand and the final `(no_newline, escape)`. Options are arguments
/// `-x...` (not `-`) made of the letters `n`, `e` and `E`; the first argument that
/// is not one ends the options, and if it starts with `-` it also resets both
/// settings to off.
pub open spec fn echo_scan(args: Seq<Seq<char>>, i: nat, no_newline: bool, escape: bool) -> (nat, bool, bool)
    decreases args.len() - i,
{
    if i >= args.len() {
        (i, no_newline, escape)
    } else {
        let a = args[i as int];
        if a.len() < 2 || a[0] != '-' {
            (i, no_newline, escape)
        } else {
            match echo_letters(a.drop_first(), no_newline, escape) {
                Some((nn, esc)) => echo_scan(args, i + 1, nn, esc),
                None => (i, false, false),
            }
        }
    }
}

/// The bytes `echo` writes for the operands `ops`, and whether a `\c` stopped it.
/// Operands are separated by one space; with `escape` each is escape-processed.
pub open spec fn echo_words(ops: Seq<Seq<char>>, escape: bool, first: bool) -> (Seq<u8>, bool)
    decreases ops.len(),
{
    if ops.len() == 0 {
        (Seq::empty(), false)
    } else {
        let sep = if first { Seq::<u8>::empty() } else { seq![0x20u8] };
        if escape && !unescape_chars(ops[0]).1 {
            (sep + encode_utf8(unescape_chars(ops[0]).0), true)
        } else {
            let word = if escape { encode_utf8(unescape_chars(ops[0]).0) } else { encode_utf8(ops[0]) };
            let r = echo_words(ops.drop_first(), escape, false);
            (sep + word + r.0, r.1)
        }
    }
}

/// Everything `echo` writes for the operands `ops`: the words, then a newline
/// unless `no_newline` is set or a `\c` stopped the output.
pub open spec fn echo_text(ops: Seq<Seq<char>>, escape: bool, no_newline: bool) -> Seq<u8> {
    let (words, stopped) = echo_words(ops, escape, true);
    if stopped || no_newline {
        words
    } else {
        words + seq![0x0au8]
    }
}

/// The operands start after the program name and no later than the end of the
/// argument list.
pub proof fn lemma_echo_scan_bounds(args: Seq<Seq<char>>, i: nat, nn: bool, esc: bool)
    requires
        1 <= i <= args.len(),
    ensures
        i <= echo_scan(args, i, nn, esc).0 <= args.len(),
    decreases args.len() - i,
{
    if i < args.len() {
        let a = args[i as int];
        if a.len() >= 2 && a[0] == '-' {
            if let Some((n2, e2)) = echo_letters(a.drop_first(), nn, esc) {
                lemma_echo_scan_bounds(args, i + 1, n2, e2);
            }
        }
    }
}

/// The operands joined by single spaces.
pub open spec fn joined(ops: Seq<Seq<char>>, first: bool) -> Seq<char>
    decreases ops.len(),
{
    if ops.len() == 0 {
        Seq::empty()
    } else {
        (if first { Seq::<char>::empty() } else { seq![' '] }) + ops[0] + joined(
            ops.drop_first(),
            false,
        )
    }
}

/// Without `-e` `echo` writes its operands as they are, joined by single spaces,
/// and then a newline unless `-n` was given.
pub proof fn lemma_plain_echo(ops: Seq<Seq<char>>, no_newline: bool)
    ensures
        echo_text(ops, false, no_newline) == if no_newline {
            encode_utf8(joined(ops, true))
        } else {
            encode_utf8(joined(ops, true)) + seq![0x0au8]
        },
{
    lemma_plain_words(ops, true);
}

proof fn lemma_plain_words(ops: Seq<Seq<char>>, first: bool)
    ensures
        echo_words(ops, false, first) == (encode_utf8(joined(ops, first)), false),
    decreases ops.len(),
{
    if ops.len() > 0 {
        lemma_plain_words(ops.drop_first(), false);
        let sep = if first { Seq::<char>::empty() } else { seq![' '] };
        lemma_encode_utf8_concat(sep + ops[0], joined(ops.drop_first(), false));
        lemma_encode_utf8_concat(sep, ops[0]);
        if first {
            assert(encode_utf8(sep) =~= Seq::<u8>::empty());
            assert(Seq::<u8>::empty() + encode_utf8(ops[0]) =~= encode_utf8(ops[0]));
        } else {
            lemma_encode_utf8_single(' ');
            assert(' ' as u32 == 0x20u32);
            assert(0x20u32 & 0x7f == 0x20u32) by (bit_vector);
            assert(encode_scalar(' ' as u32) =~= seq![0x20u8]);
        }
    } else {
        assert(encode_utf8(Seq::<char>::empty()) =~= Seq::<u8>::empty());
    }
}

/// Reads `echo`'s options from `args`, whose first element is the program name.
pub fn echo_options(args: &Vec<String>) -> (o: EchoOptions)
    ensures
        (o.first_operand as nat, o.no_newline, o.escape) == echo_scan(string_views(args@), 1, false, false),
{
    let ghost views = string_views(args@);
    let n = args.len();
    let mut no_newline = false;
    let mut escape = false;
    let mut i: usize = 1;
    if n == 0 {
        return EchoOptions { first_operand: 1, no_newline, escape };
    }
    let mut done = false;
    while i < n && !done
        invariant
            n == args@.len(),
            1 <= i <= n,
            views == string_views(args@),
            !done ==> echo_scan(views, 1, false, false) == echo_scan(
                views,
                i as nat,
                no_newline,
                escape,
            ),
            done ==> echo_scan(views, 1, false, false) == (i as nat, no_newline, escape),
        decreases n - i + (if done { 0int } else { 1int }),
    {
        let arg = crate::text::chars_of(args[i].as_str());
        assert(arg@ == views[i as int]);
        let len = arg.len();
        if len < 2 || arg[0] != '-' {
            done = true;
        } else {
            let ghost letters = arg@.drop_first();
            let ghost nn0 = no_newline;
            let ghost esc0 = escape;
            let mut valid = true;
            let mut j: usize = 1;
            assert(letters.skip(0) =~= letters);
            while j < len && valid
                invariant
                    len == arg@.len(),
                    1 <= j <= len,
                    letters == arg@.drop_first(),
                    valid ==> echo_letters(letters, nn0, esc0) == echo_letters(
                        letters.skip(j - 1),
                        no_newline,
                        escape,
                    ),
                    !valid ==> echo_letters(letters, nn0, esc0) is None && !no_newline && !escape,
                decreases len - j,
            {
                let ch = arg[j];
                assert(letters.skip(j - 1)[0] == ch);
                assert(letters.skip(j - 1).drop_first() =~= letters.skip(j as int));
                if ch == 'E' {
                    escape = false;
                } else if ch == 'e' {
                    escape = true;
                } else if ch == 'n' {
                    no_newline = true;
                } else {
                    no_newline = false;
                    escape = false;
                    valid = false;
                }
                j += 1;
            }
            if valid {
                assert(letters.skip(len - 1) =~= Seq::<char>::empty());
                i += 1;
            } else {
                done = true;
            }
        }
    }
    EchoOptions { first_operand: i, no_newline, escape }
}

/// The bytes `echo` writes for `operands`; see [`echo_text`].
pub fn echo_output(operands: &[String], escape: bool, no_newline: bool) -> (out: Vec<u8>)
    ensures
        out@ == echo_text(string_views(operands@), escape, no_newline),
{
    let ghost ops = string_views(operands@);
    let n = operands.len();
    let mut out: Vec<u8> = Vec::new();
    let mut i: usize = 0;
    assert(ops.skip(0) =~= ops);
    while i < n
        invariant
            n == operands@.len(),
            ops == string_views(operands@),
            i <= n,
            echo_words(ops, escape, true).0 == out@ + echo_words(ops.skip(i as int), escape, i == 0).0,
            echo_words(ops, escape, true).1 == echo_words(ops.skip(i as int), escape, i == 0).1,
        decreases n - i,
    {
        let ghost rest = ops.skip(i as int);
        let ghost before = out@;
        assert(rest[0] == operands@[i as int]@);
        assert(rest.drop_first() =~= ops.skip(i + 1));
        if i > 0 {
            out.push(0x20);
        }
        let ghost sep = if i == 0 { Seq::<u8>::empty() } else { seq![0x20u8] };
        assert(out@ =~= before + sep);
        if escape {
            let r = write_escaped(&mut out, operands[i].as_str());
            let complete = match r {
                Ok(c) => c,
                Err(_) => true,
            };
            if !complete {
                assert(echo_words(rest, escape, i == 0) == (sep + encode_utf8(unescape_chars(rest[0]).0), true));
                assert(out@ =~= before + (sep + encode_utf8(unescape_chars(rest[0]).0)));
                return out;
            }
        } else {
            push_str_bytes(&mut out, operands[i].as_str());
        }
        let ghost word = if escape { encode_utf8(unescape_chars(rest[0]).0) } else { encode_utf8(rest[0]) };
        let ghost tail = echo_words(ops.skip(i + 1), escape, false);
        assert(echo_words(rest, escape, i == 0) == (sep + word + tail.0, tail.1));
        assert(out@ =~= before + sep + word);
        assert(before + (sep + word + tail.0) =~= out@ + tail.0);
        i += 1;
    }
    if !no_newline {
        out.push(0x0a);
    }
    out
}

/// `-n` alone decides the final newline: with `-n` (with or without `-e`) the
/// output is exactly the operands' words, with no newline added; without `-n` it
/// is the same bytes followed by one newline, unless a `\c` stopped the output.
pub proof fn lemma_newline_only_from_n(ops: Seq<Seq<char>>, escape: bool)
    ensures
        echo_text(ops, escape, true) == echo_words(ops, escape, true).0,
        !echo_words(ops, escape, true).1 ==> echo_text(ops, escape, false) == echo_text(
            ops,
            escape,
            true,
        ).push(0x0au8),
        echo_words(ops, escape, true).1 ==> echo_text(ops, escape, false) == echo_text(
            ops,
            escape,
            true,
        ),
{
    assert(echo_words(ops, escape, true).0 + seq![0x0au8] =~= echo_words(ops, escape, true).0.push(
        0x0au8,
    ));
}

proof fn lemma_escape_words_plain(ops: Seq<Seq<char>>, first: bool)
    requires
        forall|i: int| 0 <= i < ops.len() ==> !(#[trigger] ops[i]).contains('\\'),
    ensures
        echo_words(ops, true, first) == echo_words(ops, false, first),
    decreases ops.len(),
{
    if ops.len() > 0 {
        lemma_plain_text_unchanged(ops[0]);
        assert forall|i: int| 0 <= i < ops.drop_first().len() implies !(
        #[trigger] ops.drop_first()[i]).contains('\\') by {
            assert(ops.drop_first()[i] == ops[i + 1]);
        }
        lemma_escape_words_plain(ops.drop_first(), false);
    }
}

/// On operands without a backslash, `-e` changes nothing: `echo` writes the same
/// bytes with and without it, with `-n` as without.
pub proof fn lemma_escape_needs_backslash(ops: Seq<Seq<char>>, no_newline: bool)
    requires
        forall|i: int| 0 <= i < ops.len() ==> !(#[trigger] ops[i]).contains('\\'),
    ensures
        echo_text(ops, true, no_newline) == echo_text(ops, false, no_newline),
{
    lemma_escape_words_plain(ops, true);
}

/// The option letters: each must be `n`, `e` or `E`; `n` turns on "no newline" for
/// good (`E` and `e` never undo it, and nothing else turns it on), and the escape
/// setting that results does not depend on the newline setting.
pub proof fn lemma_option_letters(letters: Seq<char>, no_newline: bool, escape: bool)
    ensures
        echo_letters(letters, no_newline, escape) is Some <==> (forall|i: int|
            0 <= i < letters.len() ==> #[trigger] letters[i] == 'n' || letters[i] == 'e'
                || letters[i] == 'E'),
        echo_letters(letters, no_newline, escape) matches Some((nn, esc)) ==> nn == (no_newline
            || letters.contains('n')),
        echo_letters(letters, no_newline, escape) matches Some((nn, esc)) ==> echo_letters(
            letters,
            !no_newline,
            escape,
        ) matches Some((nn2, esc2)) && esc2 == esc,
    decreases letters.len(),
{
    if letters.len() > 0 {
        let d = letters.drop_first();
        let c = letters[0];
        let e2 = if c == 'e' {
            true
        } else if c == 'E' {
            false
        } else {
            escape
        };
        let n2 = no_newline || c == 'n';
        lemma_option_letters(d, n2, e2);
        lemma_option_letters(d, !no_newline || c == 'n', e2);
        assert forall|i: int| 0 <= i < d.len() implies d[i] == letters[i + 1] by {}
        let valid = forall|i: int|
            0 <= i < letters.len() ==> #[trigger] letters[i] == 'n' || letters[i] == 'e'
                || letters[i] == 'E';
        let dvalid = forall|i: int|
            0 <= i < d.len() ==> #[trigger] d[i] == 'n' || d[i] == 'e' || d[i] == 'E';
        if valid {
            assert forall|i: int| 0 <= i < d.len() implies #[trigger] d[i] == 'n' || d[i] == 'e'
                || d[i] == 'E' by {
                assert(d[i] == letters[i + 1]);
            }
        }
        if dvalid && (c == 'n' || c == 'e' || c == 'E') {
            assert forall|i: int| 0 <= i < letters.len() implies #[trigger] letters[i] == 'n'
                || letters[i] == 'e' || letters[i] == 'E' by {
                if i > 0 {
                    assert(letters[i] == d[i - 1]);
                }
            }
        }
        assert(letters.contains('n') == (c == 'n' || d.contains('n'))) by {
            if letters.contains('n') && c != 'n' {
                let w = choose|w: int| 0 <= w < letters.len() && letters[w] == 'n';
                assert(d[w - 1] == 'n');
            }
            if d.contains('n') {
                let w = choose|w: int| 0 <= w < d.len() && d[w] == 'n';
                assert(letters[w + 1] == 'n');
            }
            if c == 'n' {
                assert(letters[0] == 'n');
            }
        }
    }
}

/// Whether the argument `a` looks like an option word: `-` and at least one more
/// character.
pub open spec fn dash_word(a: Seq<char>) -> bool {
    a.len() >= 2 && a[0] == '-'
}

/// The option scan in terms of its words: "no newline" ends up on exactly when it
/// was on before or one of the option words taken holds an `n`, except that an
/// option word with an unknown letter, which ends the scan, turns both settings
/// off.
pub proof fn lemma_scan_no_newline(args: Seq<Seq<char>>, i: nat, nn: bool, esc: bool)
    ensures
        echo_scan(args, i, nn, esc).0 >= i,
        ({
            let (k, nn2, esc2) = echo_scan(args, i, nn, esc);
            &&& (k < args.len() && dash_word(args[k as int])) ==> !nn2 && !esc2
            &&& !(k < args.len() && dash_word(args[k as int])) ==> nn2 == (nn || exists|j: int|
                i <= j < k && (#[trigger] args[j]).contains('n'))
        }),
    decreases args.len() - i,
{
    if i < args.len() {
        let a = args[i as int];
        if a.len() >= 2 && a[0] == '-' {
            lemma_option_letters(a.drop_first(), nn, esc);
            if let Some((n2, e2)) = echo_letters(a.drop_first(), nn, esc) {
                lemma_scan_no_newline(args, i + 1, n2, e2);
                let (k, nn3, esc3) = echo_scan(args, i + 1, n2, e2);
                assert(a.contains('n') == a.drop_first().contains('n')) by {
                    if a.contains('n') {
                        let w = choose|w: int| 0 <= w < a.len() && a[w] == 'n';
                        assert(w > 0);
                        assert(a.drop_first()[w - 1] == 'n');
                    }
                    if a.drop_first().contains('n') {
                        let w = choose|w: int| 0 <= w < a.drop_first().len() && a.drop_first()[w] == 'n';
                        assert(a[w + 1] == 'n');
                    }
                }
                if !(k < args.len() && dash_word(args[k as int])) {
                    if nn3 {
                        if !n2 {
                            let j = choose|j: int| i + 1 <= j < k && (#[trigger] args[j]).contains('n');
                            assert(i <= j < k && args[j].contains('n'));
                        } else if !nn {
                            assert(args[i as int].contains('n'));
                        }
                    } else {
                        assert(!a.contains('n'));
                        assert forall|j: int| i <= j < k implies !(#[trigger] args[j]).contains('n') by {
                            if j > i {
                                assert(!(exists|j2: int| i + 1 <= j2 < k && (#[trigger] args[j2]).contains('n')));
                            }
                        }
                    }
                }
            }
        }
    }
}

/// Once a `\c` has stopped `echo`, later operands are never written: adding
/// operands after a stopped list changes nothing.
pub proof fn lemma_stop_ignores_later_operands(ops: Seq<Seq<char>>, more: Seq<Seq<char>>, escape: bool, first: bool)
    requires
        echo_words(ops, escape, first).1,
    ensures
        echo_words(ops + more, escape, first) == echo_words(ops, escape, first),
    decreases ops.len(),
{
    let all = ops + more;
    assert(all[0] == ops[0]);
    if !(escape && !unescape_chars(ops[0]).1) {
        assert(all.drop_first() =~= ops.drop_first() + more);
        lemma_stop_ignores_later_operands(ops.drop_first(), more, escape, false);
    }
}

/// Reading option letters one more at a time: the letters so far decide the
/// settings, and the next letter then acts on them alone.
pub proof fn lemma_letters_push(letters: Seq<char>, c: char, no_newline: bool, escape: bool)
    ensures
        echo_letters(letters.push(c), no_newline, escape) == match echo_letters(
            letters,
            no_newline,
            escape,
        ) {
            Some((nn, esc)) => echo_letters(seq![c], nn, esc),
            None => None,
        },
    decreases letters.len(),
{
    let lp = letters.push(c);
    if letters.len() == 0 {
        assert(lp =~= seq![c]);
    } else {
        assert(lp[0] == letters[0]);
        assert(lp.drop_first() =~= letters.drop_first().push(c));
        let c0 = letters[0];
        if c0 == 'E' {
            lemma_letters_push(letters.drop_first(), c, no_newline, false);
        } else if c0 == 'e' {
            lemma_letters_push(letters.drop_first(), c, no_newline, true);
        } else if c0 == 'n' {
            lemma_letters_push(letters.drop_first(), c, true, escape);
        }
    }
}

/// The last of the letters `e` and `E` decides the escape setting: a word of
/// option letters ending in `e` turns escapes on, one ending in `E` turns them off,
/// and a final `n` leaves the setting as the letters before it made it.
pub proof fn lemma_last_escape_letter_wins(letters: Seq<char>, no_newline: bool, escape: bool)
    requires
        echo_letters(letters, no_newline, escape) is Some,
    ensures
        echo_letters(letters.push('e'), no_newline, escape) matches Some((_, esc)) && esc,
        echo_letters(letters.push('E'), no_newline, escape) matches Some((_, esc)) && !esc,
        echo_letters(letters, no_newline, escape) matches Some((_, before)) ==> (echo_letters(
            letters.push('n'),
            no_newline,
            escape,
        ) matches Some((_, esc)) && esc == before),
{
    lemma_letters_push(letters, 'e', no_newline, escape);
    lemma_letters_push(letters, 'E', no_newline, escape);
    lemma_letters_push(letters, 'n', no_newline, escape);
    let (nn, esc) = echo_letters(letters, no_newline, escape).unwrap();
    assert(seq!['e'].drop_first() =~= Seq::<char>::empty());
    assert(seq!['E'].drop_first() =~= Seq::<char>::empty());
    assert(seq!['n'].drop_first() =~= Seq::<char>::empty());
    assert(seq!['e'][0] == 'e' && seq!['E'][0] == 'E' && 'e' != 'E');
    assert(echo_letters(Seq::<char>::empty(), nn, true) == Some((nn, true)));
    assert(echo_letters(Seq::<char>::empty(), nn, false) == Some((nn, false)));
    assert(echo_letters(seq!['e'], nn, esc) == Some((nn, true)));
    assert(echo_letters(seq!['E'], nn, esc) == Some((nn, false)));
    assert(seq!['n'][0] == 'n' && 'n' != 'E' && 'n' != 'e');
    assert(echo_letters(Seq::<char>::empty(), true, esc) == Some((true, esc)));
    assert(echo_letters(seq!['n'], nn, esc) == Some((true, esc)));
}

} // verus!
