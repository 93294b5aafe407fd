use vstd::prelude::*;

use crate::flags::Parsed;
use crate::vis::{vis_ascii, vis_bytes};

verus! {

/// The options of `cat` that change what is written.
#[derive(Clone, Copy)]
pub struct CookFlags {
    /// `-b`: number only the lines that are not blank.
    pub number_nonblank: bool,
    /// `-e`: show a `$` at the end of every line.
    pub show_ends: bool,
    /// `-n`: number the lines.
    pub number: bool,
    /// `-s`: squeeze runs of blank lines into one.
    pub squeeze: bool,
    /// `-t`: show tabs as `^I`.
    pub show_tabs: bool,
    /// `-v`: show non-printing bytes visibly.
    pub visible: bool,
}

/// What `cat` remembers from one byte to the next while it cooks a file.
#[derive(Clone, Copy)]
pub struct CookState {
    /// The number of the last numbered line.
    pub line: u64,
    /// A blank line has just been written, so further blank lines are dropped (`-s`).
    pub gobble: bool,
    /// The last byte handled (after `-v` stripped its high bit).
    pub prev: u8,
}

/// The decimal digits of `n`, as ASCII bytes.
pub open spec fn decimal(n: nat) -> Seq<u8>
    decreases n,
{
    if n < 10 {
        seq![(0x30 + n) as u8]
    } else {
        decimal(n / 10) + seq![(0x30 + n % 10) as u8]
    }
}

/// `n` right-aligned in six columns, as `{:6}` formats it, then a tab.
pub open spec fn line_number(n: nat) -> Seq<u8> {
    let d = decimal(n);
    if d.len() < 6 {
        Seq::new((6 - d.len()) as nat, |i: int| 0x20u8) + d + seq![0x09u8]
    } else {
        d + seq![0x09u8]
    }
}

/// Six spaces and a tab: the number column of an unnumbered blank line under `-b -e`.
pub open spec fn blank_number() -> Seq<u8> {
    Seq::new(6, |i: int| 0x20u8) + seq![0x09u8]
}

/// How `cat` writes one byte once the line number (if any) is out, and the byte it
/// remembers.
pub open spec fn render(f: CookFlags, ch: u8) -> (u8, Seq<u8>) {
    if ch == 0x0a {
        (ch, if f.show_ends { seq![0x24u8, 0x0au8] } else { seq![0x0au8] })
    } else if ch == 0x09 {
        (ch, if f.show_tabs { seq![0x5eu8, 0x49u8] } else { seq![0x09u8] })
    } else if f.visible {
        let c = if ch >= 0x80 { (ch - 0x80) as u8 } else { ch };
        let meta = if ch >= 0x80 { seq![0x4du8, 0x2du8] } else { Seq::<u8>::empty() };
        if c < 0x20 {
            (c, meta + seq![0x5eu8, (c + 0x40) as u8])
        } else if c == 0x7f {
            (c, meta + seq![0x5eu8, 0x3fu8])
        } else {
            (c, meta + seq![c])
        }
    } else {
        (ch, seq![ch])
    }
}

/// At the start of a line under `-s`, a blank line that follows a blank line is dropped.
pub open spec fn drops_blank(f: CookFlags, st: CookState, ch: u8) -> bool {
    st.prev == 0x0a && f.squeeze && ch == 0x0a && st.gobble
}

/// At the start of a line: the new line count, the new `-s` memory and the line
/// number column written. `-n` writes the next line number (under `-b` only before
/// a non-blank line, and six blanks before a blank one if `-e` is also given).
pub open spec fn line_start(f: CookFlags, st: CookState, ch: u8) -> (u64, bool, Seq<u8>) {
    let at_start = st.prev == 0x0a;
    let gobble = if at_start && f.squeeze {
        ch == 0x0a
    } else {
        st.gobble
    };
    let numbered = at_start && f.number && (!f.number_nonblank || ch != 0x0a);
    let line = if numbered {
        (st.line + 1) as u64
    } else {
        st.line
    };
    let prefix = if numbered {
        line_number((st.line + 1) as nat)
    } else if at_start && f.number && f.show_ends {
        blank_number()
    } else {
        Seq::empty()
    };
    (line, gobble, prefix)
}

/// `cat`'s handling of one byte: the new state and the bytes written.
pub open spec fn cook_step(f: CookFlags, st: CookState, ch: u8) -> (CookState, Seq<u8>) {
    if drops_blank(f, st, ch) {
        (CookState { line: st.line, gobble: st.gobble, prev: ch }, Seq::empty())
    } else {
        let (line, gobble, prefix) = line_start(f, st, ch);
        let (prev, body) = render(f, ch);
        (CookState { line, gobble, prev }, prefix + body)
    }
}

/// `cat`'s handling of the bytes `bs`, one after the other, from the state `st`.
pub open spec fn cook_all(f: CookFlags, st: CookState, bs: Seq<u8>) -> (CookState, Seq<u8>)
    decreases bs.len(),
{
    if bs.len() == 0 {
        (st, Seq::empty())
    } else {
        let (s1, o1) = cook_all(f, st, bs.drop_last());
        let (s2, o2) = cook_step(f, s1, bs.last());
        (s2, o1 + o2)
    }
}

/// Cooking `a` and then `b` from where `a` left off gives the same state and output
/// as cooking `a + b` at once: a file may be cooked in chunks of any size.
pub proof fn lemma_cook_chunks(f: CookFlags, st: CookState, a: Seq<u8>, b: Seq<u8>)
    ensures
        cook_all(f, st, a + b) == ({
            let (s1, o1) = cook_all(f, st, a);
            let (s2, o2) = cook_all(f, s1, b);
            (s2, o1 + o2)
        }),
    decreases b.len(),
{
    if b.len() == 0 {
        assert(a + b =~= a);
        let o1 = cook_all(f, st, a).1;
        assert(o1 + Seq::<u8>::empty() =~= o1);
    } else {
        assert((a + b).drop_last() =~= a + b.drop_last());
        assert((a + b).last() == b.last());
        lemma_cook_chunks(f, st, a, b.drop_last());
        let (s1, o1) = cook_all(f, st, a);
        let (m, om) = cook_all(f, s1, b.drop_last());
        let (s2, o2) = cook_step(f, m, b.last());
        assert(o1 + om + o2 =~= o1 + (om + o2));
    }
}

/// Without options `cat` copies its input unchanged.
pub proof fn lemma_no_options_copies(f: CookFlags, st: CookState, bs: Seq<u8>)
    requires
        !f.number,
        !f.squeeze,
        !f.show_ends,
        !f.show_tabs,
        !f.visible,
    ensures
        cook_all(f, st, bs).1 == bs,
    decreases bs.len(),
{
    if bs.len() > 0 {
        lemma_no_options_copies(f, st, bs.drop_last());
        let s1 = cook_all(f, st, bs.drop_last()).0;
        let ch = bs.last();
        assert(cook_step(f, s1, ch).1 =~= seq![ch]);
        assert(bs.drop_last().push(ch) =~= bs);
    }
}

/// Under `-v` (also implied by `-e` and `-t`) every byte other than newline and
/// tab is shown exactly as `vis(3)` shows it.
pub proof fn lemma_visible_is_vis(f: CookFlags, ch: u8)
    requires
        f.visible,
        ch != 0x0a,
        ch != 0x09,
    ensures
        render(f, ch).1 == vis_bytes(ch),
{
    if ch >= 0x80 {
        let c = (ch - 0x80) as u8;
        if c < 0x20 {
            assert(render(f, ch).1 =~= seq![0x4du8, 0x2du8] + seq![0x5eu8, (c + 0x40) as u8]);
        } else if c == 0x7f {
            assert(render(f, ch).1 =~= seq![0x4du8, 0x2du8] + seq![0x5eu8, 0x3fu8]);
        } else {
            assert(render(f, ch).1 =~= seq![0x4du8, 0x2du8] + seq![c]);
        }
    } else {
        assert(render(f, ch).1 =~= Seq::<u8>::empty() + vis_ascii(ch));
    }
}

/// No three newlines in a row.
pub open spec fn no_double_blank(w: Seq<u8>) -> bool {
    forall|i: int| 0 <= i < w.len() - 2 ==> !(#[trigger] w[i] == 0x0a && w[i + 1] == 0x0a && w[i + 2]
        == 0x0a)
}

spec fn ends_blank(w: Seq<u8>) -> bool {
    w.len() >= 2 && w[w.len() - 1] == 0x0a && w[w.len() - 2] == 0x0a
}

proof fn lemma_squeeze_invariant(f: CookFlags, bs: Seq<u8>)
    requires
        f.squeeze,
        !f.number,
        !f.show_ends,
        !f.show_tabs,
        !f.visible,
    ensures
        ({
            let (st, out) = cook_all(f, CookState { line: 0, gobble: false, prev: 0x0a }, bs);
            let w = seq![0x0au8] + out;
            &&& st.prev == w.last()
            &&& st.gobble == ends_blank(w)
            &&& no_double_blank(w)
        }),
    decreases bs.len(),
{
    let st0 = CookState { line: 0, gobble: false, prev: 0x0a };
    if bs.len() == 0 {
        assert(seq![0x0au8] + Seq::<u8>::empty() =~= seq![0x0au8]);
    } else {
        lemma_squeeze_invariant(f, bs.drop_last());
        let (s1, o1) = cook_all(f, st0, bs.drop_last());
        let w1 = seq![0x0au8] + o1;
        let ch = bs.last();
        let (s2, o2) = cook_step(f, s1, ch);
        let w2 = seq![0x0au8] + (o1 + o2);
        if drops_blank(f, s1, ch) {
            assert(o2 =~= Seq::<u8>::empty());
            assert(w2 =~= w1);
        } else {
            assert(o2 =~= seq![ch]);
            assert(w2 =~= w1.push(ch));
            assert forall|i: int| 0 <= i < w2.len() - 2 implies !(#[trigger] w2[i] == 0x0a && w2[i
                + 1] == 0x0a && w2[i + 2] == 0x0a) by {
                if i < w1.len() - 2 {
                    assert(w2[i] == w1[i] && w2[i + 1] == w1[i + 1] && w2[i + 2] == w1[i + 2]);
                } else {
                    assert(w2[i] == w1[w1.len() - 2]);
                    assert(w2[i + 1] == w1[w1.len() - 1]);
                }
            }
        }
    }
}

/// Under `-s` with no other option, the output (read as following the end of a
/// line) never holds two blank lines in a row: no three newlines follow each other,
/// and the output does not start with two newlines.
pub proof fn lemma_squeeze_no_double_blank(f: CookFlags, bs: Seq<u8>)
    requires
        f.squeeze,
        !f.number,
        !f.show_ends,
        !f.show_tabs,
        !f.visible,
    ensures
        no_double_blank(seq![0x0au8] + cook_all(f, CookState { line: 0, gobble: false, prev: 0x0a }, bs).1),
{
    lemma_squeeze_invariant(f, bs);
}

/// `w` with every newline that follows two newlines removed: each run of three or
/// more newlines becomes two.
pub open spec fn collapse_blank_runs(w: Seq<u8>) -> Seq<u8>
    decreases w.len(),
{
    if w.len() == 0 {
        Seq::empty()
    } else {
        let c = collapse_blank_runs(w.drop_last());
        if w.len() >= 3 && w[w.len() - 1] == 0x0a && w[w.len() - 2] == 0x0a && w[w.len() - 3]
            == 0x0a {
            c
        } else {
            c.push(w.last())
        }
    }
}

proof fn lemma_squeeze_collapse_invariant(f: CookFlags, bs: Seq<u8>)
    requires
        f.squeeze,
        !f.number,
        !f.show_ends,
        !f.show_tabs,
        !f.visible,
    ensures
        ({
            let (st, out) = cook_all(f, CookState { line: 0, gobble: false, prev: 0x0a }, bs);
            let w = seq![0x0au8] + bs;
            &&& st.prev == w.last()
            &&& st.gobble == ends_blank(w)
            &&& seq![0x0au8] + out == collapse_blank_runs(w)
        }),
    decreases bs.len(),
{
    let st0 = CookState { line: 0, gobble: false, prev: 0x0a };
    if bs.len() == 0 {
        assert(seq![0x0au8] + bs =~= seq![0x0au8]);
        assert(seq![0x0au8].drop_last() =~= Seq::<u8>::empty());
        assert(seq![0x0au8] + Seq::<u8>::empty() =~= seq![0x0au8]);
        assert(collapse_blank_runs(Seq::<u8>::empty()) =~= Seq::<u8>::empty());
        assert(collapse_blank_runs(seq![0x0au8]) == collapse_blank_runs(seq![0x0au8].drop_last()).push(
            0x0au8,
        ));
        assert(collapse_blank_runs(seq![0x0au8]) =~= Seq::<u8>::empty().push(0x0au8));
    } else {
        lemma_squeeze_collapse_invariant(f, bs.drop_last());
        let w1 = seq![0x0au8] + bs.drop_last();
        let w = seq![0x0au8] + bs;
        assert(w.drop_last() =~= w1);
        assert(w.last() == bs.last());
        assert(w.len() >= 2 ==> w[w.len() - 2] == w1.last());
        assert(w.len() >= 3 ==> w[w.len() - 3] == w1[w1.len() - 2]);
        let (s1, o1) = cook_all(f, st0, bs.drop_last());
        let ch = bs.last();
        let (s2, o2) = cook_step(f, s1, ch);
        if drops_blank(f, s1, ch) {
            assert(o2 =~= Seq::<u8>::empty());
            assert(seq![0x0au8] + (o1 + o2) =~= seq![0x0au8] + o1);
        } else {
            assert(o2 =~= seq![ch]);
            assert(seq![0x0au8] + (o1 + o2) =~= (seq![0x0au8] + o1).push(ch));
        }
    }
}

/// Under `-s` with no other option, every run of blank lines becomes a single blank
/// line: reading the input and the output as following the end of a line, each run
/// of three or more newlines becomes two, and nothing else changes.
pub proof fn lemma_squeeze_collapses_blank_runs(f: CookFlags, bs: Seq<u8>)
    requires
        f.squeeze,
        !f.number,
        !f.show_ends,
        !f.show_tabs,
        !f.visible,
    ensures
        seq![0x0au8] + cook_all(f, CookState { line: 0, gobble: false, prev: 0x0a }, bs).1
            == collapse_blank_runs(seq![0x0au8] + bs),
{
    lemma_squeeze_collapse_invariant(f, bs);
}

/// The lines of `bs`: pieces that end in a newline, and a last piece without one
/// when the input does not end in a newline.
pub open spec fn lines(bs: Seq<u8>) -> Seq<Seq<u8>>
    decreases bs.len(),
{
    if bs.len() == 0 {
        Seq::empty()
    } else {
        let ls = lines(bs.drop_last());
        if ls.len() > 0 && ls.last().last() != 0x0a {
            ls.drop_last().push(ls.last().push(bs.last()))
        } else {
            ls.push(seq![bs.last()])
        }
    }
}

/// The lines `ls`, each preceded by its number (from 1) as `-n` writes it.
pub open spec fn numbered(ls: Seq<Seq<u8>>) -> Seq<u8>
    decreases ls.len(),
{
    if ls.len() == 0 {
        Seq::empty()
    } else {
        numbered(ls.drop_last()) + line_number(ls.len()) + ls.last()
    }
}

proof fn lemma_lines_nonempty(bs: Seq<u8>)
    ensures
        forall|i: int| 0 <= i < lines(bs).len() ==> (#[trigger] lines(bs)[i]).len() > 0,
        lines(bs).len() <= bs.len(),
        bs.len() > 0 ==> lines(bs).len() > 0 && lines(bs).last().last() == bs.last(),
    decreases bs.len(),
{
    if bs.len() > 0 {
        lemma_lines_nonempty(bs.drop_last());
        let ls = lines(bs.drop_last());
        if ls.len() > 0 && ls.last().last() != 0x0a {
            let n = ls.drop_last().push(ls.last().push(bs.last()));
            assert forall|i: int| 0 <= i < n.len() implies (#[trigger] n[i]).len() > 0 by {
                if i < n.len() - 1 {
                    assert(n[i] == ls[i]);
                }
            }
        } else {
            let n = ls.push(seq![bs.last()]);
            assert forall|i: int| 0 <= i < n.len() implies (#[trigger] n[i]).len() > 0 by {
                if i < n.len() - 1 {
                    assert(n[i] == ls[i]);
                }
            }
        }
    }
}

proof fn lemma_number_invariant(f: CookFlags, bs: Seq<u8>)
    requires
        f.number,
        !f.number_nonblank,
        !f.squeeze,
        !f.show_ends,
        !f.show_tabs,
        !f.visible,
        lines(bs).len() <= u64::MAX,
    ensures
        ({
            let (st, out) = cook_all(f, CookState { line: 0, gobble: false, prev: 0x0a }, bs);
            &&& st.line == lines(bs).len()
            &&& st.prev == (if bs.len() == 0 { 0x0au8 } else { bs.last() })
            &&& out == numbered(lines(bs))
        }),
    decreases bs.len(),
{
    let st0 = CookState { line: 0, gobble: false, prev: 0x0a };
    if bs.len() > 0 {
        assert(lines(bs.drop_last()).len() <= lines(bs).len());
        lemma_number_invariant(f, bs.drop_last());
        lemma_lines_nonempty(bs.drop_last());
        let ls = lines(bs.drop_last());
        let (s1, o1) = cook_all(f, st0, bs.drop_last());
        let ch = bs.last();
        let (s2, o2) = cook_step(f, s1, ch);
        assert(render(f, ch).1 =~= seq![ch]);
        if ls.len() > 0 && ls.last().last() != 0x0a {
            let nl = ls.drop_last().push(ls.last().push(ch));
            assert(s1.prev != 0x0a);
            assert(o2 =~= seq![ch]);
            assert(nl.drop_last() =~= ls.drop_last());
            assert(ls.drop_last().push(ls.last()) =~= ls);
            assert(numbered(ls) == numbered(ls.drop_last()) + line_number(ls.len()) + ls.last());
            assert(numbered(nl) == numbered(ls.drop_last()) + line_number(ls.len()) + ls.last().push(ch));
            assert(numbered(ls.drop_last()) + line_number(ls.len()) + ls.last().push(ch)
                =~= numbered(ls.drop_last()) + line_number(ls.len()) + ls.last() + seq![ch]);
        } else {
            let nl = ls.push(seq![ch]);
            assert(s1.prev == 0x0a);
            assert(nl.drop_last() =~= ls);
            assert(o2 =~= line_number(ls.len() + 1) + seq![ch]);
            assert(o1 + o2 =~= numbered(ls) + line_number(ls.len() + 1) + seq![ch]);
        }
    }
}

/// Under `-n` alone, `cat` numbers every line, blank ones included, consecutively
/// from 1, and changes nothing else: the output is each line of the input preceded
/// by its number. (The line counter is a `u64`: the law needs the number of lines
/// to fit in it.)
pub proof fn lemma_number_lines(f: CookFlags, bs: Seq<u8>)
    requires
        f.number,
        !f.number_nonblank,
        !f.squeeze,
        !f.show_ends,
        !f.show_tabs,
        !f.visible,
        lines(bs).len() <= u64::MAX,
    ensures
        cook_all(f, CookState { line: 0, gobble: false, prev: 0x0a }, bs).1 == numbered(lines(bs)),
{
    lemma_number_invariant(f, bs);
}

/// A tab is shown as `^I` only under `-t`; `-e` and `-v` leave it alone. Cooking
/// a tab writes the line number column (if any) and then `^I` under `-t`, the tab
/// itself otherwise, and neither the output nor the new state depends on `-e` or
/// `-v`.
pub proof fn lemma_tab_only_under_t(f: CookFlags, st: CookState, show_ends: bool, visible: bool)
    ensures
        render(f, 0x09) == (0x09u8, if f.show_tabs {
            seq![0x5eu8, 0x49u8]
        } else {
            seq![0x09u8]
        }),
        !f.show_tabs ==> cook_step(f, st, 0x09).1.last() == 0x09u8,
        f.show_tabs ==> cook_step(f, st, 0x09).1.last() == 0x49u8,
        cook_step(f, st, 0x09) == cook_step(
            CookFlags {
                number_nonblank: f.number_nonblank,
                show_ends: show_ends,
                number: f.number,
                squeeze: f.squeeze,
                show_tabs: f.show_tabs,
                visible: visible,
            },
            st,
            0x09,
        ),
{
}

/// Under `-n` without `-b`, every line start is numbered, whatever `-e`, `-t`, `-v`
/// and `-s` say: a byte cooked at the start of a line (and not dropped by `-s`) is
/// preceded by the next line number and advances the count by one; a byte inside
/// a line is written without a number and leaves the count alone.
pub proof fn lemma_every_line_numbered(f: CookFlags, st: CookState, ch: u8)
    requires
        f.number,
        !f.number_nonblank,
        !(f.squeeze && st.gobble && st.prev == 0x0a && ch == 0x0a),
        st.line < u64::MAX,
    ensures
        st.prev == 0x0a ==> cook_step(f, st, ch).0.line == st.line + 1 && cook_step(f, st, ch).1
            == line_number((st.line + 1) as nat) + render(f, ch).1,
        st.prev != 0x0a ==> cook_step(f, st, ch).0.line == st.line && cook_step(f, st, ch).1
            == render(f, ch).1,
{
    if st.prev != 0x0a {
        assert(Seq::<u8>::empty() + render(f, ch).1 =~= render(f, ch).1);
    }
}

/// Under `-b`, only lines that are not blank are numbered: at the start of a line a
/// blank line leaves the count alone and gets six blanks and a tab under `-e`
/// (nothing otherwise), while any other byte gets the next line number.
pub proof fn lemma_nonblank_numbering(f: CookFlags, st: CookState, ch: u8)
    requires
        f.number,
        f.number_nonblank,
        st.prev == 0x0a,
        !(f.squeeze && st.gobble && ch == 0x0a),
        st.line < u64::MAX,
    ensures
        ch == 0x0a ==> cook_step(f, st, ch).0.line == st.line && cook_step(f, st, ch).1 == (if f.show_ends {
            seq![0x20u8, 0x20u8, 0x20u8, 0x20u8, 0x20u8, 0x20u8, 0x09u8, 0x24u8, 0x0au8]
        } else {
            seq![0x0au8]
        }),
        ch != 0x0a ==> cook_step(f, st, ch).0.line == st.line + 1 && cook_step(f, st, ch).1
            == line_number((st.line + 1) as nat) + render(f, ch).1,
{
    if ch == 0x0a {
        if f.show_ends {
            assert(blank_number() + seq![0x24u8, 0x0au8] =~= seq![
                0x20u8,
                0x20u8,
                0x20u8,
                0x20u8,
                0x20u8,
                0x20u8,
                0x09u8,
                0x24u8,
                0x0au8,
            ]);
        } else {
            assert(Seq::<u8>::empty() + seq![0x0au8] =~= seq![0x0au8]);
        }
    }
}

/// A newline is shown as `$` and a newline under `-e`, as itself otherwise,
/// whatever the other options say, and it always ends the line.
pub proof fn lemma_line_end_shown_under_e(f: CookFlags)
    ensures
        render(f, 0x0a) == (0x0au8, if f.show_ends {
            seq![0x24u8, 0x0au8]
        } else {
            seq![0x0au8]
        }),
{
}

/// The bytes that one line's content is written as.
pub open spec fn rendered(f: CookFlags, l: Seq<u8>) -> Seq<u8>
    decreases l.len(),
{
    if l.len() == 0 {
        Seq::empty()
    } else {
        rendered(f, l.drop_last()) + render(f, l.last()).1
    }
}

/// The lines `ls`, each preceded by its number (from 1) and written under `f`.
pub open spec fn numbered_with(f: CookFlags, ls: Seq<Seq<u8>>) -> Seq<u8>
    decreases ls.len(),
{
    if ls.len() == 0 {
        Seq::empty()
    } else {
        numbered_with(f, ls.drop_last()) + line_number(ls.len()) + rendered(f, ls.last())
    }
}

proof fn lemma_number_with_invariant(f: CookFlags, bs: Seq<u8>)
    requires
        f.number,
        !f.number_nonblank,
        !f.squeeze,
        !f.visible,
        lines(bs).len() <= u64::MAX,
    ensures
        ({
            let (st, out) = cook_all(f, CookState { line: 0, gobble: false, prev: 0x0a }, bs);
            &&& st.line == lines(bs).len()
            &&& st.prev == (if bs.len() == 0 { 0x0au8 } else { bs.last() })
            &&& out == numbered_with(f, lines(bs))
        }),
    decreases bs.len(),
{
    let st0 = CookState { line: 0, gobble: false, prev: 0x0a };
    if bs.len() > 0 {
        assert(lines(bs.drop_last()).len() <= lines(bs).len());
        lemma_number_with_invariant(f, bs.drop_last());
        lemma_lines_nonempty(bs.drop_last());
        let ls = lines(bs.drop_last());
        let (s1, o1) = cook_all(f, st0, bs.drop_last());
        let ch = bs.last();
        let (s2, o2) = cook_step(f, s1, ch);
        assert(render(f, ch).0 == ch);
        if ls.len() > 0 && ls.last().last() != 0x0a {
            let nl = ls.drop_last().push(ls.last().push(ch));
            assert(s1.prev != 0x0a);
            assert(o2 =~= render(f, ch).1);
            assert(nl.drop_last() =~= ls.drop_last());
            assert(ls.last().push(ch).drop_last() =~= ls.last());
            assert(rendered(f, ls.last().push(ch)) == rendered(f, ls.last()) + render(f, ch).1);
            assert(ls.drop_last().push(ls.last()) =~= ls);
            assert(numbered_with(f, ls) == numbered_with(f, ls.drop_last()) + line_number(ls.len())
                + rendered(f, ls.last()));
            assert(numbered_with(f, nl) == numbered_with(f, ls.drop_last()) + line_number(ls.len())
                + rendered(f, ls.last().push(ch)));
            assert(numbered_with(f, ls.drop_last()) + line_number(ls.len()) + (rendered(
                f,
                ls.last(),
            ) + render(f, ch).1) =~= numbered_with(f, ls.drop_last()) + line_number(ls.len())
                + rendered(f, ls.last()) + render(f, ch).1);
        } else {
            let nl = ls.push(seq![ch]);
            assert(s1.prev == 0x0a);
            assert(nl.drop_last() =~= ls);
            assert(seq![ch].drop_last() =~= Seq::<u8>::empty());
            assert(rendered(f, Seq::<u8>::empty()) =~= Seq::<u8>::empty());
            assert(seq![ch].last() == ch);
            assert(rendered(f, seq![ch]) == rendered(f, Seq::<u8>::empty()) + render(f, ch).1);
            assert(rendered(f, seq![ch]) =~= render(f, ch).1);
            assert(o2 =~= line_number(ls.len() + 1) + render(f, ch).1);
            assert(o1 + o2 =~= numbered_with(f, ls) + line_number(ls.len() + 1) + render(f, ch).1);
        }
    }
}

/// Under `-n` without `-b` (and without `-s` and `-v`), whatever `-e` and `-t` say,
/// every line, blank ones included, is numbered consecutively from 1: the output
/// is each line of the input preceded by its number and followed by nothing but
/// its own bytes as `-e` and `-t` show them. (The line counter is a `u64`: the law
/// needs the number of lines to fit in it.)
pub proof fn lemma_number_lines_shown(f: CookFlags, bs: Seq<u8>)
    requires
        f.number,
        !f.number_nonblank,
        !f.squeeze,
        !f.visible,
        lines(bs).len() <= u64::MAX,
    ensures
        cook_all(f, CookState { line: 0, gobble: false, prev: 0x0a }, bs).1 == numbered_with(
            f,
            lines(bs),
        ),
{
    lemma_number_with_invariant(f, bs);
}

proof fn lemma_cook_all_line(f: CookFlags, st: CookState, bs: Seq<u8>)
    requires
        st.line + bs.len() <= u64::MAX,
    ensures
        st.line <= cook_all(f, st, bs).0.line <= st.line + bs.len(),
    decreases bs.len(),
{
    if bs.len() > 0 {
        lemma_cook_all_line(f, st, bs.drop_last());
    }
}

/// Appends the decimal digits of `n` to `out`, right-aligned in six columns,
/// followed by a tab.
fn push_line_number(out: &mut Vec<u8>, n: u64)
    ensures
        final(out)@ == old(out)@ + line_number(n as nat),
{
    let mut digits: Vec<u8> = Vec::new();
    let mut m = n;
    while m >= 10
        invariant
            decimal(n as nat) == decimal(m as nat) + digits@,
        decreases m,
    {
        let ghost old_digits = digits@;
        digits.insert(0, (0x30 + m % 10) as u8);
        assert(decimal(m as nat) == decimal((m / 10) as nat) + seq![(0x30 + m % 10) as u8]);
        assert(decimal((m / 10) as nat) + seq![(0x30 + m % 10) as u8] + old_digits
            =~= decimal((m / 10) as nat) + digits@);
        m = m / 10;
    }
    digits.insert(0, (0x30 + m) as u8);
    assert(decimal(n as nat) =~= digits@);
    let len = digits.len();
    if len < 6 {
        let mut k: usize = 0;
        while k < 6 - len
            invariant
                len < 6,
                k <= 6 - len,
                out@ == old(out)@ + Seq::new(k as nat, |i: int| 0x20u8),
            decreases 6 - len - k,
        {
            out.push(0x20);
            k += 1;
            assert(out@ =~= old(out)@ + Seq::new(k as nat, |i: int| 0x20u8));
        }
    }
    let ghost before_digits = out@;
    let mut j: usize = 0;
    while j < len
        invariant
            len == digits@.len(),
            j <= len,
            out@ == before_digits + digits@.take(j as int),
        decreases len - j,
    {
        out.push(digits[j]);
        j += 1;
        assert(out@ =~= before_digits + digits@.take(j as int));
    }
    out.push(0x09);
    assert(digits@.take(len as int) =~= digits@);
    assert(out@ =~= old(out)@ + line_number(n as nat));
}

impl CookFlags {
    /// The options that the parsed flags `-b -e -n -s -t -v` select: `-b` implies
    /// `-n`, and `-e` and `-t` imply `-v`.
    pub fn from_parsed(parsed: &Parsed) -> (f: CookFlags)
        ensures
            f.number_nonblank == flag_set(parsed, 'b'),
            f.show_ends == flag_set(parsed, 'e'),
            f.number == (flag_set(parsed, 'n') || flag_set(parsed, 'b')),
            f.squeeze == flag_set(parsed, 's'),
            f.show_tabs == flag_set(parsed, 't'),
            f.visible == (flag_set(parsed, 'v') || flag_set(parsed, 'e') || flag_set(parsed, 't')),
    {
        let bflag = parsed.bool('b');
        let eflag = parsed.bool('e');
        let nflag = parsed.bool('n') || bflag;
        let sflag = parsed.bool('s');
        let tflag = parsed.bool('t');
        let vflag = parsed.bool('v') || eflag || tflag;
        CookFlags {
            number_nonblank: bflag,
            show_ends: eflag,
            number: nflag,
            squeeze: sflag,
            show_tabs: tflag,
            visible: vflag,
        }
    }

    /// Whether any option changes the bytes, so that the input must be cooked
    /// rather than copied.
    pub fn needs_cooking(&self) -> (b: bool)
        ensures
            b == (self.number_nonblank || self.show_ends || self.number || self.squeeze
                || self.show_tabs || self.visible),
    {
        self.number_nonblank || self.show_ends || self.number || self.squeeze || self.show_tabs
            || self.visible
    }
}

/// The value of the flag `c` in `parsed`, `false` when undefined.
pub open spec fn flag_set(parsed: &Parsed, c: char) -> bool {
    parsed.values().dom().contains(c) && parsed.values()[c]
}

impl CookState {
    /// The state at the start of a file: no line numbered yet, at the start of a line.
    pub fn new() -> (st: CookState)
        ensures
            st.line == 0,
            !st.gobble,
            st.prev == 0x0a,
    {
        CookState { line: 0, gobble: false, prev: 0x0a }
    }
}

/// Cooks the bytes of `input`, continuing from `state`, and appends what `cat`
/// writes for them to `out`.
pub fn cook_bytes(state: &mut CookState, flags: &CookFlags, input: &[u8], out: &mut Vec<u8>)
    requires
        old(state).line + input@.len() <= u64::MAX,
    ensures
        *final(state) == cook_all(*flags, *old(state), input@).0,
        final(out)@ == old(out)@ + cook_all(*flags, *old(state), input@).1,
{
    let n = input.len();
    let mut i: usize = 0;
    while i < n
        invariant
            n == input@.len(),
            i <= n,
            old(state).line + n <= u64::MAX,
            *state == cook_all(*flags, *old(state), input@.take(i as int)).0,
            out@ == old(out)@ + cook_all(*flags, *old(state), input@.take(i as int)).1,
        decreases n - i,
    {
        let ghost prefix = input@.take(i + 1);
        proof {
            assert(prefix.drop_last() =~= input@.take(i as int));
            lemma_cook_all_line(*flags, *old(state), input@.take(i as int));
        }
        cook_byte(state, flags, input[i], out);
        proof {
            assert(out@ =~= old(out)@ + cook_all(*flags, *old(state), prefix).1);
        }
        i += 1;
    }
    assert(input@.take(n as int) =~= input@);
}

/// `cat`'s handling of one byte; see [`cook_step`].
fn cook_byte(state: &mut CookState, flags: &CookFlags, byte: u8, out: &mut Vec<u8>)
    requires
        old(state).line < u64::MAX,
    ensures
        *final(state) == cook_step(*flags, *old(state), byte).0,
        final(out)@ == old(out)@ + cook_step(*flags, *old(state), byte).1,
{
    if state.prev == 0x0a && flags.squeeze && byte == 0x0a && state.gobble {
        state.prev = byte;
        assert(out@ =~= old(out)@ + Seq::<u8>::empty());
        return;
    }
    begin_line(state, flags, byte, out);
    let prev = render_byte(flags, byte, out);
    state.prev = prev;
    assert(out@ =~= old(out)@ + cook_step(*flags, *old(state), byte).1);
}

/// The line number column and `-s` memory at the start of a line; see [`line_start`].
fn begin_line(state: &mut CookState, flags: &CookFlags, ch: u8, out: &mut Vec<u8>)
    requires
        old(state).line < u64::MAX,
    ensures
        final(state).line == line_start(*flags, *old(state), ch).0,
        final(state).gobble == line_start(*flags, *old(state), ch).1,
        final(state).prev == old(state).prev,
        final(out)@ == old(out)@ + line_start(*flags, *old(state), ch).2,
{
    if state.prev == 0x0a {
        if flags.squeeze {
            state.gobble = ch == 0x0a;
        }
        if flags.number {
            if !flags.number_nonblank || ch != 0x0a {
                push_line_number(out, state.line + 1);
                state.line = state.line + 1;
                return;
            } else if flags.show_ends {
                let mut k: usize = 0;
                let ghost start = out@;
                while k < 6
                    invariant
                        k <= 6,
                        out@ == start + Seq::new(k as nat, |i: int| 0x20u8),
                    decreases 6 - k,
                {
                    out.push(0x20);
                    k += 1;
                    assert(out@ =~= start + Seq::new(k as nat, |i: int| 0x20u8));
                }
                out.push(0x09);
                assert(out@ =~= start + blank_number());
                return;
            }
        }
    }
    assert(out@ =~= old(out)@ + Seq::<u8>::empty());
}

/// Writes one byte as `cat` shows it and returns the byte to remember; see [`render`].
fn render_byte(flags: &CookFlags, byte: u8, out: &mut Vec<u8>) -> (prev: u8)
    ensures
        prev == render(*flags, byte).0,
        final(out)@ == old(out)@ + render(*flags, byte).1,
{
    let mut ch = byte;
    if ch == 0x0a {
        if flags.show_ends {
            out.push(0x24);
        }
    } else if ch == 0x09 {
        if flags.show_tabs {
            out.push(0x5e);
            out.push(0x49);
            assert(out@ =~= old(out)@ + render(*flags, byte).1);
            return ch;
        }
    } else if flags.visible {
        if ch >= 0x80 {
            out.push(0x4d);
            out.push(0x2d);
            assert(ch & 0x7f == ch - 0x80) by (bit_vector)
                requires
                    ch >= 0x80,
            ;
            ch = ch & 0x7f;
        }
        if ch < 0x20 || ch == 0x7f {
            let c = if ch == 0x7f {
                0x3f
            } else {
                ch | 0x40
            };
            assert(ch < 0x20 ==> ch | 0x40 == ch + 0x40) by (bit_vector);
            out.push(0x5e);
            out.push(c);
            assert(out@ =~= old(out)@ + render(*flags, byte).1);
            return ch;
        }
    }
    out.push(ch);
    assert(out@ =~= old(out)@ + render(*flags, byte).1);
    ch
}

} // verus!
