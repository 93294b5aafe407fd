use vstd::prelude::*;

use std::collections::HashMap;

use crate::text::chars_of;

verus! {

#[derive(Clone, Copy)]
enum FlagKind {
    Bool(bool),
}

#[derive(Clone, Copy)]
struct FlagDef {
    name: char,
    kind: FlagKind,
}

/// A parser for single-letter boolean flags (`-n`, bundled as `-ne`).
pub struct FlagParser {
    flags: Vec<FlagDef>,
}

/// The outcome of [`FlagParser::parse`]: the value of every defined flag and the
/// operands that followed the flags.
pub struct Parsed {
    /// The value of each defined flag, keyed by the code point of its letter.
    values: HashMap<u32, FlagKind>,
    args: Vec<String>,
}

spec fn kind_value(k: FlagKind) -> bool {
    match k {
        FlagKind::Bool(b) => b,
    }
}

spec fn def_view(d: FlagDef) -> (char, bool) {
    (d.name, kind_value(d.kind))
}

/// The flag values that a list of definitions gives: a later definition of a
/// name replaces an earlier one.
pub open spec fn defaults(defs: Seq<(char, bool)>) -> Map<char, bool>
    decreases defs.len(),
{
    if defs.len() == 0 {
        Map::empty()
    } else {
        defaults(defs.drop_last()).insert(defs.last().0, defs.last().1)
    }
}

/// `-`.
pub open spec fn is_single_dash(arg: Seq<char>) -> bool {
    arg.len() == 1 && arg[0] == '-'
}

/// `--`, the end-of-flags marker.
pub open spec fn is_double_dash(arg: Seq<char>) -> bool {
    arg.len() == 2 && arg[0] == '-' && arg[1] == '-'
}

/// An argument that may hold flags: it starts with `-` and is neither `-` nor `--`.
pub open spec fn may_hold_flags(arg: Seq<char>) -> bool {
    arg.len() >= 2 && arg[0] == '-' && !is_double_dash(arg)
}

/// Where the parser stands after some of the arguments.
pub struct ParseState {
    pub values: Map<char, bool>,
    pub operands: Seq<Seq<char>>,
    pub parsing: bool,
}

/// Every letter of `letters` names a defined flag.
pub open spec fn all_defined(values: Map<char, bool>, letters: Seq<char>) -> bool {
    forall|j: int| 0 <= j < letters.len() ==> values.dom().contains(#[trigger] letters[j])
}

/// The flag values after the letters `letters` were given: each of them is set.
pub open spec fn set_letters(values: Map<char, bool>, letters: Seq<char>) -> Map<char, bool> {
    Map::new(|c: char| values.dom().contains(c), |c: char| values[c] || letters.contains(c))
}

/// One argument's effect. While flags are still being parsed, an argument of the
/// form `-xyz` whose letters are all defined sets those flags; anything else ends
/// flag parsing and becomes an operand. Every `--` is dropped.
pub open spec fn parse_step(st: ParseState, arg: Seq<char>) -> ParseState {
    if !st.parsing || !may_hold_flags(arg) {
        ParseState {
            values: st.values,
            operands: if is_double_dash(arg) {
                st.operands
            } else {
                st.operands.push(arg)
            },
            parsing: false,
        }
    } else if all_defined(st.values, arg.drop_first()) {
        ParseState {
            values: set_letters(st.values, arg.drop_first()),
            operands: st.operands,
            parsing: true,
        }
    } else {
        ParseState { values: st.values, operands: st.operands.push(arg), parsing: false }
    }
}

/// The parser's state after the arguments `args` (the program name excluded).
pub open spec fn parse_args(defs: Seq<(char, bool)>, args: Seq<Seq<char>>) -> ParseState
    decreases args.len(),
{
    if args.len() == 0 {
        ParseState { values: defaults(defs), operands: Seq::empty(), parsing: true }
    } else {
        parse_step(parse_args(defs, args.drop_last()), args.last())
    }
}

/// The characters of each string.
pub open spec fn string_views(args: Seq<String>) -> Seq<Seq<char>> {
    args.map_values(|a: String| a@)
}

/// The argument list that follows the program name.
pub open spec fn after_program(args: Seq<String>) -> Seq<Seq<char>> {
    string_views(args).skip(if args.len() == 0 { 0int } else { 1int })
}

impl View for FlagParser {
    type V = Seq<(char, bool)>;

    /// The flag definitions, in the order they were made.
    closed spec fn view(&self) -> Seq<(char, bool)> {
        defs_view(self.flags@)
    }
}

impl Parsed {
    /// The value of every defined flag.
    pub closed spec fn values(&self) -> Map<char, bool> {
        char_values(self.values@)
    }

    /// The operands, in order.
    pub closed spec fn operands(&self) -> Seq<Seq<char>> {
        string_views(self.args@)
    }
}

/// Parsing neither defines nor forgets a flag, and never turns a flag off: the
/// defined flags are those of the definitions, and a flag that is on by default
/// stays on.
pub proof fn lemma_parse_keeps_flags(defs: Seq<(char, bool)>, args: Seq<Seq<char>>)
    ensures
        parse_args(defs, args).values.dom() == defaults(defs).dom(),
        forall|c: char|
            defaults(defs).dom().contains(c) && #[trigger] defaults(defs)[c] ==> parse_args(
                defs,
                args,
            ).values[c],
    decreases args.len(),
{
    if args.len() > 0 {
        lemma_parse_keeps_flags(defs, args.drop_last());
        let st = parse_args(defs, args.drop_last());
        let v = set_letters(st.values, args.last().drop_first());
        assert(v.dom() =~= st.values.dom());
    }
}

/// Arguments that do not start with `-` are all operands, in order, and leave
/// every flag at its default.
pub proof fn lemma_no_dash_args(defs: Seq<(char, bool)>, args: Seq<Seq<char>>)
    requires
        forall|i: int| 0 <= i < args.len() ==> (#[trigger] args[i]).len() == 0 || args[i][0] != '-',
    ensures
        parse_args(defs, args).values == defaults(defs),
        parse_args(defs, args).operands == args,
    decreases args.len(),
{
    if args.len() > 0 {
        let a = args.last();
        assert(a.len() == 0 || a[0] != '-');
        assert forall|i: int| 0 <= i < args.drop_last().len() implies (
        #[trigger] args.drop_last()[i]).len() == 0 || args.drop_last()[i][0] != '-' by {
            assert(args.drop_last()[i] == args[i]);
        }
        lemma_no_dash_args(defs, args.drop_last());
        assert(args.drop_last().push(a) =~= args);
    }
}

/// Once flag parsing has ended, every further argument is an operand, in order,
/// except that `--` is dropped; the flag values no longer change.
pub proof fn lemma_after_flags(defs: Seq<(char, bool)>, a: Seq<Seq<char>>, b: Seq<Seq<char>>)
    requires
        !parse_args(defs, a).parsing,
    ensures
        parse_args(defs, a + b).values == parse_args(defs, a).values,
        parse_args(defs, a + b).operands == parse_args(defs, a).operands + b.filter(
            |x: Seq<char>| !is_double_dash(x),
        ),
        !parse_args(defs, a + b).parsing,
    decreases b.len(),
{
    if b.len() == 0 {
        assert(a + b =~= a);
        assert(b.filter(|x: Seq<char>| !is_double_dash(x)) =~= Seq::<Seq<char>>::empty());
    } else {
        lemma_after_flags(defs, a, b.drop_last());
        assert((a + b).drop_last() =~= a + b.drop_last());
        assert((a + b).last() == b.last());
        reveal_with_fuel(Seq::filter, 1);
        assert(b.drop_last().push(b.last()) =~= b);
        let ops = parse_args(defs, a).operands;
        let f = b.drop_last().filter(|x: Seq<char>| !is_double_dash(x));
        if !is_double_dash(b.last()) {
            assert(ops + f.push(b.last()) =~= (ops + f).push(b.last()));
        }
    }
}

/// A bundled group `-xy` has the same effect as `-x -y` when all its letters are
/// defined flags (and the group is not `--`-like), as long as flags are still
/// being parsed.
pub proof fn lemma_bundled_is_separate(
    defs: Seq<(char, bool)>,
    a: Seq<Seq<char>>,
    x: Seq<char>,
    y: Seq<char>,
)
    requires
        parse_args(defs, a).parsing,
        x.len() > 0,
        y.len() > 0,
        x[0] != '-',
        y[0] != '-',
        all_defined(defaults(defs), x + y),
    ensures
        parse_args(defs, a.push(seq!['-'] + x + y)) == parse_args(
            defs,
            a.push(seq!['-'] + x).push(seq!['-'] + y),
        ),
{
    lemma_parse_keeps_flags(defs, a);
    let st = parse_args(defs, a);
    let bundle = seq!['-'] + x + y;
    let gx = seq!['-'] + x;
    let gy = seq!['-'] + y;
    assert(bundle.drop_first() =~= x + y);
    assert(gx.drop_first() =~= x);
    assert(gy.drop_first() =~= y);
    assert(a.push(bundle).drop_last() =~= a);
    assert(a.push(gx).drop_last() =~= a);
    assert(a.push(gx).push(gy).drop_last() =~= a.push(gx));
    assert(bundle[1] == x[0]);
    assert(gx[1] == x[0]);
    assert(gy[1] == y[0]);
    assert(all_defined(st.values, x)) by {
        assert forall|j: int| 0 <= j < x.len() implies st.values.dom().contains(#[trigger] x[j]) by {
            assert((x + y)[j] == x[j]);
        }
    }
    let v1 = set_letters(st.values, x);
    assert(v1.dom() =~= st.values.dom());
    assert(all_defined(v1, y)) by {
        assert forall|j: int| 0 <= j < y.len() implies v1.dom().contains(#[trigger] y[j]) by {
            assert((x + y)[x.len() + j] == y[j]);
        }
    }
    assert forall|c: char| (x + y).contains(c) <==> (x.contains(c) || y.contains(c)) by {
        if (x + y).contains(c) {
            let w = choose|w: int| 0 <= w < (x + y).len() && (x + y)[w] == c;
            if w < x.len() {
                assert(x[w] == c);
            } else {
                assert(y[w - x.len()] == c);
            }
        }
        if x.contains(c) {
            let w = choose|w: int| 0 <= w < x.len() && x[w] == c;
            assert((x + y)[w] == c);
        }
        if y.contains(c) {
            let w = choose|w: int| 0 <= w < y.len() && y[w] == c;
            assert((x + y)[x.len() + w] == c);
        }
    }
    assert(set_letters(v1, y) =~= set_letters(st.values, x + y));
    assert(may_hold_flags(bundle));
    assert(may_hold_flags(gx));
    assert(may_hold_flags(gy));
    let s1 = parse_step(st, gx);
    assert(parse_args(defs, a.push(gx)) == s1);
    assert(s1 == ParseState { values: v1, operands: st.operands, parsing: true });
    assert(parse_args(defs, a.push(gx).push(gy)) == parse_step(s1, gy));
    assert(parse_args(defs, a.push(bundle)) == parse_step(st, bundle));
}

/// `a` is a group of flags that all name flags of `m`: `-xyz` (not `--`) with every
/// letter defined.
pub open spec fn valid_group(m: Map<char, bool>, a: Seq<char>) -> bool {
    may_hold_flags(a) && all_defined(m, a.drop_first())
}

/// Every argument of `args` is a valid group of flags of `m`.
pub open spec fn all_groups(m: Map<char, bool>, args: Seq<Seq<char>>) -> bool {
    forall|i: int| 0 <= i < args.len() ==> valid_group(m, #[trigger] args[i])
}

/// The length of the longest prefix of `args` made of valid groups of flags of `m`.
pub open spec fn flag_prefix(m: Map<char, bool>, args: Seq<Seq<char>>) -> nat
    decreases args.len(),
{
    if all_groups(m, args) {
        args.len()
    } else {
        flag_prefix(m, args.drop_last())
    }
}

/// The flag values in closed form: a defined flag is on when it is on by default
/// or one of the first `k` arguments names it.
pub open spec fn values_after(m: Map<char, bool>, args: Seq<Seq<char>>, k: nat) -> Map<char, bool> {
    Map::new(
        |c: char| m.dom().contains(c),
        |c: char| m[c] || exists|i: int| 0 <= i < k && (#[trigger] args[i]).drop_first().contains(c),
    )
}

proof fn lemma_flag_prefix_le(m: Map<char, bool>, args: Seq<Seq<char>>)
    ensures
        flag_prefix(m, args) <= args.len(),
        flag_prefix(m, args) == args.len() <==> all_groups(m, args),
        all_groups(m, args.take(flag_prefix(m, args) as int)),
    decreases args.len(),
{
    if !all_groups(m, args) {
        lemma_flag_prefix_le(m, args.drop_last());
        let k = flag_prefix(m, args.drop_last());
        assert(args.drop_last().take(k as int) =~= args.take(k as int));
    } else {
        assert(args.take(args.len() as int) =~= args);
    }
}

/// The parser in closed form. Let `k` be the length of the longest prefix of the
/// arguments made of groups whose letters are all defined flags. A defined flag is
/// on exactly when it is on by default or named in one of those `k` groups; no
/// other flag is defined; and the operands are the arguments from the `k`-th on,
/// with every `--` dropped. Flag parsing is still going on only if `k` covers all
/// the arguments.
pub proof fn lemma_parse_closed_form(defs: Seq<(char, bool)>, args: Seq<Seq<char>>)
    ensures
        ({
            let m = defaults(defs);
            let k = flag_prefix(m, args);
            let st = parse_args(defs, args);
            &&& st.values == values_after(m, args, k)
            &&& st.operands == args.skip(k as int).filter(|x: Seq<char>| !is_double_dash(x))
            &&& st.parsing == (k == args.len())
        }),
    decreases args.len(),
{
    let m = defaults(defs);
    lemma_flag_prefix_le(m, args);
    if args.len() == 0 {
        assert(values_after(m, args, 0) =~= m);
        assert(args.skip(0).filter(|x: Seq<char>| !is_double_dash(x)) =~= Seq::<Seq<char>>::empty());
    } else {
        let prev = args.drop_last();
        let x = args.last();
        lemma_parse_closed_form(defs, prev);
        lemma_parse_keeps_flags(defs, prev);
        lemma_flag_prefix_le(m, prev);
        let st = parse_args(defs, prev);
        let kp = flag_prefix(m, prev);
        let k = flag_prefix(m, args);
        assert(st.values.dom() == m.dom());
        assert forall|i: int| 0 <= i < prev.len() implies prev[i] == #[trigger] args[i] by {}
        reveal_with_fuel(Seq::filter, 1);
        if st.parsing && valid_group(m, x) {
            assert(kp == prev.len());
            assert(all_groups(m, args)) by {
                assert forall|i: int| 0 <= i < args.len() implies valid_group(m, #[trigger] args[i]) by {
                    if i < prev.len() {
                        assert(all_groups(m, prev));
                        assert(valid_group(m, prev[i]));
                    }
                }
            }
            assert(k == args.len());
            assert(all_defined(st.values, x.drop_first()));
            let v = set_letters(st.values, x.drop_first());
            assert forall|c: char| m.dom().contains(c) implies #[trigger] v[c] == values_after(m, args, k)[c] by {
                if exists|i: int| 0 <= i < kp && (#[trigger] prev[i]).drop_first().contains(c) {
                    let i = choose|i: int| 0 <= i < kp && (#[trigger] prev[i]).drop_first().contains(c);
                    assert(args[i] == prev[i]);
                }
                if x.drop_first().contains(c) {
                    assert(args[args.len() - 1] == x);
                }
                if exists|i: int| 0 <= i < k && (#[trigger] args[i]).drop_first().contains(c) {
                    let i = choose|i: int| 0 <= i < k && (#[trigger] args[i]).drop_first().contains(c);
                    if i < kp {
                        assert(prev[i] == args[i]);
                    }
                }
            }
            assert(v =~= values_after(m, args, k));
            assert(args.skip(k as int) =~= Seq::<Seq<char>>::empty());
            assert(prev.skip(kp as int) =~= Seq::<Seq<char>>::empty());
            assert(parse_args(defs, args) == parse_step(st, x));
        } else {
            assert(!all_groups(m, args)) by {
                if st.parsing {
                    assert(!valid_group(m, args[args.len() - 1]));
                } else {
                    assert(!all_groups(m, prev));
                    let i = choose|i: int| 0 <= i < prev.len() && !valid_group(m, #[trigger] prev[i]);
                    assert(!valid_group(m, args[i]));
                }
            }
            assert(k == kp);
            assert forall|c: char| m.dom().contains(c) implies #[trigger] values_after(m, args, k)[c]
                == values_after(m, prev, kp)[c] by {
                if exists|i: int| 0 <= i < k && (#[trigger] args[i]).drop_first().contains(c) {
                    let i = choose|i: int| 0 <= i < k && (#[trigger] args[i]).drop_first().contains(c);
                    assert(prev[i] == args[i]);
                }
                if exists|i: int| 0 <= i < kp && (#[trigger] prev[i]).drop_first().contains(c) {
                    let i = choose|i: int| 0 <= i < kp && (#[trigger] prev[i]).drop_first().contains(c);
                    assert(prev[i] == args[i]);
                }
            }
            assert(values_after(m, args, k) =~= values_after(m, prev, kp));
            assert(args.skip(k as int) =~= prev.skip(kp as int).push(x));
            assert(args.skip(k as int).drop_last() =~= prev.skip(kp as int));
            let f = |y: Seq<char>| !is_double_dash(y);
            assert(args.skip(k as int).filter(f) == if f(x) {
                prev.skip(kp as int).filter(f).push(x)
            } else {
                prev.skip(kp as int).filter(f)
            });
            assert(parse_args(defs, args) == parse_step(st, x));
            if st.parsing && may_hold_flags(x) {
                assert(!all_defined(st.values, x.drop_first()));
            }
        }
    }
}

proof fn lemma_flag_prefix_concat(m: Map<char, bool>, g: Seq<Seq<char>>, r: Seq<Seq<char>>)
    requires
        all_groups(m, g),
    ensures
        flag_prefix(m, g + r) == g.len() + flag_prefix(m, r),
    decreases r.len(),
{
    if all_groups(m, g + r) {
        assert(all_groups(m, r)) by {
            assert forall|i: int| 0 <= i < r.len() implies valid_group(m, #[trigger] r[i]) by {
                assert((g + r)[g.len() + i] == r[i]);
            }
        }
    } else {
        assert(r.len() > 0) by {
            if r.len() == 0 {
                assert(g + r =~= g);
            }
        }
        assert(!all_groups(m, r)) by {
            let i = choose|i: int| 0 <= i < (g + r).len() && !valid_group(m, #[trigger] (g + r)[i]);
            if i < g.len() {
                assert((g + r)[i] == g[i]);
            } else {
                assert((g + r)[i] == r[i - g.len()]);
            }
        }
        assert((g + r).drop_last() =~= g + r.drop_last());
        lemma_flag_prefix_concat(m, g, r.drop_last());
    }
}

/// The groups `-c` for each letter `c` of `letters`.
pub open spec fn one_by_one(letters: Seq<char>) -> Seq<Seq<char>> {
    Seq::new(letters.len(), |i: int| seq!['-', letters[i]])
}

/// A bundle `-c1...cm` of defined flags means the same as `-c1 ... -cm` given one
/// by one, whatever follows, after any number of flag groups: the flag values and
/// the operands agree. (A letter `-` is excluded: given alone it would form `--`.)
pub proof fn lemma_bundle_is_flags_one_by_one(
    defs: Seq<(char, bool)>,
    head: Seq<Seq<char>>,
    letters: Seq<char>,
    rest: Seq<Seq<char>>,
)
    requires
        all_groups(defaults(defs), head),
        letters.len() >= 1,
        all_defined(defaults(defs), letters),
        !letters.contains('-'),
    ensures
        parse_args(defs, head.push(seq!['-'] + letters) + rest).values == parse_args(
            defs,
            head + one_by_one(letters) + rest,
        ).values,
        parse_args(defs, head.push(seq!['-'] + letters) + rest).operands == parse_args(
            defs,
            head + one_by_one(letters) + rest,
        ).operands,
{
    let m = defaults(defs);
    let bundle = seq!['-'] + letters;
    let singles = one_by_one(letters);
    let ga = head.push(bundle);
    let gb = head + singles;
    let a = ga + rest;
    let b = gb + rest;
    assert(bundle.drop_first() =~= letters);
    assert(letters[0] != '-');
    assert(valid_group(m, bundle));
    assert(all_groups(m, ga)) by {
        assert forall|i: int| 0 <= i < ga.len() implies valid_group(m, #[trigger] ga[i]) by {
            if i < head.len() {
                assert(ga[i] == head[i]);
            }
        }
    }
    assert(all_groups(m, gb)) by {
        assert forall|i: int| 0 <= i < gb.len() implies valid_group(m, #[trigger] gb[i]) by {
            if i < head.len() {
                assert(gb[i] == head[i]);
            } else {
                let j = i - head.len();
                assert(gb[i] == singles[j]);
                assert(singles[j].drop_first() =~= seq![letters[j]]);
                assert(letters[j] != '-');
                assert(all_defined(m, singles[j].drop_first()));
            }
        }
    }
    lemma_flag_prefix_concat(m, ga, rest);
    lemma_flag_prefix_concat(m, gb, rest);
    lemma_parse_closed_form(defs, a);
    lemma_parse_closed_form(defs, b);
    lemma_flag_prefix_le(m, rest);
    let p = flag_prefix(m, rest);
    let ka = ga.len() + p;
    let kb = gb.len() + p;
    assert(a.skip(ka as int) =~= rest.skip(p as int));
    assert(b.skip(kb as int) =~= rest.skip(p as int));
    assert forall|c: char| m.dom().contains(c) implies #[trigger] values_after(m, a, ka)[c]
        == values_after(m, b, kb)[c] by {
        if exists|i: int| 0 <= i < ka && (#[trigger] a[i]).drop_first().contains(c) {
            let i = choose|i: int| 0 <= i < ka && (#[trigger] a[i]).drop_first().contains(c);
            if i < head.len() {
                assert(a[i] == head[i] && b[i] == head[i]);
            } else if i == head.len() {
                assert(a[i] == bundle);
                let w = choose|w: int| 0 <= w < letters.len() && letters[w] == c;
                assert(b[head.len() + w] == singles[w]);
                assert(singles[w].drop_first() =~= seq![letters[w]]);
                assert(b[head.len() + w].drop_first()[0] == c);
            } else {
                assert(a[i] == rest[i - ga.len()]);
                assert(b[i - ga.len() + gb.len()] == rest[i - ga.len()]);
            }
        }
        if exists|i: int| 0 <= i < kb && (#[trigger] b[i]).drop_first().contains(c) {
            let i = choose|i: int| 0 <= i < kb && (#[trigger] b[i]).drop_first().contains(c);
            if i < head.len() {
                assert(a[i] == head[i] && b[i] == head[i]);
            } else if i < gb.len() {
                let j = i - head.len();
                assert(b[i] == singles[j]);
                assert(singles[j].drop_first() =~= seq![letters[j]]);
                assert(letters[j] == c);
                assert(a[head.len() as int] == bundle);
                assert(a[head.len() as int].drop_first()[j] == c);
            } else {
                assert(b[i] == rest[i - gb.len()]);
                assert(a[i - gb.len() + ga.len()] == rest[i - gb.len()]);
            }
        }
    }
    assert(values_after(m, a, ka) =~= values_after(m, b, kb));
}

spec fn defs_view(defs: Seq<FlagDef>) -> Seq<(char, bool)> {
    defs.map_values(|d: FlagDef| def_view(d))
}

/// The flag values held in a map keyed by the letters' code points.
spec fn char_values(m: Map<u32, FlagKind>) -> Map<char, bool> {
    Map::new(|c: char| m.contains_key(c as u32), |c: char| kind_value(m[c as u32]))
}

proof fn lemma_char_values_insert(m: Map<u32, FlagKind>, c: char, k: FlagKind)
    ensures
        char_values(m.insert(c as u32, k)) == char_values(m).insert(c, kind_value(k)),
{
    let lhs = char_values(m.insert(c as u32, k));
    let rhs = char_values(m).insert(c, kind_value(k));
    assert forall|d: char| #[trigger] lhs.contains_key(d) == rhs.contains_key(d) && (
    lhs.contains_key(d) ==> lhs[d] == rhs[d]) by {
        if d as u32 == c as u32 {
            vstd::utf8::char_u32_cast(d, d as u32);
            vstd::utf8::char_u32_cast(c, c as u32);
            assert(d == c);
        }
    }
    assert(char_values(m.insert(c as u32, k)) =~= char_values(m).insert(c, kind_value(k)));
}

impl FlagParser {
    /// A parser with no flags defined.
    pub fn new() -> (p: Self)
        ensures
            p@ == Seq::<(char, bool)>::empty(),
    {
        let p = Self { flags: Vec::new() };
        assert(p@ =~= Seq::<(char, bool)>::empty());
        p
    }

    /// Defines the boolean flag `-name` with the value `default` when it is not given.
    pub fn bool(&mut self, name: char, default: bool) -> (r: &mut Self)
        ensures
            r@ == old(self)@.push((name, default)),
            final(self)@ == final(r)@,
    {
        self.flags.push(FlagDef { name, kind: FlagKind::Bool(default) });
        assert(self@ =~= old(self)@.push((name, default)));
        self
    }

    /// Parses `args`, whose first element is the program name.
    ///
    /// Flags come first: an argument `-xyz` whose letters are all defined flags
    /// sets each of them. The first argument that is not such a group (including
    /// `-` and the empty string) ends flag parsing; it and everything after it are
    /// operands, except that every `--` is dropped. A `--` also ends flag parsing.
    pub fn parse(&self, args: Vec<String>) -> (r: Parsed)
        ensures
            r.values() == parse_args(self@, after_program(args@)).values,
            r.operands() == parse_args(self@, after_program(args@)).operands,
    {
        broadcast use vstd::std_specs::hash::group_hash_axioms;

        let n = args.len();
        let ghost rest = after_program(args@);
        let mut values: HashMap<u32, FlagKind> = HashMap::new();
        let m = self.flags.len();
        let mut k: usize = 0;
        assert(char_values(values@) =~= defaults(self@.take(0)));
        while k < m
            invariant
                m == self.flags@.len(),
                k <= m,
                char_values(values@) == defaults(self@.take(k as int)),
            decreases m - k,
        {
            let d = self.flags[k];
            proof {
                lemma_char_values_insert(values@, d.name, d.kind);
                assert(self@.take(k + 1).drop_last() =~= self@.take(k as int));
                assert(self@.take(k + 1).last() == def_view(d));
            }
            values.insert(d.name as u32, d.kind);
            k += 1;
        }
        assert(self@.take(m as int) =~= self@);
        let mut positional: Vec<String> = Vec::new();
        let mut parsing_flags = true;
        let mut i: usize = 1;
        assert(rest.take(0) =~= Seq::<Seq<char>>::empty());
        assert(string_views(positional@) =~= Seq::<Seq<char>>::empty());
        while i < n
            invariant
                n == args@.len(),
                1 <= i,
                n == 0 || i <= n,
                n == 0 ==> i == 1,
                rest == after_program(args@),
                rest.len() == if n == 0 { 0 } else { n - 1 },
                forall|j: int| 0 <= j < rest.len() ==> #[trigger] rest[j] == args@[j + 1]@,
                char_values(values@) == parse_args(self@, rest.take(i - 1)).values,
                string_views(positional@) == parse_args(self@, rest.take(i - 1)).operands,
                parsing_flags == parse_args(self@, rest.take(i - 1)).parsing,
            decreases n - i,
        {
            let ghost before = parse_args(self@, rest.take(i - 1));
            assert(rest.take(i as int).drop_last() =~= rest.take(i - 1));
            assert(rest.take(i as int).last() == args@[i as int]@);
            let arg = chars_of(args[i].as_str());
            let len = arg.len();
            let double_dash = len == 2 && arg[0] == '-' && arg[1] == '-';
            let flag_group = len >= 2 && arg[0] == '-' && !double_dash;
            if !parsing_flags || !flag_group {
                parsing_flags = false;
                if !double_dash {
                    let ghost old_pos = positional@;
                    positional.push(args[i].clone());
                    assert(string_views(positional@) =~= string_views(old_pos).push(arg@));
                }
                i += 1;
                continue;
            }
            let ghost letters = arg@.drop_first();
            let snapshot = values.clone();
            let mut valid = true;
            let mut j: usize = 1;
            while j < len && valid
                invariant
                    len == arg@.len(),
                    1 <= j <= len,
                    letters == arg@.drop_first(),
                    char_values(snapshot@) == before.values,
                    valid ==> all_defined(before.values, letters.take(j - 1)),
                    valid ==> char_values(values@) == set_letters(before.values, letters.take(j - 1)),
                    !valid ==> !all_defined(before.values, letters),
                decreases len - j + (if valid { 1int } else { 0int }),
            {
                let ch = arg[j];
                let key = ch as u32;
                assert(letters[j - 1] == ch);
                assert(letters.take(j as int).drop_last() =~= letters.take(j - 1));
                assert(letters.take(j as int).last() == ch);
                let ghost cur = char_values(values@);
                assert(cur.dom() =~= before.values.dom());
                if values.contains_key(&key) {
                    proof {
                        lemma_char_values_insert(values@, ch, FlagKind::Bool(true));
                        assert forall|c: char|
                            letters.take(j as int).contains(c) <==> (letters.take(j - 1).contains(c)
                                || c == ch) by {
                            if letters.take(j as int).contains(c) {
                                let w = choose|w: int|
                                    0 <= w < j && #[trigger] letters.take(j as int)[w] == c;
                                if w < j - 1 {
                                    assert(letters.take(j - 1)[w] == c);
                                }
                            }
                            if letters.take(j - 1).contains(c) {
                                let w = choose|w: int|
                                    0 <= w < j - 1 && #[trigger] letters.take(j - 1)[w] == c;
                                assert(letters.take(j as int)[w] == c);
                            }
                            if c == ch {
                                assert(letters.take(j as int)[j - 1] == c);
                            }
                        }
                        assert(cur.insert(ch, true) =~= set_letters(
                            before.values,
                            letters.take(j as int),
                        ));
                        assert(all_defined(before.values, letters.take(j as int))) by {
                            assert forall|w: int| 0 <= w < j implies before.values.dom().contains(
                                #[trigger] letters.take(j as int)[w],
                            ) by {
                                if w < j - 1 {
                                    assert(letters.take(j as int)[w] == letters.take(j - 1)[w]);
                                }
                            }
                        }
                    }
                    values.insert(key, FlagKind::Bool(true));
                    j += 1;
                } else {
                    assert(!before.values.dom().contains(letters[j - 1]));
                    valid = false;
                }
            }
            if valid {
                assert(letters.take(len - 1) =~= letters);
            } else {
                values = snapshot;
                parsing_flags = false;
                let ghost old_pos = positional@;
                positional.push(args[i].clone());
                assert(string_views(positional@) =~= string_views(old_pos).push(arg@));
            }
            i += 1;
        }
        assert(rest.take(i - 1) =~= rest);
        let r = Parsed { values, args: positional };
        assert(r.values() == parse_args(self@, rest).values);
        assert(r.operands() == parse_args(self@, rest).operands);
        r
    }
}

impl Parsed {
    /// The value of the flag `name`; `false` for a name that was never defined.
    pub fn bool(&self, name: char) -> (b: bool)
        ensures
            b == (self.values().dom().contains(name) && self.values()[name]),
    {
        broadcast use vstd::std_specs::hash::group_hash_axioms;

        let key = name as u32;
        match self.values.get(&key) {
            Some(FlagKind::Bool(v)) => *v,
            None => false,
        }
    }

    /// The operands, in order.
    pub fn args(&self) -> (r: &[String])
        ensures
            string_views(r@) == self.operands(),
    {
        self.args.as_slice()
    }
}

} // verus!
