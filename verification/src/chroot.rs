use vstd::prelude::*;

use crate::flags::string_views;
use crate::text::chars_of;

verus! {

/// The supplementary groups `chroot -g` accepts at most.
pub const MAX_GROUPS: usize = 16;

/// Whether `chroot` may take one more supplementary group when it already holds
/// `ngids`; the 17th group ends it with "too many supplementary groups provided".
pub fn room_for_group(ngids: usize) -> (b: bool)
    ensures
        b == (ngids < MAX_GROUPS),
{
    ngids < MAX_GROUPS
}

/// Whether `chroot`'s arguments are usable: a new root is given, and neither `-u`
/// nor `-g` has an empty value. Otherwise `chroot` prints its usage and exits.
pub fn usage_ok(operand_count: usize, user: Option<&str>, groups: Option<&str>) -> (b: bool)
    ensures
        b == (operand_count > 0 && (user matches Some(u) ==> u@.len() > 0) && (groups matches Some(
            g,
        ) ==> g@.len() > 0)),
{
    if operand_count == 0 {
        return false;
    }
    if let Some(u) = user {
        if u.is_empty() {
            return false;
        }
    }
    if let Some(g) = groups {
        if g.is_empty() {
            return false;
        }
    }
    true
}

/// The shell `chroot` runs when no command is given: `$SHELL` (`None` when it is
/// unset or not Unicode), or `/bin/sh` when that is missing or empty.
pub fn shell_to_run(shell_env: Option<&str>) -> (r: String)
    ensures
        r@ == match shell_env {
            Some(s) => if s@.len() > 0 { s@ } else { "/bin/sh"@ },
            None => "/bin/sh"@,
        },
{
    match shell_env {
        Some(s) => {
            if s.is_empty() {
                "/bin/sh".to_owned()
            } else {
                s.to_owned()
            }
        },
        None => "/bin/sh".to_owned(),
    }
}

/// The comma-separated fields of `s` read so far, and the field being read.
pub open spec fn field_scan(s: Seq<char>) -> (Seq<Seq<char>>, Seq<char>)
    decreases s.len(),
{
    if s.len() == 0 {
        (Seq::empty(), Seq::empty())
    } else {
        let (fields, cur) = field_scan(s.drop_last());
        if s.last() == ',' {
            (if cur.len() > 0 { fields.push(cur) } else { fields }, Seq::empty())
        } else {
            (fields, cur.push(s.last()))
        }
    }
}

/// The non-empty comma-separated fields of `s`, in order: what `split(',')`
/// yields with the empty pieces skipped.
pub open spec fn group_fields(s: Seq<char>) -> Seq<Seq<char>> {
    let (fields, cur) = field_scan(s);
    if cur.len() > 0 {
        fields.push(cur)
    } else {
        fields
    }
}

/// Every field is non-empty and holds no comma.
pub open spec fn proper_fields(fields: Seq<Seq<char>>) -> bool {
    forall|i: int|
        0 <= i < fields.len() ==> (#[trigger] fields[i]).len() > 0 && !fields[i].contains(',')
}

proof fn lemma_field_scan(s: Seq<char>)
    ensures
        proper_fields(field_scan(s).0),
        !field_scan(s).1.contains(','),
    decreases s.len(),
{
    if s.len() > 0 {
        lemma_field_scan(s.drop_last());
        let (fields, cur) = field_scan(s.drop_last());
        if s.last() != ',' {
            assert forall|j: int| 0 <= j < cur.push(s.last()).len() implies cur.push(s.last())[j]
                != ',' by {
                if j < cur.len() {
                    assert(cur.push(s.last())[j] == cur[j]);
                }
            }
        } else {
            assert(Seq::<char>::empty().len() == 0);
        }
    }
}

/// Every group name is non-empty and holds no comma.
pub proof fn lemma_group_fields_proper(s: Seq<char>)
    ensures
        proper_fields(group_fields(s)),
{
    lemma_field_scan(s);
}

/// The group names of `chroot -g group,group,...`: the non-empty fields of `list`.
pub fn group_names(list: &str) -> (names: Vec<String>)
    ensures
        string_views(names@) == group_fields(list@),
{
    let cs = chars_of(list);
    let n = cs.len();
    let mut names: Vec<String> = Vec::new();
    let mut start: usize = 0;
    let mut i: usize = 0;
    while i < n
        invariant
            n == cs@.len(),
            start <= i <= n,
            cs@ == list@,
            field_scan(cs@.take(i as int)) == (string_views(names@), cs@.subrange(
                start as int,
                i as int,
            )),
        decreases n - i,
    {
        assert(cs@.take(i + 1).drop_last() =~= cs@.take(i as int));
        assert(cs@.take(i + 1).last() == cs@[i as int]);
        if cs[i] == ',' {
            if start < i {
                let field = list.substring_char(start, i).to_owned();
                let ghost old_names = names@;
                names.push(field);
                assert(string_views(names@) =~= string_views(old_names).push(
                    cs@.subrange(start as int, i as int),
                ));
            }
            start = i + 1;
            assert(cs@.subrange(start as int, i + 1) =~= Seq::<char>::empty());
        } else {
            assert(cs@.subrange(start as int, i + 1) =~= cs@.subrange(start as int, i as int).push(
                cs@[i as int],
            ));
        }
        i += 1;
    }
    assert(cs@.take(n as int) =~= cs@);
    if start < n {
        let field = list.substring_char(start, n).to_owned();
        let ghost old_names = names@;
        names.push(field);
        assert(string_views(names@) =~= string_views(old_names).push(
            cs@.subrange(start as int, n as int),
        ));
    }
    names
}

} // verus!
