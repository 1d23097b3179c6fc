//! What group synchronisation achieves: after it, the group records list the
//! user in every group asked for, and in every group that listed it before.

use vstd::prelude::*;
use crate::records::{key_flags, lemma_first_true, next_id_spec, position_spec};
use crate::text::{
    decimal_digits, is_digit, join_spec, lemma_digits_value, lemma_join_free,
    lemma_key_is_first_field, lemma_split_keeps_free, lemma_split_nonempty, lemma_split_of_join,
    lemma_split_pieces_free, members_spec, split_spec,
};
use crate::users::{
    group_line_spec, groups_of_spec, join_group_spec, line_members_spec, pad4_spec,
    update_groups_spec, with_member_spec,
};

verus! {

/// That a name can stand in a member list: it is not empty and holds neither
/// colon nor comma.
pub open spec fn member_name(name: Seq<char>) -> bool {
    name.len() > 0 && !name.contains(':') && !name.contains(',')
}

/// That a group record names the group `group` and lists `username`.
pub open spec fn lists_in_group(line: Seq<char>, username: Seq<char>, group: Seq<char>) -> bool {
    line_members_spec(line).contains(username) && split_spec(line, ':')[0] == group
}

/// That some record of the group `group` lists `username`.
pub open spec fn member_of_spec(
    lines: Seq<Seq<char>>,
    username: Seq<char>,
    group: Seq<char>,
) -> bool {
    exists|i: int| 0 <= i < lines.len() && lists_in_group(#[trigger] lines[i], username, group)
}

/// Padding keeps the fields there are and adds empty ones up to four.
pub proof fn lemma_pad4(parts: Seq<Seq<char>>)
    ensures
        pad4_spec(parts).len() >= 4,
        pad4_spec(parts).len() >= parts.len(),
        forall|i: int| 0 <= i < parts.len() ==> (#[trigger] pad4_spec(parts)[i]) == parts[i],
        forall|i: int|
            parts.len() <= i < pad4_spec(parts).len() ==> (#[trigger] pad4_spec(parts)[i]).len()
                == 0,
    decreases 4 - parts.len(),
{
    if parts.len() < 4 {
        let longer = parts.push(Seq::<char>::empty());
        lemma_pad4(longer);
        assert forall|i: int| 0 <= i < parts.len() implies (#[trigger] pad4_spec(parts)[i])
            == parts[i] by {
            assert(longer[i] == parts[i]);
        }
        assert forall|i: int| parts.len() <= i < pad4_spec(parts).len() implies (
        #[trigger] pad4_spec(parts)[i]).len() == 0 by {
            if i == parts.len() {
                assert(longer[i].len() == 0);
            }
        }
    }
}

/// The members that a record lists hold neither comma nor colon.
pub proof fn lemma_listed_members_are_clean(line: Seq<char>)
    ensures
        forall|i: int|
            0 <= i < line_members_spec(line).len() ==> !(#[trigger] line_members_spec(
                line,
            )[i]).contains(',') && !line_members_spec(line)[i].contains(':'),
{
    let parts = split_spec(line, ':');
    lemma_split_pieces_free(line, ':');
    if parts.len() >= 4 && parts[3].len() > 0 {
        lemma_split_pieces_free(parts[3], ',');
        lemma_split_keeps_free(parts[3], ',', ':');
    }
}

/// A record to which a member is added lists that member behind those it
/// listed before, and still names the same group.
pub proof fn lemma_with_member(line: Seq<char>, username: Seq<char>)
    requires
        member_name(username),
    ensures
        line_members_spec(with_member_spec(line, username)) == (if line_members_spec(
            line,
        ).contains(username) {
            line_members_spec(line)
        } else {
            line_members_spec(line).push(username)
        }),
        split_spec(with_member_spec(line, username), ':')[0] == split_spec(line, ':')[0],
{
    let parts = split_spec(line, ':');
    let listed = line_members_spec(line);
    if !listed.contains(username) {
        lemma_split_nonempty(line, ':');
        lemma_split_pieces_free(line, ':');
        lemma_listed_members_are_clean(line);
        lemma_pad4(parts);
        let padded = pad4_spec(parts);
        let grown = listed.push(username);
        assert forall|i: int| 0 <= i < grown.len() implies !(#[trigger] grown[i]).contains(',')
            && !grown[i].contains(':') by {
            if i < listed.len() {
                assert(grown[i] == listed[i]);
            }
        }
        let field = join_spec(grown, ',');
        lemma_join_free(grown, ',', ':');
        lemma_split_of_join(grown, ',');
        assert(field.len() > 0) by {
            if grown.len() == 1 {
                assert(field == grown[0]);
            } else {
                assert(field == join_spec(grown.drop_last(), ',').push(',') + grown.last());
            }
        }
        let fields = padded.update(3, field);
        assert forall|i: int| 0 <= i < fields.len() implies !(#[trigger] fields[i]).contains(
            ':',
        ) by {
            if i != 3 {
                assert(fields[i] == padded[i]);
                if i < parts.len() {
                    assert(padded[i] == parts[i]);
                } else {
                    assert(padded[i].len() == 0);
                }
            }
        }
        lemma_split_of_join(fields, ':');
        assert(split_spec(with_member_spec(line, username), ':') == fields);
        assert(fields[0] == parts[0]);
        assert(members_spec(field) == grown);
    }
}

/// A user is among the groups collected exactly when some record lists it.
pub proof fn lemma_groups_of(lines: Seq<Seq<char>>, username: Seq<char>)
    ensures
        forall|g: Seq<char>| #[trigger]
            groups_of_spec(lines, username).contains(g) <==> member_of_spec(lines, username, g),
    decreases lines.len(),
{
    let found = groups_of_spec(lines, username);
    if lines.len() > 0 {
        let rest = lines.drop_last();
        let before = groups_of_spec(rest, username);
        lemma_groups_of(rest, username);
        assert forall|g: Seq<char>| #[trigger]
            found.contains(g) <==> member_of_spec(lines, username, g) by {
            if found.contains(g) {
                let i = choose|i: int| 0 <= i < found.len() && found[i] == g;
                if i < before.len() {
                    assert(before.contains(g));
                    let j = choose|j: int|
                        0 <= j < rest.len() && lists_in_group(#[trigger] rest[j], username, g);
                    assert(lists_in_group(lines[j], username, g));
                } else {
                    assert(lists_in_group(lines[lines.len() - 1], username, g));
                }
            }
            if member_of_spec(lines, username, g) {
                let j = choose|j: int|
                    0 <= j < lines.len() && lists_in_group(#[trigger] lines[j], username, g);
                if j < rest.len() {
                    assert(lists_in_group(rest[j], username, g));
                    assert(before.contains(g));
                    let i = choose|i: int| 0 <= i < before.len() && before[i] == g;
                    assert(found[i] == g);
                } else {
                    assert(found[found.len() - 1] == g);
                }
            }
        }
    } else {
        assert forall|g: Seq<char>| !member_of_spec(lines, username, g) by {}
    }
}

/// The record of a new group names the group and lists its one member.
pub proof fn lemma_new_group_line(group: Seq<char>, gid: u32, username: Seq<char>)
    requires
        member_name(username),
        !group.contains(':'),
    ensures
        lists_in_group(group_line_spec(group, gid, username), username, group),
        line_members_spec(group_line_spec(group, gid, username)) == seq![username],
{
    let digits = decimal_digits(gid as nat);
    lemma_digits_value(gid as nat);
    let fields = seq![group, seq!['x'], digits, username];
    assert forall|i: int| 0 <= i < fields.len() implies !(#[trigger] fields[i]).contains(':') by {
        if i == 1 {
            assert forall|k: int| 0 <= k < fields[1].len() implies fields[1][k] != ':' by {}
        } else if i == 2 {
            assert forall|k: int| 0 <= k < digits.len() implies digits[k] != ':' by {
                assert(is_digit(digits[k]));
            }
        }
    }
    lemma_split_of_join(fields, ':');
    let single = seq![username];
    lemma_split_of_join(single, ',');
    assert(join_spec(single, ',') == username);
    assert(members_spec(username) == single);
    assert(single[0] == username);
}

/// Once a user has joined a group, a record of that group lists the user,
/// and so does every record that listed it before.
pub proof fn lemma_join_group(lines: Seq<Seq<char>>, username: Seq<char>, group: Seq<char>)
    requires
        member_name(username),
        !group.contains(':'),
        join_group_spec(lines, username, group) is Some,
    ensures
        member_of_spec(join_group_spec(lines, username, group)->Some_0, username, group),
        forall|h: Seq<char>|
            member_of_spec(lines, username, h) ==> #[trigger] member_of_spec(
                join_group_spec(lines, username, group)->Some_0,
                username,
                h,
            ),
        forall|h: Seq<char>| #[trigger]
            member_of_spec(join_group_spec(lines, username, group)->Some_0, username, h)
                ==> member_of_spec(lines, username, h) || h == group,
{
    let after = join_group_spec(lines, username, group)->Some_0;
    let at = position_spec(lines, group);
    lemma_first_true(key_flags(lines, group));
    if at >= 0 {
        assert(key_flags(lines, group)[at]);
        lemma_key_is_first_field(lines[at], group);
        lemma_with_member(lines[at], username);
        assert(line_members_spec(after[at]).contains(username)) by {
            let listed = line_members_spec(lines[at]);
            if !listed.contains(username) {
                assert(listed.push(username)[listed.len() as int] == username);
            }
        }
        assert(lists_in_group(after[at], username, group));
        assert forall|h: Seq<char>| member_of_spec(lines, username, h) implies #[trigger] member_of_spec(
            after,
            username,
            h,
        ) by {
            let j = choose|j: int|
                0 <= j < lines.len() && lists_in_group(#[trigger] lines[j], username, h);
            if j != at {
                assert(after[j] == lines[j]);
            }
            assert(lists_in_group(after[j], username, h));
        }
        assert forall|h: Seq<char>| #[trigger]
            member_of_spec(after, username, h) implies member_of_spec(lines, username, h) || h
            == group by {
            let j = choose|j: int|
                0 <= j < after.len() && lists_in_group(#[trigger] after[j], username, h);
            if j != at {
                assert(after[j] == lines[j]);
                assert(lists_in_group(lines[j], username, h));
            }
        }
    } else {
        let gid = next_id_spec(lines, 2)->Some_0;
        lemma_new_group_line(group, gid, username);
        assert(lists_in_group(after[lines.len() as int], username, group));
        assert forall|h: Seq<char>| member_of_spec(lines, username, h) implies #[trigger] member_of_spec(
            after,
            username,
            h,
        ) by {
            let j = choose|j: int|
                0 <= j < lines.len() && lists_in_group(#[trigger] lines[j], username, h);
            assert(after[j] == lines[j]);
        }
        assert forall|h: Seq<char>| #[trigger]
            member_of_spec(after, username, h) implies member_of_spec(lines, username, h) || h
            == group by {
            let j = choose|j: int|
                0 <= j < after.len() && lists_in_group(#[trigger] after[j], username, h);
            if j < lines.len() {
                assert(after[j] == lines[j]);
                assert(lists_in_group(lines[j], username, h));
            }
        }
    }
}

/// After group synchronisation the user is a member of every group asked
/// for and of every group that listed it before, and of no other. This is
/// stated for a
/// user name that can stand in a member list and for group names without a
/// colon.
pub proof fn lemma_update_groups(
    lines: Seq<Seq<char>>,
    username: Seq<char>,
    groups: Seq<Seq<char>>,
)
    requires
        member_name(username),
        forall|k: int| 0 <= k < groups.len() ==> !(#[trigger] groups[k]).contains(':'),
        update_groups_spec(lines, username, groups) is Some,
    ensures
        forall|k: int|
            0 <= k < groups.len() ==> member_of_spec(
                update_groups_spec(lines, username, groups)->Some_0,
                username,
                #[trigger] groups[k],
            ),
        forall|h: Seq<char>|
            member_of_spec(lines, username, h) ==> #[trigger] member_of_spec(
                update_groups_spec(lines, username, groups)->Some_0,
                username,
                h,
            ),
        forall|h: Seq<char>| #[trigger]
            member_of_spec(update_groups_spec(lines, username, groups)->Some_0, username, h)
                ==> member_of_spec(lines, username, h) || groups.contains(h),
        forall|h: Seq<char>| #[trigger]
            groups_of_spec(update_groups_spec(lines, username, groups)->Some_0, username).contains(
                h,
            ) <==> member_of_spec(lines, username, h) || groups.contains(h),
    decreases groups.len(),
{
    let after = update_groups_spec(lines, username, groups)->Some_0;
    if groups.len() > 0 {
        let rest = groups.drop_last();
        let before = update_groups_spec(lines, username, rest)->Some_0;
        assert forall|k: int| 0 <= k < rest.len() implies !(#[trigger] rest[k]).contains(':') by {
            assert(rest[k] == groups[k]);
        }
        lemma_update_groups(lines, username, rest);
        lemma_join_group(before, username, groups.last());
        assert forall|k: int| 0 <= k < groups.len() implies member_of_spec(
            after,
            username,
            #[trigger] groups[k],
        ) by {
            if k < rest.len() {
                assert(rest[k] == groups[k]);
                assert(member_of_spec(before, username, rest[k]));
            }
        }
        assert forall|h: Seq<char>| member_of_spec(lines, username, h) implies #[trigger] member_of_spec(
            after,
            username,
            h,
        ) by {
            assert(member_of_spec(before, username, h));
        }
        assert forall|h: Seq<char>| #[trigger]
            member_of_spec(after, username, h) implies member_of_spec(lines, username, h)
            || groups.contains(h) by {
            if h == groups.last() {
                assert(groups[groups.len() - 1] == h);
            } else {
                assert(member_of_spec(before, username, h));
                if !member_of_spec(lines, username, h) {
                    assert(rest.contains(h));
                    let k = choose|k: int| 0 <= k < rest.len() && rest[k] == h;
                    assert(groups[k] == h);
                }
            }
        }
    }
    lemma_groups_of(after, username);
    assert forall|h: Seq<char>| #[trigger]
        groups_of_spec(after, username).contains(h) <==> member_of_spec(lines, username, h)
            || groups.contains(h) by {
        if groups.contains(h) {
            let k = choose|k: int| 0 <= k < groups.len() && groups[k] == h;
            assert(member_of_spec(after, username, groups[k]));
        }
    }
}

/// Two lists of group records that agree, record by record, on whether they
/// list a user and if so on the group's name, give the user the same groups.
pub proof fn lemma_groups_of_congruent(a: Seq<Seq<char>>, b: Seq<Seq<char>>, username: Seq<char>)
    requires
        a.len() == b.len(),
        forall|i: int|
            0 <= i < a.len() ==> line_members_spec(#[trigger] a[i]).contains(username)
                == line_members_spec(b[i]).contains(username),
        forall|i: int|
            0 <= i < a.len() && line_members_spec(#[trigger] a[i]).contains(username) ==> split_spec(
                a[i],
                ':',
            )[0] == split_spec(b[i], ':')[0],
    ensures
        groups_of_spec(a, username) == groups_of_spec(b, username),
    decreases a.len(),
{
    if a.len() > 0 {
        let ra = a.drop_last();
        let rb = b.drop_last();
        assert forall|i: int| 0 <= i < ra.len() implies line_members_spec(
            #[trigger] ra[i],
        ).contains(username) == line_members_spec(rb[i]).contains(username) by {
            assert(ra[i] == a[i] && rb[i] == b[i]);
        }
        assert forall|i: int|
            0 <= i < ra.len() && line_members_spec(#[trigger] ra[i]).contains(
                username,
            ) implies split_spec(ra[i], ':')[0] == split_spec(rb[i], ':')[0] by {
            assert(ra[i] == a[i] && rb[i] == b[i]);
        }
        lemma_groups_of_congruent(ra, rb, username);
        assert(a.last() == a[a.len() - 1]);
        assert(b.last() == b[a.len() - 1]);
    }
}

/// When a user joins a group, every other user keeps its groups.
pub proof fn lemma_join_group_keeps_others(
    lines: Seq<Seq<char>>,
    username: Seq<char>,
    group: Seq<char>,
    other: Seq<char>,
)
    requires
        member_name(username),
        !group.contains(':'),
        other != username,
        join_group_spec(lines, username, group) is Some,
    ensures
        groups_of_spec(join_group_spec(lines, username, group)->Some_0, other) == groups_of_spec(
            lines,
            other,
        ),
{
    let after = join_group_spec(lines, username, group)->Some_0;
    let at = position_spec(lines, group);
    lemma_first_true(key_flags(lines, group));
    if at >= 0 {
        lemma_with_member(lines[at], username);
        let listed = line_members_spec(lines[at]);
        assert(line_members_spec(after[at]).contains(other) == listed.contains(other)) by {
            if !listed.contains(username) {
                let grown = listed.push(username);
                if grown.contains(other) {
                    let k = choose|k: int| 0 <= k < grown.len() && grown[k] == other;
                    assert(listed[k] == other);
                }
                if listed.contains(other) {
                    let k = choose|k: int| 0 <= k < listed.len() && listed[k] == other;
                    assert(grown[k] == other);
                }
            }
        }
        assert forall|i: int| 0 <= i < after.len() implies line_members_spec(
            #[trigger] after[i],
        ).contains(other) == line_members_spec(lines[i]).contains(other) by {
            if i != at {
                assert(after[i] == lines[i]);
            }
        }
        assert forall|i: int|
            0 <= i < after.len() && line_members_spec(#[trigger] after[i]).contains(
                other,
            ) implies split_spec(after[i], ':')[0] == split_spec(lines[i], ':')[0] by {
            if i != at {
                assert(after[i] == lines[i]);
            }
        }
        lemma_groups_of_congruent(after, lines, other);
    } else {
        let gid = next_id_spec(lines, 2)->Some_0;
        lemma_new_group_line(group, gid, username);
        assert(after.drop_last() =~= lines);
        let single = seq![username];
        if single.contains(other) {
            let k = choose|k: int| 0 <= k < single.len() && single[k] == other;
            assert(single[k] == username);
        }
    }
}

/// Group synchronisation for one user leaves every other user its groups.
pub proof fn lemma_update_groups_keeps_others(
    lines: Seq<Seq<char>>,
    username: Seq<char>,
    groups: Seq<Seq<char>>,
    other: Seq<char>,
)
    requires
        member_name(username),
        forall|k: int| 0 <= k < groups.len() ==> !(#[trigger] groups[k]).contains(':'),
        other != username,
        update_groups_spec(lines, username, groups) is Some,
    ensures
        groups_of_spec(update_groups_spec(lines, username, groups)->Some_0, other)
            == groups_of_spec(lines, other),
    decreases groups.len(),
{
    if groups.len() > 0 {
        let rest = groups.drop_last();
        assert forall|k: int| 0 <= k < rest.len() implies !(#[trigger] rest[k]).contains(':') by {
            assert(rest[k] == groups[k]);
        }
        lemma_update_groups_keeps_others(lines, username, rest, other);
        lemma_join_group_keeps_others(
            update_groups_spec(lines, username, rest)->Some_0,
            username,
            groups.last(),
            other,
        );
    }
}

} // verus!
