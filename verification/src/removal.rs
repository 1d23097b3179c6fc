//! What removing an account leaves behind: every other account is found as
//! it was, and a diff that asked for the removal alone is settled.

use vstd::prelude::*;
use crate::accounts::{lemma_first_field_is_key, lemma_removed_user_is_gone, lemma_upsert_is_found};
use crate::membership::{lemma_groups_of_congruent, lemma_listed_members_are_clean};
use crate::records::{lemma_first_true, without_key_spec};
use crate::text::{
    has_key_spec, join_spec, lemma_join_free, lemma_key_is_first_field, lemma_split_of_join,
    lemma_split_pieces_free, members_spec, split_spec,
};
use crate::users::{
    add_all_spec, apply_spec, by_name_spec, current_users_spec, groups_of_spec, has_name,
    index_of_spec, lemma_current_users_unique, lemma_index_of, lemma_matched_users_diff_is_empty,
    lemma_to_add, lemma_to_remove, lemma_to_update, line_members_spec, name_flags, record_spec,
    remove_all_spec, remove_from_groups_spec, remove_text_spec, remove_user_spec, same_user_spec,
    update_all_spec, upsert_spec, users_diff_spec, without_member_spec, FilesView, UserView,
};

verus! {

/// The first user of the list that bears `name`, if any.
pub open spec fn lookup_spec(users: Seq<UserView>, name: Seq<char>) -> Option<UserView> {
    let i = index_of_spec(users, name);
    if i >= 0 {
        Some(users[i])
    } else {
        None
    }
}

/// After a user is put into a list, its name finds that user and every other
/// name finds what it found before.
pub proof fn lemma_upsert_lookup(users: Seq<UserView>, user: UserView, name: Seq<char>)
    ensures
        lookup_spec(upsert_spec(users, user), name) == (if user.username == name {
            Some(user)
        } else {
            lookup_spec(users, name)
        }),
{
    let after = upsert_spec(users, user);
    if user.username == name {
        lemma_upsert_is_found(users, user);
    } else {
        lemma_index_of(users, user.username);
        let at = index_of_spec(users, user.username);
        lemma_first_true(name_flags(users, name));
        lemma_first_true(name_flags(after, name));
        if at >= 0 {
            assert(name_flags(after, name) =~= name_flags(users, name));
        } else {
            assert(name_flags(after, name).drop_last() =~= name_flags(users, name));
        }
    }
}

/// What is left of a list of texts holds a text exactly when the list held
/// it and it is not the one removed.
pub proof fn lemma_remove_text(list: Seq<Seq<char>>, x: Seq<char>)
    ensures
        forall|y: Seq<char>| #[trigger]
            remove_text_spec(list, x).contains(y) <==> list.contains(y) && y != x,
    decreases list.len(),
{
    let kept = remove_text_spec(list, x);
    if list.len() > 0 {
        let rest = list.drop_last();
        let before = remove_text_spec(rest, x);
        lemma_remove_text(rest, x);
        assert forall|y: Seq<char>| #[trigger] kept.contains(y) <==> list.contains(y) && y != x by {
            if kept.contains(y) {
                let i = choose|i: int| 0 <= i < kept.len() && kept[i] == y;
                if i < before.len() {
                    assert(before.contains(y));
                    let j = choose|j: int| 0 <= j < rest.len() && rest[j] == y;
                    assert(list[j] == y);
                } else {
                    assert(list[list.len() - 1] == y);
                }
            }
            if list.contains(y) && y != x {
                let j = choose|j: int| 0 <= j < list.len() && list[j] == y;
                if j < rest.len() {
                    assert(rest[j] == y);
                    assert(before.contains(y));
                    let i = choose|i: int| 0 <= i < before.len() && before[i] == y;
                    assert(kept[i] == y);
                } else {
                    assert(kept[kept.len() - 1] == y);
                }
            }
        }
    }
}

/// A group record from which a member is struck still names the same group
/// and lists every other member that has a name.
pub proof fn lemma_without_member(line: Seq<char>, username: Seq<char>, other: Seq<char>)
    requires
        other != username,
        other.len() > 0,
    ensures
        line_members_spec(without_member_spec(line, username)).contains(other) == line_members_spec(
            line,
        ).contains(other),
        split_spec(without_member_spec(line, username), ':')[0] == split_spec(line, ':')[0],
{
    let parts = split_spec(line, ':');
    if parts.len() >= 4 {
        let listed = members_spec(parts[3]);
        let kept = remove_text_spec(listed, username);
        lemma_remove_text(listed, username);
        lemma_listed_members_are_clean(line);
        lemma_split_pieces_free(line, ':');
        assert forall|i: int| 0 <= i < kept.len() implies !(#[trigger] kept[i]).contains(',')
            && !kept[i].contains(':') by {
            assert(kept.contains(kept[i]));
            let j = choose|j: int| 0 <= j < listed.len() && listed[j] == kept[i];
            assert(line_members_spec(line)[j] == listed[j]);
        }
        let field = join_spec(kept, ',');
        lemma_join_free(kept, ',', ':');
        let fields = parts.update(3, field);
        assert forall|i: int| 0 <= i < fields.len() implies !(#[trigger] fields[i]).contains(
            ':',
        ) by {
            if i != 3 {
                assert(fields[i] == parts[i]);
            }
        }
        lemma_split_of_join(fields, ':');
        assert(split_spec(without_member_spec(line, username), ':') == fields);
        assert(fields[0] == parts[0]);
        assert(members_spec(field).contains(other) == kept.contains(other)) by {
            if kept.len() >= 1 {
                if field.len() > 0 {
                    lemma_split_of_join(kept, ',');
                } else {
                    if kept.len() == 1 {
                        assert(field == kept[0]);
                        if kept.contains(other) {
                            let k = choose|k: int| 0 <= k < kept.len() && kept[k] == other;
                            assert(kept[k].len() == 0);
                        }
                    } else {
                        assert(field == join_spec(kept.drop_last(), ',').push(',') + kept.last());
                    }
                }
            } else {
                assert(field.len() == 0);
            }
        }
    }
}

/// Striking a user from every group leaves every other user that has a name
/// its groups.
pub proof fn lemma_remove_from_groups_keeps_others(
    lines: Seq<Seq<char>>,
    username: Seq<char>,
    other: Seq<char>,
)
    requires
        other != username,
        other.len() > 0,
    ensures
        groups_of_spec(remove_from_groups_spec(lines, username), other) == groups_of_spec(
            lines,
            other,
        ),
{
    let after = remove_from_groups_spec(lines, username);
    assert forall|i: int| 0 <= i < after.len() implies line_members_spec(
        #[trigger] after[i],
    ).contains(other) == line_members_spec(lines[i]).contains(other) by {
        lemma_without_member(lines[i], username, other);
    }
    assert forall|i: int|
        0 <= i < after.len() && line_members_spec(#[trigger] after[i]).contains(
            other,
        ) implies split_spec(after[i], ':')[0] == split_spec(lines[i], ':')[0] by {
        lemma_without_member(lines[i], username, other);
    }
    lemma_groups_of_congruent(after, lines, other);
}

/// That every identity record that describes an account gives it a name.
pub open spec fn records_are_named(passwd: Seq<Seq<char>>) -> bool {
    forall|i: int|
        0 <= i < passwd.len() && split_spec(#[trigger] passwd[i], ':').len() >= 7 ==> split_spec(
            passwd[i],
            ':',
        )[0].len() > 0
}

/// After an account is removed, every other name finds the account that it
/// found before.
pub proof fn lemma_removal_keeps_others(
    passwd: Seq<Seq<char>>,
    group_lines: Seq<Seq<char>>,
    username: Seq<char>,
    other: Seq<char>,
)
    requires
        !username.contains(':'),
        other != username,
        records_are_named(passwd),
    ensures
        lookup_spec(
            current_users_spec(
                without_key_spec(passwd, username),
                remove_from_groups_spec(group_lines, username),
            ),
            other,
        ) == lookup_spec(current_users_spec(passwd, group_lines), other),
    decreases passwd.len(),
{
    let after_groups = remove_from_groups_spec(group_lines, username);
    if passwd.len() > 0 {
        let rest = passwd.drop_last();
        let last = passwd.last();
        assert(records_are_named(rest)) by {
            assert forall|i: int|
                0 <= i < rest.len() && split_spec(#[trigger] rest[i], ':').len()
                    >= 7 implies split_spec(rest[i], ':')[0].len() > 0 by {
                assert(rest[i] == passwd[i]);
            }
        }
        lemma_removal_keeps_others(rest, group_lines, username, other);
        let before = current_users_spec(rest, group_lines);
        let kept_before = current_users_spec(without_key_spec(rest, username), after_groups);
        assert(last == passwd[passwd.len() - 1]);
        if has_key_spec(last, username) {
            lemma_key_is_first_field(last, username);
            match record_spec(last, group_lines) {
                Some(user) => {
                    lemma_upsert_lookup(before, user, other);
                },
                None => {},
            }
        } else {
            let kept = without_key_spec(passwd, username);
            assert(kept.drop_last() =~= without_key_spec(rest, username));
            assert(kept.last() == last);
            if split_spec(last, ':').len() >= 7 {
                let name = split_spec(last, ':')[0];
                lemma_first_field_is_key(last);
                lemma_remove_from_groups_keeps_others(group_lines, username, name);
                let user = record_spec(last, group_lines)->Some_0;
                assert(record_spec(last, after_groups) == Some(user));
                lemma_upsert_lookup(before, user, other);
                lemma_upsert_lookup(kept_before, user, other);
            }
        }
    }
}

/// Where the diff asks for one account to be removed and for nothing else,
/// applying it and reading the current state again leaves nothing to do: the
/// diff against the same desired users is empty. This is stated for a name
/// without a colon and for identity records that all give a name.
pub proof fn lemma_single_removal_settles(
    files: FilesView,
    desired: Seq<UserView>,
    username: Seq<char>,
)
    requires
        users_diff_spec(current_users_spec(files.passwd, files.group), desired).to_remove
            == seq![username],
        users_diff_spec(current_users_spec(files.passwd, files.group), desired).to_add.len()
            == 0,
        users_diff_spec(current_users_spec(files.passwd, files.group), desired).to_update.len()
            == 0,
        !username.contains(':'),
        records_are_named(files.passwd),
    ensures
        ({
            let diff = users_diff_spec(current_users_spec(files.passwd, files.group), desired);
            let after = remove_user_spec(files, username);
            let again = users_diff_spec(current_users_spec(after.passwd, after.group), desired);
            &&& apply_spec(files, diff) == Some(after)
            &&& again.to_add.len() == 0
            &&& again.to_update.len() == 0
            &&& again.to_remove.len() == 0
        }),
{
    let before = current_users_spec(files.passwd, files.group);
    let wanted = by_name_spec(desired);
    let diff = users_diff_spec(before, desired);
    let after = remove_user_spec(files, username);
    let current = current_users_spec(after.passwd, after.group);
    assert(apply_spec(files, diff) == Some(after)) by {
        assert(add_all_spec(files, diff.to_add) == Some(files));
        assert(update_all_spec(files, diff.to_update) == Some(files));
        assert(diff.to_remove.drop_last() =~= Seq::<Seq<char>>::empty());
        assert(remove_all_spec(files, diff.to_remove.drop_last()) == files);
        assert(diff.to_remove.last() == username);
    }
    lemma_to_add(wanted, before);
    lemma_to_update(before, wanted);
    lemma_to_remove(before, wanted);
    assert(diff.to_remove[0] == username);
    assert(diff.to_remove.contains(username));
    assert(!has_name(wanted, username));
    lemma_removed_user_is_gone(files, username);
    lemma_current_users_unique(after.passwd, after.group);
    assert forall|i: int| 0 <= i < current.len() implies index_of_spec(
        wanted,
        (#[trigger] current[i]).username,
    ) >= 0 && same_user_spec(current[i], wanted[index_of_spec(wanted, current[i].username)]) by {
        let name = current[i].username;
        assert(name != username);
        lemma_removal_keeps_others(files.passwd, files.group, username, name);
        lemma_index_of(current, name);
        let found = index_of_spec(current, name);
        assert(found == i) by {
            if found != i {
                assert(current[found].username == current[i].username);
            }
        }
        lemma_index_of(before, name);
        let k = index_of_spec(before, name);
        assert(before[k] == current[i]);
        lemma_index_of(wanted, name);
        if !has_name(wanted, name) {
            assert(has_name(before, name));
            assert(diff.to_remove.contains(name));
            let r = choose|r: int| 0 <= r < diff.to_remove.len() && diff.to_remove[r] == name;
            assert(diff.to_remove[r] == username);
        }
        let u = wanted[index_of_spec(wanted, name)];
        if !same_user_spec(before[k], u) {
            assert(diff.to_update.contains((name, u)));
        }
    }
    assert forall|j: int| 0 <= j < wanted.len() implies has_name(
        current,
        (#[trigger] wanted[j]).username,
    ) by {
        let name = wanted[j].username;
        assert(name != username);
        if !has_name(before, name) {
            assert(wanted.contains(wanted[j]));
            assert(diff.to_add.contains(wanted[j]));
        }
        lemma_index_of(before, name);
        lemma_removal_keeps_others(files.passwd, files.group, username, name);
        lemma_index_of(current, name);
    }
    lemma_matched_users_diff_is_empty(current, desired);
}

} // verus!
