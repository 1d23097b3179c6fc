//! What updating an account leaves behind: the account is found as asked
//! for, every other account as it was, and a diff that asked for the update
//! alone is settled.

use vstd::prelude::*;
use crate::accounts::{
    lemma_current_names_are_on_record, lemma_current_with_same_groups, lemma_first_field_is_key,
    lemma_written_record_reads_back,
};
use crate::membership::{
    lemma_update_groups, lemma_update_groups_keeps_others, member_name, member_of_spec,
};
use crate::records::{key_flags, lemma_first_true, position_spec};
use crate::removal::{lemma_upsert_lookup, lookup_spec};
use crate::text::{has_key_spec, lemma_key_is_first_field, split_spec};
use crate::users::{
    add_all_spec, apply_spec, by_name_spec, current_users_spec, groups_of_spec, has_name,
    id_or_kept_spec, index_of_spec, lemma_current_users_unique, lemma_index_of,
    lemma_matched_users_diff_is_empty, lemma_to_add, lemma_to_remove, lemma_to_update,
    passwd_line_spec, record_spec, remove_all_spec, same_user_spec, update_all_spec,
    update_groups_spec, update_user_spec, users_diff_spec, FilesView, UserView,
};

verus! {

/// Where one identity record of a name is rewritten and the group records
/// change only for that name, the name finds the account that the new record
/// describes and every other name finds what it found before. This is stated
/// for a name without a colon that has that one record only.
pub proof fn lemma_rewrite_keeps_others(
    passwd: Seq<Seq<char>>,
    old_groups: Seq<Seq<char>>,
    new_groups: Seq<Seq<char>>,
    at: int,
    line: Seq<char>,
    username: Seq<char>,
    other: Seq<char>,
)
    requires
        0 <= at < passwd.len(),
        !username.contains(':'),
        has_key_spec(passwd[at], username),
        forall|j: int| 0 <= j < passwd.len() && has_key_spec(#[trigger] passwd[j], username) ==> j == at,
        record_spec(line, new_groups) is Some,
        record_spec(line, new_groups)->Some_0.username == username,
        forall|v: Seq<char>|
            v != username ==> #[trigger] groups_of_spec(new_groups, v) == groups_of_spec(
                old_groups,
                v,
            ),
    ensures
        lookup_spec(current_users_spec(passwd.update(at, line), new_groups), other) == (if other
            == username {
            record_spec(line, new_groups)
        } else {
            lookup_spec(current_users_spec(passwd, old_groups), other)
        }),
    decreases passwd.len(),
{
    let rest = passwd.drop_last();
    let last = passwd.last();
    let written = passwd.update(at, line);
    let record = record_spec(line, new_groups)->Some_0;
    assert(last == passwd[passwd.len() - 1]);
    if at == passwd.len() - 1 {
        assert(written.drop_last() =~= rest);
        assert(written.last() == line);
        assert forall|i: int|
            0 <= i < rest.len() && split_spec(#[trigger] rest[i], ':').len() >= 7 implies groups_of_spec(
            new_groups,
            split_spec(rest[i], ':')[0],
        ) == groups_of_spec(old_groups, split_spec(rest[i], ':')[0]) by {
            assert(rest[i] == passwd[i]);
            lemma_first_field_is_key(rest[i]);
        }
        lemma_current_with_same_groups(rest, new_groups, old_groups);
        let before = current_users_spec(rest, old_groups);
        lemma_upsert_lookup(before, record, other);
        lemma_key_is_first_field(last, username);
        match record_spec(last, old_groups) {
            Some(user) => {
                lemma_upsert_lookup(before, user, other);
            },
            None => {},
        }
    } else {
        assert(written.drop_last() =~= rest.update(at, line));
        assert(written.last() == last);
        assert forall|j: int|
            0 <= j < rest.len() && has_key_spec(#[trigger] rest[j], username) implies j == at by {
            assert(rest[j] == passwd[j]);
        }
        assert(rest[at] == passwd[at]);
        lemma_rewrite_keeps_others(rest, old_groups, new_groups, at, line, username, other);
        if split_spec(last, ':').len() >= 7 {
            lemma_first_field_is_key(last);
            let user = record_spec(last, old_groups)->Some_0;
            assert(record_spec(last, new_groups) == Some(user));
            lemma_upsert_lookup(current_users_spec(rest, old_groups), user, other);
            lemma_upsert_lookup(
                current_users_spec(rest.update(at, line), new_groups),
                user,
                other,
            );
        }
    }
}

/// Where the diff asks for one account to be updated and for nothing else,
/// applying it and reading the current state again leaves nothing to do: the
/// diff against the same desired users is empty. This is stated for an
/// account with a name that can stand in a member list and that has one
/// identity record only, with a home, a shell and group names that hold no
/// colon, with its ids given and without a password, which no group listed
/// before except groups that it asks for.
pub proof fn lemma_single_update_settles(files: FilesView, desired: Seq<UserView>, user: UserView)
    requires
        users_diff_spec(current_users_spec(files.passwd, files.group), desired).to_update
            == seq![(user.username, user)],
        users_diff_spec(current_users_spec(files.passwd, files.group), desired).to_add.len()
            == 0,
        users_diff_spec(current_users_spec(files.passwd, files.group), desired).to_remove.len()
            == 0,
        member_name(user.username),
        !user.home.contains(':'),
        !user.shell.contains(':'),
        forall|k: int| 0 <= k < user.groups.len() ==> !(#[trigger] user.groups[k]).contains(':'),
        user.uid is Some,
        user.gid is Some,
        user.password is None,
        forall|h: Seq<char>| #[trigger]
            member_of_spec(files.group, user.username, h) ==> user.groups.contains(h),
        forall|j: int|
            0 <= j < files.passwd.len() && has_key_spec(#[trigger] files.passwd[j], user.username)
                ==> j == position_spec(files.passwd, user.username),
        update_user_spec(files, user.username, user) is Some,
    ensures
        ({
            let diff = users_diff_spec(current_users_spec(files.passwd, files.group), desired);
            let after = apply_spec(files, diff);
            let again = users_diff_spec(
                current_users_spec(after->Some_0.passwd, after->Some_0.group),
                desired,
            );
            &&& after == update_user_spec(files, user.username, user)
            &&& again.to_add.len() == 0
            &&& again.to_update.len() == 0
            &&& again.to_remove.len() == 0
        }),
{
    let name = user.username;
    let before = current_users_spec(files.passwd, files.group);
    let wanted = by_name_spec(desired);
    let diff = users_diff_spec(before, desired);
    let after = update_user_spec(files, name, user)->Some_0;
    let current = current_users_spec(after.passwd, after.group);
    assert(apply_spec(files, diff) == update_user_spec(files, name, user)) by {
        assert(add_all_spec(files, diff.to_add) == Some(files));
        assert(diff.to_update.drop_last() =~= Seq::<(Seq<char>, UserView)>::empty());
        assert(update_all_spec(files, diff.to_update.drop_last()) == Some(files));
        assert(diff.to_update.last() == (name, user));
        assert(update_all_spec(files, diff.to_update) == update_user_spec(files, name, user));
        assert(remove_all_spec(after, diff.to_remove) == after);
    }
    lemma_to_add(wanted, before);
    lemma_to_update(before, wanted);
    lemma_to_remove(before, wanted);
    assert(diff.to_update[0] == (name, user));
    assert(diff.to_update.contains((name, user)));
    assert(index_of_spec(wanted, name) >= 0 && wanted[index_of_spec(wanted, name)] == user);
    assert(has_name(before, name));
    lemma_current_names_are_on_record(files.passwd, files.group, name);
    let on_record = choose|i: int|
        0 <= i < files.passwd.len() && split_spec(#[trigger] files.passwd[i], ':').len() >= 7
            && split_spec(files.passwd[i], ':')[0] == name;
    lemma_first_field_is_key(files.passwd[on_record]);
    let at = position_spec(files.passwd, name);
    lemma_first_true(key_flags(files.passwd, name));
    assert(on_record == at);
    let uid = id_or_kept_spec(user.uid, files.passwd[at], 2);
    let gid = id_or_kept_spec(user.gid, files.passwd[at], 3);
    let line = passwd_line_spec(name, uid, gid, user.home, user.shell);
    assert(after.passwd == files.passwd.update(at, line));
    assert(after.group == update_groups_spec(files.group, name, user.groups)->Some_0);
    lemma_written_record_reads_back(name, uid, gid, user.home, user.shell, after.group);
    let record = record_spec(line, after.group)->Some_0;
    lemma_update_groups(files.group, name, user.groups);
    assert(record.groups.to_set() =~= user.groups.to_set());
    assert(same_user_spec(record, user));
    assert forall|v: Seq<char>| v != name implies #[trigger] groups_of_spec(after.group, v)
        == groups_of_spec(files.group, v) by {
        lemma_update_groups_keeps_others(files.group, name, user.groups, v);
    }
    lemma_current_users_unique(after.passwd, after.group);
    assert forall|i: int| 0 <= i < current.len() implies index_of_spec(
        wanted,
        (#[trigger] current[i]).username,
    ) >= 0 && same_user_spec(current[i], wanted[index_of_spec(wanted, current[i].username)]) by {
        let n = current[i].username;
        lemma_rewrite_keeps_others(files.passwd, files.group, after.group, at, line, name, n);
        lemma_index_of(current, n);
        let found = index_of_spec(current, n);
        assert(found == i) by {
            if found != i {
                assert(current[found].username == current[i].username);
            }
        }
        if n != name {
            lemma_index_of(before, n);
            let k = index_of_spec(before, n);
            assert(before[k] == current[i]);
            lemma_index_of(wanted, n);
            if !has_name(wanted, n) {
                assert(diff.to_remove.contains(n));
            }
            let u = wanted[index_of_spec(wanted, n)];
            if !same_user_spec(before[k], u) {
                assert(diff.to_update.contains((n, u)));
                let r = choose|r: int| 0 <= r < diff.to_update.len() && diff.to_update[r] == (n, u);
                assert(diff.to_update[r] == (name, user));
            }
        }
    }
    assert forall|j: int| 0 <= j < wanted.len() implies has_name(
        current,
        (#[trigger] wanted[j]).username,
    ) by {
        let n = wanted[j].username;
        if !has_name(before, n) {
            assert(wanted.contains(wanted[j]));
            assert(diff.to_add.contains(wanted[j]));
        }
        lemma_index_of(before, n);
        lemma_rewrite_keeps_others(files.passwd, files.group, after.group, at, line, name, n);
        lemma_index_of(current, n);
    }
    lemma_matched_users_diff_is_empty(current, desired);
}

} // verus!
