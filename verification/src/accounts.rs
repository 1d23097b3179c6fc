//! What the identity records say after they are written: a record written
//! for an account reads back as that account, and an account that was
//! removed is no longer found.

use vstd::prelude::*;
use crate::membership::{
    lemma_update_groups, lemma_update_groups_keeps_others, member_name, member_of_spec,
};
use crate::records::{first_true, lemma_first_true, without_key_spec};
use crate::text::{
    decimal_digits, has_key_spec, is_digit, join_spec, lemma_digits_value, lemma_join_of_split,
    lemma_render_then_parse, lemma_split_of_join, split_spec,
};
use crate::users::{
    add_all_spec, add_user_spec, apply_spec, by_name_spec, lemma_by_name_unique,
    lemma_matched_users_diff_is_empty, lemma_to_add, lemma_to_remove, lemma_to_update,
    users_diff_spec, current_users_spec, groups_of_spec, has_name, id_or_next_spec, index_of_spec,
    lemma_index_of, name_flags, passwd_line_spec, record_spec, remove_user_spec, same_user_spec,
    update_groups_spec, upsert_spec, FilesView, UserView,
};

verus! {

/// The identity record written for an account reads back as that account,
/// with the groups that list its name and without a password. This is stated
/// for a name, a home and a shell that hold no colon.
pub proof fn lemma_written_record_reads_back(
    username: Seq<char>,
    uid: u32,
    gid: u32,
    home: Seq<char>,
    shell: Seq<char>,
    group_lines: Seq<Seq<char>>,
)
    requires
        !username.contains(':'),
        !home.contains(':'),
        !shell.contains(':'),
    ensures
        record_spec(passwd_line_spec(username, uid, gid, home, shell), group_lines) == Some(
            UserView {
                username,
                groups: groups_of_spec(group_lines, username),
                password: None,
                shell,
                home,
                uid: Some(uid),
                gid: Some(gid),
            },
        ),
{
    let uid_digits = decimal_digits(uid as nat);
    let gid_digits = decimal_digits(gid as nat);
    lemma_digits_value(uid as nat);
    lemma_digits_value(gid as nat);
    lemma_render_then_parse(uid);
    lemma_render_then_parse(gid);
    let fields = seq![
        username,
        seq!['x'],
        uid_digits,
        gid_digits,
        Seq::<char>::empty(),
        home,
        shell,
    ];
    assert forall|i: int| 0 <= i < fields.len() implies !(#[trigger] fields[i]).contains(':') by {
        if i == 1 {
            assert forall|k: int| 0 <= k < fields[1].len() implies fields[1][k] != ':' by {}
        } else if i == 2 {
            assert forall|k: int| 0 <= k < uid_digits.len() implies uid_digits[k] != ':' by {
                assert(is_digit(uid_digits[k]));
            }
        } else if i == 3 {
            assert forall|k: int| 0 <= k < gid_digits.len() implies gid_digits[k] != ':' by {
                assert(is_digit(gid_digits[k]));
            }
        }
    }
    lemma_split_of_join(fields, ':');
}

/// A join of two or more pieces begins with the first piece and a separator.
pub proof fn lemma_join_begins(pieces: Seq<Seq<char>>, sep: char)
    requires
        pieces.len() >= 2,
    ensures
        join_spec(pieces, sep).len() > pieces[0].len(),
        join_spec(pieces, sep).take(pieces[0].len() as int) == pieces[0],
        join_spec(pieces, sep)[pieces[0].len() as int] == sep,
    decreases pieces.len(),
{
    let joined = join_spec(pieces, sep);
    let rest = pieces.drop_last();
    if pieces.len() == 2 {
        assert(join_spec(rest, sep) == pieces[0]);
        assert(joined.take(pieces[0].len() as int) =~= pieces[0]);
    } else {
        lemma_join_begins(rest, sep);
        assert(rest[0] == pieces[0]);
        let head = join_spec(rest, sep);
        assert(joined.take(pieces[0].len() as int) =~= head.take(pieces[0].len() as int));
    }
}

/// A record of two or more fields is a record of its first field.
pub proof fn lemma_first_field_is_key(line: Seq<char>)
    requires
        split_spec(line, ':').len() >= 2,
    ensures
        has_key_spec(line, split_spec(line, ':')[0]),
{
    lemma_join_of_split(line, ':');
    lemma_join_begins(split_spec(line, ':'), ':');
}

/// Every name in the current state is the first field of an identity record
/// that describes an account.
pub proof fn lemma_current_names_are_on_record(
    passwd: Seq<Seq<char>>,
    group_lines: Seq<Seq<char>>,
    name: Seq<char>,
)
    requires
        has_name(current_users_spec(passwd, group_lines), name),
    ensures
        exists|i: int|
            0 <= i < passwd.len() && split_spec(#[trigger] passwd[i], ':').len() >= 7 && split_spec(
                passwd[i],
                ':',
            )[0] == name,
    decreases passwd.len(),
{
    let current = current_users_spec(passwd, group_lines);
    if passwd.len() > 0 {
        let rest = passwd.drop_last();
        let before = current_users_spec(rest, group_lines);
        let k = choose|k: int| 0 <= k < current.len() && (#[trigger] current[k]).username == name;
        let on_last = record_spec(passwd.last(), group_lines) is Some && record_spec(
            passwd.last(),
            group_lines,
        )->Some_0.username == name;
        if on_last {
            assert(split_spec(passwd[passwd.len() - 1], ':')[0] == name);
        } else {
            match record_spec(passwd.last(), group_lines) {
                Some(user) => {
                    lemma_index_of(before, user.username);
                    let at = index_of_spec(before, user.username);
                    if at >= 0 {
                        assert(current == before.update(at, user));
                        assert(k != at);
                        assert(before[k].username == name);
                    } else {
                        assert(current == before.push(user));
                        assert(k < before.len());
                        assert(before[k].username == name);
                    }
                },
                None => {},
            }
            assert(has_name(before, name));
            lemma_current_names_are_on_record(rest, group_lines, name);
            let i = choose|i: int|
                0 <= i < rest.len() && split_spec(#[trigger] rest[i], ':').len() >= 7 && split_spec(
                    rest[i],
                    ':',
                )[0] == name;
            assert(passwd[i] == rest[i]);
        }
    }
}

/// No line that is left after the records of a key are dropped is a record
/// of that key.
pub proof fn lemma_without_key(lines: Seq<Seq<char>>, key: Seq<char>)
    ensures
        forall|i: int|
            0 <= i < without_key_spec(lines, key).len() ==> !has_key_spec(
                #[trigger] without_key_spec(lines, key)[i],
                key,
            ),
    decreases lines.len(),
{
    if lines.len() > 0 {
        lemma_without_key(lines.drop_last(), key);
        let before = without_key_spec(lines.drop_last(), key);
        let kept = without_key_spec(lines, key);
        assert forall|i: int| 0 <= i < kept.len() implies !has_key_spec(#[trigger] kept[i], key) by {
            if i < before.len() {
                assert(kept[i] == before[i]);
            }
        }
    }
}

/// An account that was removed is not in the current state any more.
pub proof fn lemma_removed_user_is_gone(files: FilesView, username: Seq<char>)
    ensures
        !has_name(
            current_users_spec(
                remove_user_spec(files, username).passwd,
                remove_user_spec(files, username).group,
            ),
            username,
        ),
{
    let after = remove_user_spec(files, username);
    if has_name(current_users_spec(after.passwd, after.group), username) {
        lemma_current_names_are_on_record(after.passwd, after.group, username);
        let i = choose|i: int|
            0 <= i < after.passwd.len() && split_spec(#[trigger] after.passwd[i], ':').len() >= 7
                && split_spec(after.passwd[i], ':')[0] == username;
        lemma_first_field_is_key(after.passwd[i]);
        lemma_without_key(files.passwd, username);
    }
}

/// A user that was put into a list is found there under its name.
pub proof fn lemma_upsert_is_found(users: Seq<UserView>, user: UserView)
    ensures
        index_of_spec(upsert_spec(users, user), user.username) >= 0,
        upsert_spec(users, user)[index_of_spec(upsert_spec(users, user), user.username)] == user,
{
    let name = user.username;
    let after = upsert_spec(users, user);
    let at = index_of_spec(users, name);
    lemma_first_true(name_flags(users, name));
    lemma_first_true(name_flags(after, name));
    let found = first_true(name_flags(after, name));
    if at >= 0 {
        assert(name_flags(after, name)[at]);
        if found < at {
            assert(name_flags(after, name)[found]);
            assert(after[found] == users[found]);
            assert(name_flags(users, name)[found]);
        }
    } else {
        assert(name_flags(after, name)[users.len() as int]);
        if found < users.len() {
            assert(name_flags(after, name)[found]);
            assert(after[found] == users[found]);
            assert(name_flags(users, name)[found]);
        }
    }
}

/// An account that was added is found in the current state with the home
/// and shell asked for, with the ids asked for or else allocated, without a
/// password, and as a member of every group asked for. This is stated for a
/// name that can stand in a member list and for a home, a shell and group
/// names that hold no colon.
pub proof fn lemma_added_user_is_found(files: FilesView, user: UserView)
    requires
        member_name(user.username),
        !user.home.contains(':'),
        !user.shell.contains(':'),
        forall|k: int| 0 <= k < user.groups.len() ==> !(#[trigger] user.groups[k]).contains(':'),
        add_user_spec(files, user) is Some,
    ensures
        ({
            let after = add_user_spec(files, user)->Some_0;
            let current = current_users_spec(after.passwd, after.group);
            let at = index_of_spec(current, user.username);
            &&& at >= 0
            &&& current[at].username == user.username
            &&& current[at].home == user.home
            &&& current[at].shell == user.shell
            &&& current[at].uid == id_or_next_spec(user.uid, files.passwd)
            &&& current[at].gid == id_or_next_spec(user.gid, files.group)
            &&& current[at].password is None
            &&& forall|h: Seq<char>| #[trigger]
                current[at].groups.contains(h) <==> member_of_spec(files.group, user.username, h)
                    || user.groups.contains(h)
        }),
{
    let after = add_user_spec(files, user)->Some_0;
    let uid = id_or_next_spec(user.uid, files.passwd)->Some_0;
    let gid = id_or_next_spec(user.gid, files.group)->Some_0;
    let line = passwd_line_spec(user.username, uid, gid, user.home, user.shell);
    assert(after.passwd == files.passwd.push(line));
    assert(after.passwd.drop_last() =~= files.passwd);
    lemma_written_record_reads_back(user.username, uid, gid, user.home, user.shell, after.group);
    let before = current_users_spec(files.passwd, after.group);
    let record = record_spec(line, after.group)->Some_0;
    assert(current_users_spec(after.passwd, after.group) == upsert_spec(before, record));
    lemma_upsert_is_found(before, record);
    lemma_update_groups(files.group, user.username, user.groups);
}

/// An account that was added with its ids given and without a password is
/// found in the current state equal to the account asked for, so that a
/// second diff does not report it as changed. This is stated for an account
/// that no group listed before, except groups that it asks for.
pub proof fn lemma_added_user_is_settled(files: FilesView, user: UserView)
    requires
        member_name(user.username),
        !user.home.contains(':'),
        !user.shell.contains(':'),
        forall|k: int| 0 <= k < user.groups.len() ==> !(#[trigger] user.groups[k]).contains(':'),
        user.uid is Some,
        user.gid is Some,
        user.password is None,
        forall|h: Seq<char>| #[trigger]
            member_of_spec(files.group, user.username, h) ==> user.groups.contains(h),
        add_user_spec(files, user) is Some,
    ensures
        ({
            let after = add_user_spec(files, user)->Some_0;
            let current = current_users_spec(after.passwd, after.group);
            let at = index_of_spec(current, user.username);
            at >= 0 && same_user_spec(current[at], user)
        }),
{
    lemma_added_user_is_found(files, user);
    let after = add_user_spec(files, user)->Some_0;
    let current = current_users_spec(after.passwd, after.group);
    let at = index_of_spec(current, user.username);
    assert(current[at].groups.to_set() =~= user.groups.to_set());
}

/// Putting a user into a list leaves every name that the list held.
pub proof fn lemma_upsert_keeps_names(users: Seq<UserView>, user: UserView, name: Seq<char>)
    requires
        has_name(users, name),
    ensures
        has_name(upsert_spec(users, user), name),
{
    let after = upsert_spec(users, user);
    let k = choose|k: int| 0 <= k < users.len() && (#[trigger] users[k]).username == name;
    lemma_index_of(users, user.username);
    let at = index_of_spec(users, user.username);
    if at >= 0 && k == at {
        assert(after[at].username == name);
    } else {
        assert(after[k] == users[k]);
        assert(after[k].username == name);
    }
}

/// The name of every identity record that describes an account is a name in
/// the current state.
pub proof fn lemma_record_names_are_current(
    passwd: Seq<Seq<char>>,
    group_lines: Seq<Seq<char>>,
    i: int,
)
    requires
        0 <= i < passwd.len(),
        record_spec(passwd[i], group_lines) is Some,
    ensures
        has_name(
            current_users_spec(passwd, group_lines),
            record_spec(passwd[i], group_lines)->Some_0.username,
        ),
    decreases passwd.len(),
{
    let name = record_spec(passwd[i], group_lines)->Some_0.username;
    let rest = passwd.drop_last();
    let before = current_users_spec(rest, group_lines);
    if i == passwd.len() - 1 {
        let user = record_spec(passwd.last(), group_lines)->Some_0;
        lemma_upsert_is_found(before, user);
        lemma_index_of(upsert_spec(before, user), user.username);
    } else {
        assert(rest[i] == passwd[i]);
        lemma_record_names_are_current(rest, group_lines, i);
        match record_spec(passwd.last(), group_lines) {
            Some(user) => {
                lemma_upsert_keeps_names(before, user, name);
            },
            None => {},
        }
    }
}

/// The current state depends on the group records only through the groups of
/// the accounts on record.
pub proof fn lemma_current_with_same_groups(
    passwd: Seq<Seq<char>>,
    a: Seq<Seq<char>>,
    b: Seq<Seq<char>>,
)
    requires
        forall|i: int|
            0 <= i < passwd.len() && split_spec(#[trigger] passwd[i], ':').len() >= 7
                ==> groups_of_spec(a, split_spec(passwd[i], ':')[0]) == groups_of_spec(
                b,
                split_spec(passwd[i], ':')[0],
            ),
    ensures
        current_users_spec(passwd, a) == current_users_spec(passwd, b),
    decreases passwd.len(),
{
    if passwd.len() > 0 {
        let rest = passwd.drop_last();
        assert forall|i: int|
            0 <= i < rest.len() && split_spec(#[trigger] rest[i], ':').len() >= 7 implies groups_of_spec(
            a,
            split_spec(rest[i], ':')[0],
        ) == groups_of_spec(b, split_spec(rest[i], ':')[0]) by {
            assert(rest[i] == passwd[i]);
        }
        lemma_current_with_same_groups(rest, a, b);
        assert(passwd.last() == passwd[passwd.len() - 1]);
    }
}

/// Adding an account under a name that the current state does not hold
/// changes the current state by exactly one account, put last: the account
/// found for the new name. Every other account is found as it was.
pub proof fn lemma_add_appends(files: FilesView, user: UserView)
    requires
        member_name(user.username),
        !user.home.contains(':'),
        !user.shell.contains(':'),
        forall|k: int| 0 <= k < user.groups.len() ==> !(#[trigger] user.groups[k]).contains(':'),
        !has_name(current_users_spec(files.passwd, files.group), user.username),
        add_user_spec(files, user) is Some,
    ensures
        ({
            let before = current_users_spec(files.passwd, files.group);
            let after = add_user_spec(files, user)->Some_0;
            let current = current_users_spec(after.passwd, after.group);
            &&& current.len() == before.len() + 1
            &&& current.drop_last() == before
            &&& index_of_spec(current, user.username) == before.len()
        }),
{
    let before = current_users_spec(files.passwd, files.group);
    let after = add_user_spec(files, user)->Some_0;
    let uid = id_or_next_spec(user.uid, files.passwd)->Some_0;
    let gid = id_or_next_spec(user.gid, files.group)->Some_0;
    let line = passwd_line_spec(user.username, uid, gid, user.home, user.shell);
    assert(after.passwd.drop_last() =~= files.passwd);
    assert(after.group == update_groups_spec(files.group, user.username, user.groups)->Some_0);
    assert forall|i: int|
        0 <= i < files.passwd.len() && split_spec(#[trigger] files.passwd[i], ':').len()
            >= 7 implies groups_of_spec(after.group, split_spec(files.passwd[i], ':')[0])
        == groups_of_spec(files.group, split_spec(files.passwd[i], ':')[0]) by {
        let name = split_spec(files.passwd[i], ':')[0];
        lemma_record_names_are_current(files.passwd, files.group, i);
        lemma_update_groups_keeps_others(files.group, user.username, user.groups, name);
    }
    lemma_current_with_same_groups(files.passwd, after.group, files.group);
    lemma_written_record_reads_back(user.username, uid, gid, user.home, user.shell, after.group);
    let record = record_spec(line, after.group)->Some_0;
    lemma_index_of(before, user.username);
    let current = current_users_spec(after.passwd, after.group);
    assert(current == before.push(record));
    assert(current.drop_last() =~= before);
    lemma_upsert_is_found(before, record);
    lemma_first_true(name_flags(current, user.username));
    let found = index_of_spec(current, user.username);
    if found < before.len() {
        assert(name_flags(current, user.username)[found]);
        assert(current[found] == before[found]);
    }
}

/// Where the diff asks for one account to be added and for nothing else,
/// applying it and reading the current state again leaves nothing to do: the
/// diff against the same desired users is empty. This is stated for an
/// account with a name that can stand in a member list, with a home, a shell
/// and group names that hold no colon, with its ids given and without a
/// password, which no group listed before except groups that it asks for.
pub proof fn lemma_single_addition_settles(
    files: FilesView,
    desired: Seq<UserView>,
    user: UserView,
)
    requires
        users_diff_spec(current_users_spec(files.passwd, files.group), desired).to_add
            == seq![user],
        users_diff_spec(current_users_spec(files.passwd, files.group), desired).to_update.len()
            == 0,
        users_diff_spec(current_users_spec(files.passwd, files.group), desired).to_remove.len()
            == 0,
        member_name(user.username),
        !user.home.contains(':'),
        !user.shell.contains(':'),
        forall|k: int| 0 <= k < user.groups.len() ==> !(#[trigger] user.groups[k]).contains(':'),
        user.uid is Some,
        user.gid is Some,
        user.password is None,
        forall|h: Seq<char>| #[trigger]
            member_of_spec(files.group, user.username, h) ==> user.groups.contains(h),
        add_user_spec(files, user) is Some,
    ensures
        ({
            let diff = users_diff_spec(current_users_spec(files.passwd, files.group), desired);
            let after = apply_spec(files, diff);
            &&& after == add_user_spec(files, user)
            &&& users_diff_spec(
                current_users_spec(after->Some_0.passwd, after->Some_0.group),
                desired,
            ).to_add.len() == 0
            &&& users_diff_spec(
                current_users_spec(after->Some_0.passwd, after->Some_0.group),
                desired,
            ).to_update.len() == 0
            &&& users_diff_spec(
                current_users_spec(after->Some_0.passwd, after->Some_0.group),
                desired,
            ).to_remove.len() == 0
        }),
{
    let before = current_users_spec(files.passwd, files.group);
    let wanted = by_name_spec(desired);
    let diff = users_diff_spec(before, desired);
    let after = add_user_spec(files, user)->Some_0;
    assert(apply_spec(files, diff) == add_user_spec(files, user)) by {
        assert(diff.to_add.drop_last() =~= Seq::<UserView>::empty());
        assert(add_all_spec(files, diff.to_add.drop_last()) == Some(files));
        assert(diff.to_add.last() == user);
        assert(add_all_spec(files, diff.to_add) == add_user_spec(files, user));
    }
    lemma_to_add(wanted, before);
    lemma_to_update(before, wanted);
    lemma_to_remove(before, wanted);
    assert(diff.to_add[0] == user);
    assert(diff.to_add.contains(user));
    assert(wanted.contains(user) && !has_name(before, user.username));
    lemma_add_appends(files, user);
    lemma_added_user_is_settled(files, user);
    lemma_by_name_unique(desired);
    let current = current_users_spec(after.passwd, after.group);
    let at = choose|j: int| 0 <= j < wanted.len() && wanted[j] == user;
    lemma_index_of(wanted, user.username);
    assert(wanted[index_of_spec(wanted, user.username)] == user) by {
        let found = index_of_spec(wanted, user.username);
        if found != at {
            assert(wanted[found].username == wanted[at].username);
        }
    }
    assert forall|i: int| 0 <= i < current.len() implies index_of_spec(
        wanted,
        (#[trigger] current[i]).username,
    ) >= 0 && same_user_spec(current[i], wanted[index_of_spec(wanted, current[i].username)]) by {
        if i < before.len() {
            assert(current[i] == current.drop_last()[i]);
            let name = before[i].username;
            lemma_index_of(wanted, name);
            if !has_name(wanted, name) {
                assert(has_name(before, name));
                assert(diff.to_remove.contains(name));
            }
            let u = wanted[index_of_spec(wanted, name)];
            if !same_user_spec(before[i], u) {
                assert(diff.to_update.contains((name, u)));
            }
        }
    }
    assert forall|j: int| 0 <= j < wanted.len() implies has_name(
        current,
        (#[trigger] wanted[j]).username,
    ) by {
        if has_name(before, wanted[j].username) {
            let i = choose|i: int|
                0 <= i < before.len() && (#[trigger] before[i]).username == wanted[j].username;
            assert(current.drop_last()[i] == current[i]);
            assert(current[i].username == wanted[j].username);
        } else {
            assert(wanted.contains(wanted[j]));
            assert(diff.to_add.contains(wanted[j]));
            let k = choose|k: int| 0 <= k < diff.to_add.len() && diff.to_add[k] == wanted[j];
            assert(wanted[j] == user);
            assert(current[before.len() as int].username == user.username);
        }
    }
    lemma_matched_users_diff_is_empty(current, desired);
}

} // verus!
