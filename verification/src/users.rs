//! The users domain: local accounts kept in the identity, credential and
//! group databases.

use vstd::prelude::*;
use vstd::string::*;
use crate::declaration_trait::Declaration;
use crate::error::DeclarativeAlpineError;
use crate::records::{
    first_true, lemma_first_true, next_id, next_id_spec, position, position_spec, remove_keyed,
    without_key_spec,
};
use crate::text::{
    contains_text, copy_strings, copy_text, decimal_digits, from_chars, join, join_spec, members,
    members_spec, numeric_field, numeric_field_spec, option_text, parse_u32, parse_u32_spec,
    lines_spec, render_lines, render_lines_spec, render_u32, same_members, same_text, split,
    split_lines, split_spec, string_views, to_chars, to_strings, to_texts, views,
};

verus! {

/// A user account, as desired or as found.
#[derive(Debug, Clone, PartialEq)]
pub struct User {
    pub username: String,
    pub groups: Vec<String>,
    /// Desired credential; never filled in when read from the system.
    pub password: Option<String>,
    pub shell: String,
    pub home: String,
    pub uid: Option<u32>,
    pub gid: Option<u32>,
}

/// What a [`User`] holds, as plain text and numbers.
pub struct UserView {
    pub username: Seq<char>,
    pub groups: Seq<Seq<char>>,
    pub password: Option<Seq<char>>,
    pub shell: Seq<char>,
    pub home: Seq<char>,
    pub uid: Option<u32>,
    pub gid: Option<u32>,
}

impl View for User {
    type V = UserView;

    open spec fn view(&self) -> UserView {
        UserView {
            username: self.username@,
            groups: string_views(self.groups@),
            password: option_text(self.password),
            shell: self.shell@,
            home: self.home@,
            uid: self.uid,
            gid: self.gid,
        }
    }
}

/// What each user of a list holds.
pub open spec fn user_views(users: Seq<User>) -> Seq<UserView> {
    Seq::new(users.len(), |i: int| users[i]@)
}

/// Whether two users agree in every field, the password included. The
/// groups are a set: their order and repetitions do not count.
pub open spec fn same_user_spec(a: UserView, b: UserView) -> bool {
    &&& a.username == b.username
    &&& a.groups.to_set() == b.groups.to_set()
    &&& a.password == b.password
    &&& a.shell == b.shell
    &&& a.home == b.home
    &&& a.uid == b.uid
    &&& a.gid == b.gid
}

impl User {
    /// Whether two users agree in every field, the password included.
    pub fn same_as(&self, other: &User) -> (r: bool)
        ensures
            r == same_user_spec(self@, other@),
    {
        let same_password = match (&self.password, &other.password) {
            (Some(a), Some(b)) => *a == *b,
            (None, None) => true,
            _ => false,
        };
        let same_uid = match (self.uid, other.uid) {
            (Some(a), Some(b)) => a == b,
            (None, None) => true,
            _ => false,
        };
        let same_gid = match (self.gid, other.gid) {
            (Some(a), Some(b)) => a == b,
            (None, None) => true,
            _ => false,
        };
        self.username == other.username && same_members(&self.groups, &other.groups)
            && same_password && self.shell == other.shell && self.home == other.home && same_uid
            && same_gid
    }

    /// A copy that holds the same values.
    pub fn duplicate(&self) -> (r: User)
        ensures
            r@ == self@,
    {
        let password = match &self.password {
            Some(p) => Some(p.clone()),
            None => None,
        };
        User {
            username: self.username.clone(),
            groups: copy_strings(&self.groups),
            password,
            shell: self.shell.clone(),
            home: self.home.clone(),
            uid: self.uid,
            gid: self.gid,
        }
    }
}

/// The id in field 2 of an identity record, or 1000 where there is none.
pub fn parse_uid_from_line(line: &str) -> (r: u32)
    ensures
        r == match numeric_field_spec(line@, 2) {
            Some(v) => v,
            None => 1000u32,
        },
{
    match numeric_field(&to_chars(line), 2) {
        Some(v) => v,
        None => 1000,
    }
}

/// The id in field 3 of an identity record, or 1000 where there is none.
pub fn parse_gid_from_line(line: &str) -> (r: u32)
    ensures
        r == match numeric_field_spec(line@, 3) {
            Some(v) => v,
            None => 1000u32,
        },
{
    match numeric_field(&to_chars(line), 3) {
        Some(v) => v,
        None => 1000,
    }
}

/// The next free user id: one above the highest id in the identity records,
/// and at least 1000. Fails only when that id does not fit.
pub fn get_next_uid(passwd_lines: &Vec<String>) -> (r: Result<u32, DeclarativeAlpineError>)
    ensures
        r is Ok <==> next_id_spec(string_views(passwd_lines@), 2) is Some,
        r is Ok ==> Some(r->Ok_0) == next_id_spec(string_views(passwd_lines@), 2),
        r is Err ==> r->Err_0 is Unknown,
{
    match next_id(passwd_lines, 2) {
        Some(id) => Ok(id),
        None => Err(DeclarativeAlpineError::Unknown),
    }
}

/// The next free group id: one above the highest id in the group records,
/// and at least 1000. Fails only when that id does not fit.
pub fn get_next_gid(group_lines: &Vec<String>) -> (r: Result<u32, DeclarativeAlpineError>)
    ensures
        r is Ok <==> next_id_spec(string_views(group_lines@), 2) is Some,
        r is Ok ==> Some(r->Ok_0) == next_id_spec(string_views(group_lines@), 2),
        r is Err ==> r->Err_0 is Unknown,
{
    match next_id(group_lines, 2) {
        Some(id) => Ok(id),
        None => Err(DeclarativeAlpineError::Unknown),
    }
}

/// The members that a group record lists; a record of fewer than four fields
/// lists none.
pub open spec fn line_members_spec(line: Seq<char>) -> Seq<Seq<char>> {
    let parts = split_spec(line, ':');
    if parts.len() >= 4 {
        members_spec(parts[3])
    } else {
        Seq::<Seq<char>>::empty()
    }
}

/// The names of the groups whose records list `username`, in record order.
pub open spec fn groups_of_spec(group_lines: Seq<Seq<char>>, username: Seq<char>) -> Seq<Seq<char>>
    decreases group_lines.len(),
{
    if group_lines.len() == 0 {
        Seq::<Seq<char>>::empty()
    } else {
        let before = groups_of_spec(group_lines.drop_last(), username);
        if line_members_spec(group_lines.last()).contains(username) {
            before.push(split_spec(group_lines.last(), ':')[0])
        } else {
            before
        }
    }
}

/// Collects the groups that list `username` as a member.
pub fn get_groups_for_user(group_lines: &Vec<String>, username: &str) -> (groups: Vec<String>)
    ensures
        string_views(groups@) == groups_of_spec(string_views(group_lines@), username@),
{
    let name = to_chars(username);
    let mut groups: Vec<String> = Vec::new();
    let mut i: usize = 0;
    proof {
        assert(string_views(group_lines@).take(0) =~= Seq::<Seq<char>>::empty());
        assert(string_views(groups@) =~= Seq::<Seq<char>>::empty());
    }
    while i < group_lines.len()
        invariant
            i <= group_lines.len(),
            name@ == username@,
            string_views(groups@) == groups_of_spec(
                string_views(group_lines@).take(i as int),
                username@,
            ),
        decreases group_lines.len() - i,
    {
        proof {
            let t = string_views(group_lines@).take(i as int + 1);
            assert(t.drop_last() =~= string_views(group_lines@).take(i as int));
            assert(t.last() == group_lines@[i as int]@);
        }
        let parts = split(&to_chars(group_lines[i].as_str()), ':');
        if parts.len() >= 4 {
            let listed = members(&parts[3]);
            proof {
                assert(views(parts@)[3] == parts@[3]@);
                assert(views(parts@)[0] == parts@[0]@);
            }
            if contains_text(&listed, &name) {
                let ghost before = string_views(groups@);
                groups.push(from_chars(&parts[0]));
                proof {
                    assert(string_views(groups@) =~= before.push(parts@[0]@));
                }
            }
        } else {
            proof {
                assert(!Seq::<Seq<char>>::empty().contains(username@));
            }
        }
        i += 1;
    }
    proof {
        assert(string_views(group_lines@).take(group_lines.len() as int) =~= string_views(
            group_lines@,
        ));
    }
    groups
}

/// For each user, whether it bears `name`.
pub open spec fn name_flags(users: Seq<UserView>, name: Seq<char>) -> Seq<bool> {
    Seq::new(users.len(), |i: int| users[i].username == name)
}

/// The position of the first user named `name`, or -1.
pub open spec fn index_of_spec(users: Seq<UserView>, name: Seq<char>) -> int {
    first_true(name_flags(users, name))
}

/// Finds the first user named `name`.
pub fn index_of(users: &Vec<User>, name: &String) -> (r: Option<usize>)
    ensures
        r is Some ==> r->Some_0 < users.len() && index_of_spec(user_views(users@), name@)
            == r->Some_0 as int,
        r is None ==> index_of_spec(user_views(users@), name@) == -1,
{
    let ghost flags = name_flags(user_views(users@), name@);
    let mut i: usize = 0;
    while i < users.len()
        invariant
            i <= users.len(),
            flags == name_flags(user_views(users@), name@),
            forall|j: int| 0 <= j < i ==> !#[trigger] flags[j],
        decreases users.len() - i,
    {
        if users[i].username == *name {
            proof {
                lemma_first_true(flags);
                assert(flags[i as int]);
            }
            return Some(i);
        }
        proof {
            assert(!flags[i as int]);
        }
        i += 1;
    }
    proof {
        lemma_first_true(flags);
    }
    None
}

/// The list with `user` in the place of the first user of the same name, or
/// at the end where no user bears that name.
pub open spec fn upsert_spec(users: Seq<UserView>, user: UserView) -> Seq<UserView> {
    let i = index_of_spec(users, user.username);
    if i >= 0 {
        users.update(i, user)
    } else {
        users.push(user)
    }
}

/// Puts `user` in the place of the user of the same name, or at the end.
pub fn upsert(users: &mut Vec<User>, user: User)
    ensures
        user_views(final(users)@) == upsert_spec(user_views(old(users)@), user@),
{
    let ghost before = user_views(users@);
    match index_of(users, &user.username) {
        Some(i) => {
            users.set(i, user);
            proof {
                assert(user_views(users@) =~= before.update(i as int, user@));
            }
        },
        None => {
            users.push(user);
            proof {
                assert(user_views(users@) =~= before.push(user@));
            }
        },
    }
}

/// The users keyed by name: of several users with one name the last one
/// counts, in the place of the first.
pub open spec fn by_name_spec(users: Seq<UserView>) -> Seq<UserView>
    decreases users.len(),
{
    if users.len() == 0 {
        Seq::<UserView>::empty()
    } else {
        upsert_spec(by_name_spec(users.drop_last()), users.last())
    }
}

/// Keys a list of users by name.
pub fn by_name(users: &Vec<User>) -> (out: Vec<User>)
    ensures
        user_views(out@) == by_name_spec(user_views(users@)),
{
    let mut out: Vec<User> = Vec::new();
    let mut i: usize = 0;
    proof {
        assert(user_views(users@).take(0) =~= Seq::<UserView>::empty());
        assert(user_views(out@) =~= Seq::<UserView>::empty());
    }
    while i < users.len()
        invariant
            i <= users.len(),
            user_views(out@) == by_name_spec(user_views(users@).take(i as int)),
        decreases users.len() - i,
    {
        proof {
            let t = user_views(users@).take(i as int + 1);
            assert(t.drop_last() =~= user_views(users@).take(i as int));
            assert(t.last() == users@[i as int]@);
        }
        upsert(&mut out, users[i].duplicate());
        i += 1;
    }
    proof {
        assert(user_views(users@).take(users.len() as int) =~= user_views(users@));
    }
    out
}

/// The account that an identity record describes: a record of at least seven
/// fields gives name, ids, home and shell, and the groups that list the name;
/// the password is never read. A shorter record describes no account.
pub open spec fn record_spec(line: Seq<char>, group_lines: Seq<Seq<char>>) -> Option<UserView> {
    let parts = split_spec(line, ':');
    if parts.len() >= 7 {
        Some(
            UserView {
                username: parts[0],
                groups: groups_of_spec(group_lines, parts[0]),
                password: None,
                shell: parts[6],
                home: parts[5],
                uid: parse_u32_spec(parts[2]),
                gid: parse_u32_spec(parts[3]),
            },
        )
    } else {
        None
    }
}

/// Reads the account that an identity record describes.
pub fn read_record(line: &str, group_lines: &Vec<String>) -> (r: Option<User>)
    ensures
        r is Some <==> record_spec(line@, string_views(group_lines@)) is Some,
        r is Some ==> Some(r->Some_0@) == record_spec(line@, string_views(group_lines@)),
{
    let parts = split(&to_chars(line), ':');
    if parts.len() >= 7 {
        proof {
            assert(views(parts@)[0] == parts@[0]@);
            assert(views(parts@)[2] == parts@[2]@);
            assert(views(parts@)[3] == parts@[3]@);
            assert(views(parts@)[5] == parts@[5]@);
            assert(views(parts@)[6] == parts@[6]@);
        }
        let username = from_chars(&parts[0]);
        let groups = get_groups_for_user(group_lines, username.as_str());
        Some(
            User {
                username,
                groups,
                password: None,
                shell: from_chars(&parts[6]),
                home: from_chars(&parts[5]),
                uid: parse_u32(&parts[2]),
                gid: parse_u32(&parts[3]),
            },
        )
    } else {
        None
    }
}

/// The accounts that the identity records describe, keyed by name.
pub open spec fn current_users_spec(
    passwd: Seq<Seq<char>>,
    group_lines: Seq<Seq<char>>,
) -> Seq<UserView>
    decreases passwd.len(),
{
    if passwd.len() == 0 {
        Seq::<UserView>::empty()
    } else {
        let before = current_users_spec(passwd.drop_last(), group_lines);
        match record_spec(passwd.last(), group_lines) {
            Some(user) => upsert_spec(before, user),
            None => before,
        }
    }
}

/// The three databases of the users domain, as lists of lines.
#[derive(Debug)]
pub struct UserFiles {
    pub passwd: Vec<String>,
    pub shadow: Vec<String>,
    pub group: Vec<String>,
}

/// The lines of a [`UserFiles`].
pub struct FilesView {
    pub passwd: Seq<Seq<char>>,
    pub shadow: Seq<Seq<char>>,
    pub group: Seq<Seq<char>>,
}

impl View for UserFiles {
    type V = FilesView;

    open spec fn view(&self) -> FilesView {
        FilesView {
            passwd: string_views(self.passwd@),
            shadow: string_views(self.shadow@),
            group: string_views(self.group@),
        }
    }
}

/// A snapshot of the three databases and of their backup copies, if any.
#[derive(Debug)]
pub struct UsersStore {
    pub files: UserFiles,
    pub backup: Option<UserFiles>,
}

/// What a [`UsersStore`] holds.
pub struct SnapshotView {
    pub files: FilesView,
    pub backup: Option<FilesView>,
}

impl View for UsersStore {
    type V = SnapshotView;

    open spec fn view(&self) -> SnapshotView {
        SnapshotView {
            files: self.files@,
            backup: match self.backup {
                Some(b) => Some(b@),
                None => None,
            },
        }
    }
}

/// What separates the accounts found from the accounts desired.
#[derive(Debug)]
pub struct UsersDiff {
    pub to_add: Vec<User>,
    pub to_update: Vec<(String, User)>,
    pub to_remove: Vec<String>,
}

/// What a [`UsersDiff`] holds.
pub struct DiffView {
    pub to_add: Seq<UserView>,
    pub to_update: Seq<(Seq<char>, UserView)>,
    pub to_remove: Seq<Seq<char>>,
}

/// What each entry of an update list holds.
pub open spec fn update_views(updates: Seq<(String, User)>) -> Seq<(Seq<char>, UserView)> {
    Seq::new(updates.len(), |i: int| (updates[i].0@, updates[i].1@))
}

impl View for UsersDiff {
    type V = DiffView;

    open spec fn view(&self) -> DiffView {
        DiffView {
            to_add: user_views(self.to_add@),
            to_update: update_views(self.to_update@),
            to_remove: string_views(self.to_remove@),
        }
    }
}

/// The desired users whose name no current user bears, in desired order.
pub open spec fn to_add_spec(desired: Seq<UserView>, current: Seq<UserView>) -> Seq<UserView>
    decreases desired.len(),
{
    if desired.len() == 0 {
        Seq::<UserView>::empty()
    } else {
        let before = to_add_spec(desired.drop_last(), current);
        if index_of_spec(current, desired.last().username) >= 0 {
            before
        } else {
            before.push(desired.last())
        }
    }
}

/// For each current user whose name a desired user bears and who differs from
/// it in any field: the name and the desired user, in current order.
pub open spec fn to_update_spec(current: Seq<UserView>, desired: Seq<UserView>) -> Seq<
    (Seq<char>, UserView),
>
    decreases current.len(),
{
    if current.len() == 0 {
        Seq::<(Seq<char>, UserView)>::empty()
    } else {
        let before = to_update_spec(current.drop_last(), desired);
        let i = index_of_spec(desired, current.last().username);
        if i >= 0 && !same_user_spec(current.last(), desired[i]) {
            before.push((current.last().username, desired[i]))
        } else {
            before
        }
    }
}

/// The names of the current users whose name no desired user bears, in
/// current order.
pub open spec fn to_remove_spec(current: Seq<UserView>, desired: Seq<UserView>) -> Seq<Seq<char>>
    decreases current.len(),
{
    if current.len() == 0 {
        Seq::<Seq<char>>::empty()
    } else {
        let before = to_remove_spec(current.drop_last(), desired);
        if index_of_spec(desired, current.last().username) >= 0 {
            before
        } else {
            before.push(current.last().username)
        }
    }
}

/// The diff between the current and the desired users; the desired ones are
/// first keyed by name.
pub open spec fn users_diff_spec(current: Seq<UserView>, desired: Seq<UserView>) -> DiffView {
    DiffView {
        to_add: to_add_spec(by_name_spec(desired), current),
        to_update: to_update_spec(current, by_name_spec(desired)),
        to_remove: to_remove_spec(current, by_name_spec(desired)),
    }
}

/// The users domain.
#[derive(Debug)]
pub struct UsersDeclaration;

impl Declaration for UsersDeclaration {
    type Desired = Vec<User>;

    type Current = Vec<User>;

    type Diff = UsersDiff;

    type Store = UsersStore;

    /// Reading a snapshot never fails; the accounts are those that the
    /// identity records describe.
    open spec fn current_post(
        &self,
        store: &UsersStore,
        r: Result<Vec<User>, DeclarativeAlpineError>,
    ) -> bool {
        &&& r is Ok
        &&& user_views(r->Ok_0@) == current_users_spec(store@.files.passwd, store@.files.group)
    }

    /// The diff is the three-way classification by name.
    open spec fn diff_post(&self, current: &Vec<User>, desired: &Vec<User>, diff: UsersDiff) -> bool {
        diff@ == users_diff_spec(user_views(current@), user_views(desired@))
    }

    /// A dry run changes nothing. Otherwise the databases as they were are
    /// the backup and the new ones hold every change; where an id does not
    /// fit, the call fails and nothing changes. No command is ever due.
    open spec fn apply_post(
        &self,
        before: UsersStore,
        after: UsersStore,
        diff: &UsersDiff,
        dry_run: bool,
        r: Result<bool, DeclarativeAlpineError>,
    ) -> bool {
        &&& dry_run ==> r == Ok::<bool, DeclarativeAlpineError>(false) && after@ == before@
        &&& !dry_run && apply_spec(before@.files, diff@) is Some ==> r == Ok::<
            bool,
            DeclarativeAlpineError,
        >(false) && after@ == (SnapshotView {
            files: apply_spec(before@.files, diff@)->Some_0,
            backup: Some(before@.files),
        })
        &&& !dry_run && apply_spec(before@.files, diff@) is None ==> r is Err && r->Err_0
            is Unknown && after@ == before@
    }

    /// The accounts on record, keyed by name. Records of fewer than seven
    /// fields are passed over.
    fn get_current(&self, store: &UsersStore) -> (r: Result<Vec<User>, DeclarativeAlpineError>) {
        let passwd = &store.files.passwd;
        let mut current: Vec<User> = Vec::new();
        let mut i: usize = 0;
        proof {
            assert(string_views(passwd@).take(0) =~= Seq::<Seq<char>>::empty());
            assert(user_views(current@) =~= Seq::<UserView>::empty());
        }
        while i < passwd.len()
            invariant
                i <= passwd.len(),
                passwd == &store.files.passwd,
                user_views(current@) == current_users_spec(
                    string_views(passwd@).take(i as int),
                    store@.files.group,
                ),
            decreases passwd.len() - i,
        {
            proof {
                let t = string_views(passwd@).take(i as int + 1);
                assert(t.drop_last() =~= string_views(passwd@).take(i as int));
                assert(t.last() == passwd@[i as int]@);
            }
            match read_record(passwd[i].as_str(), &store.files.group) {
                Some(user) => {
                    upsert(&mut current, user);
                },
                None => {},
            }
            i += 1;
        }
        proof {
            assert(string_views(passwd@).take(passwd.len() as int) =~= string_views(passwd@));
        }
        Ok(current)
    }

    /// Classifies by name: desired and not current is to add; in both and
    /// unequal in any field is to update; current and not desired is to
    /// remove.
    fn compute_diff(&self, current: &Vec<User>, desired: &Vec<User>) -> (diff: UsersDiff) {
        let wanted = by_name(desired);
        let mut to_add: Vec<User> = Vec::new();
        let mut to_update: Vec<(String, User)> = Vec::new();
        let mut to_remove: Vec<String> = Vec::new();
        let mut i: usize = 0;
        proof {
            assert(user_views(wanted@).take(0) =~= Seq::<UserView>::empty());
            assert(user_views(to_add@) =~= Seq::<UserView>::empty());
        }
        while i < wanted.len()
            invariant
                i <= wanted.len(),
                user_views(to_add@) == to_add_spec(
                    user_views(wanted@).take(i as int),
                    user_views(current@),
                ),
            decreases wanted.len() - i,
        {
            proof {
                let t = user_views(wanted@).take(i as int + 1);
                assert(t.drop_last() =~= user_views(wanted@).take(i as int));
                assert(t.last() == wanted@[i as int]@);
            }
            if index_of(current, &wanted[i].username).is_none() {
                let ghost before = user_views(to_add@);
                to_add.push(wanted[i].duplicate());
                proof {
                    assert(user_views(to_add@) =~= before.push(wanted@[i as int]@));
                }
            }
            i += 1;
        }
        proof {
            assert(user_views(wanted@).take(wanted.len() as int) =~= user_views(wanted@));
            assert(user_views(current@).take(0) =~= Seq::<UserView>::empty());
            assert(update_views(to_update@) =~= Seq::<(Seq<char>, UserView)>::empty());
            assert(string_views(to_remove@) =~= Seq::<Seq<char>>::empty());
        }
        let mut k: usize = 0;
        while k < current.len()
            invariant
                k <= current.len(),
                update_views(to_update@) == to_update_spec(
                    user_views(current@).take(k as int),
                    user_views(wanted@),
                ),
                string_views(to_remove@) == to_remove_spec(
                    user_views(current@).take(k as int),
                    user_views(wanted@),
                ),
            decreases current.len() - k,
        {
            proof {
                let t = user_views(current@).take(k as int + 1);
                assert(t.drop_last() =~= user_views(current@).take(k as int));
                assert(t.last() == current@[k as int]@);
            }
            match index_of(&wanted, &current[k].username) {
                Some(j) => {
                    proof {
                        assert(user_views(wanted@)[j as int] == wanted@[j as int]@);
                    }
                    if !current[k].same_as(&wanted[j]) {
                        let ghost before = update_views(to_update@);
                        to_update.push((current[k].username.clone(), wanted[j].duplicate()));
                        proof {
                            assert(update_views(to_update@) =~= before.push(
                                (current@[k as int]@.username, wanted@[j as int]@),
                            ));
                        }
                    }
                },
                None => {
                    let ghost before = string_views(to_remove@);
                    to_remove.push(current[k].username.clone());
                    proof {
                        assert(string_views(to_remove@) =~= before.push(
                            current@[k as int]@.username,
                        ));
                    }
                },
            }
            k += 1;
        }
        proof {
            assert(user_views(current@).take(current.len() as int) =~= user_views(current@));
        }
        UsersDiff { to_add, to_update, to_remove }
    }

    /// Applies a diff to the three databases: additions, then updates, then
    /// removals. A dry run changes nothing. Otherwise the databases as they
    /// were become the backup, and the new ones hold every change. Where an
    /// id that has to be allocated does not fit, the call fails and the
    /// snapshot, backup included, stays as it was. The passwords in the diff
    /// are stored as they stand.
    fn apply(&self, store: &mut UsersStore, diff: &UsersDiff, dry_run: bool) -> (r: Result<
        bool,
        DeclarativeAlpineError,
    >) {
        if dry_run {
            return Ok(false);
        }
        let mut work = store.files.duplicate();
        let mut i: usize = 0;
        proof {
            assert(user_views(diff.to_add@).take(0) =~= Seq::<UserView>::empty());
        }
        while i < diff.to_add.len()
            invariant
                i <= diff.to_add.len(),
                store == old(store),
                !dry_run,
                Some(work@) == add_all_spec(store@.files, user_views(diff.to_add@).take(i as int)),
            decreases diff.to_add.len() - i,
        {
            proof {
                let t = user_views(diff.to_add@).take(i as int + 1);
                assert(t.drop_last() =~= user_views(diff.to_add@).take(i as int));
                assert(t.last() == diff.to_add@[i as int]@);
            }
            match work.add_user(&diff.to_add[i]) {
                Ok(()) => {},
                Err(e) => {
                    proof {
                        lemma_add_all_fails(store@.files, user_views(diff.to_add@), i as int + 1);
                    }
                    return Err(e);
                },
            }
            i += 1;
        }
        let ghost added = work@;
        proof {
            assert(user_views(diff.to_add@).take(diff.to_add.len() as int) =~= user_views(
                diff.to_add@,
            ));
            assert(update_views(diff.to_update@).take(0) =~= Seq::<(Seq<char>, UserView)>::empty());
        }
        let mut j: usize = 0;
        while j < diff.to_update.len()
            invariant
                j <= diff.to_update.len(),
                store == old(store),
                !dry_run,
                Some(added) == add_all_spec(store@.files, diff@.to_add),
                Some(work@) == update_all_spec(added, update_views(diff.to_update@).take(j as int)),
            decreases diff.to_update.len() - j,
        {
            proof {
                let t = update_views(diff.to_update@).take(j as int + 1);
                assert(t.drop_last() =~= update_views(diff.to_update@).take(j as int));
                assert(t.last() == (diff.to_update@[j as int].0@, diff.to_update@[j as int].1@));
            }
            match work.update_user(diff.to_update[j].0.as_str(), &diff.to_update[j].1) {
                Ok(()) => {},
                Err(e) => {
                    proof {
                        lemma_update_all_fails(added, update_views(diff.to_update@), j as int + 1);
                    }
                    return Err(e);
                },
            }
            j += 1;
        }
        let ghost updated = work@;
        proof {
            assert(update_views(diff.to_update@).take(diff.to_update.len() as int)
                =~= update_views(diff.to_update@));
            assert(string_views(diff.to_remove@).take(0) =~= Seq::<Seq<char>>::empty());
        }
        let mut k: usize = 0;
        while k < diff.to_remove.len()
            invariant
                k <= diff.to_remove.len(),
                store == old(store),
                !dry_run,
                work@ == remove_all_spec(updated, string_views(diff.to_remove@).take(k as int)),
            decreases diff.to_remove.len() - k,
        {
            proof {
                let t = string_views(diff.to_remove@).take(k as int + 1);
                assert(t.drop_last() =~= string_views(diff.to_remove@).take(k as int));
                assert(t.last() == diff.to_remove@[k as int]@);
            }
            work.remove_user(diff.to_remove[k].as_str());
            k += 1;
        }
        proof {
            assert(string_views(diff.to_remove@).take(diff.to_remove.len() as int)
                =~= string_views(diff.to_remove@));
        }
        let before = store.files.duplicate();
        store.backup = Some(before);
        store.files = work;
        Ok(false)
    }
}

/// Field `index` of a record, or `default` where the record is too short.
pub open spec fn field_or_spec(parts: Seq<Seq<char>>, index: int, default: Seq<char>) -> Seq<char> {
    if 0 <= index < parts.len() {
        parts[index]
    } else {
        default
    }
}

/// Field `index` of a record, or `default` where the record is too short.
pub fn field_or(parts: &Vec<Vec<char>>, index: usize, default: Vec<char>) -> (out: Vec<char>)
    ensures
        out@ == field_or_spec(views(parts@), index as int, default@),
{
    if index < parts.len() {
        copy_text(&parts[index])
    } else {
        default
    }
}

/// The credential record of `username` with the hash `hashed`: the aging
/// fields 2 to 5 come from the old record where it has them, and are
/// 19345, 0, 99999 and 7 otherwise; three empty fields close the record.
pub open spec fn shadow_line_spec(
    username: Seq<char>,
    hashed: Seq<char>,
    old_parts: Seq<Seq<char>>,
) -> Seq<char> {
    join_spec(
        seq![
            username,
            hashed,
            field_or_spec(old_parts, 2, decimal_digits(19345)),
            field_or_spec(old_parts, 3, decimal_digits(0)),
            field_or_spec(old_parts, 4, decimal_digits(99999)),
            field_or_spec(old_parts, 5, decimal_digits(7)),
            Seq::<char>::empty(),
            Seq::<char>::empty(),
            Seq::<char>::empty(),
        ],
        ':',
    )
}

/// Writes the credential record of `username`.
pub fn shadow_line(username: &Vec<char>, hashed: &Vec<char>, old_parts: &Vec<Vec<char>>) -> (out:
    Vec<char>)
    ensures
        out@ == shadow_line_spec(username@, hashed@, views(old_parts@)),
{
    let mut fields: Vec<Vec<char>> = Vec::new();
    fields.push(copy_text(username));
    fields.push(copy_text(hashed));
    fields.push(field_or(old_parts, 2, render_u32(19345)));
    fields.push(field_or(old_parts, 3, render_u32(0)));
    fields.push(field_or(old_parts, 4, render_u32(99999)));
    fields.push(field_or(old_parts, 5, render_u32(7)));
    fields.push(Vec::new());
    fields.push(Vec::new());
    fields.push(Vec::new());
    proof {
        assert(views(fields@) =~= seq![
            username@,
            hashed@,
            field_or_spec(views(old_parts@), 2, decimal_digits(19345)),
            field_or_spec(views(old_parts@), 3, decimal_digits(0)),
            field_or_spec(views(old_parts@), 4, decimal_digits(99999)),
            field_or_spec(views(old_parts@), 5, decimal_digits(7)),
            Seq::<char>::empty(),
            Seq::<char>::empty(),
            Seq::<char>::empty(),
        ]);
    }
    join(&fields, ':')
}

/// The credential records once `username` has the given hash: its first
/// record is rewritten in place, or a record is appended where it has none.
/// Without a password nothing changes.
pub open spec fn update_shadow_spec(
    shadow: Seq<Seq<char>>,
    username: Seq<char>,
    password: Option<Seq<char>>,
) -> Seq<Seq<char>> {
    match password {
        None => shadow,
        Some(hashed) => {
            let i = position_spec(shadow, username);
            if i >= 0 {
                shadow.update(i, shadow_line_spec(username, hashed, split_spec(shadow[i], ':')))
            } else {
                shadow.push(shadow_line_spec(username, hashed, Seq::<Seq<char>>::empty()))
            }
        },
    }
}

/// Stores a hashed password in the credential records. The password is
/// written as it stands: hashing is the caller's part.
pub fn update_shadow(shadow: &mut Vec<String>, username: &str, password: &Option<String>)
    ensures
        string_views(final(shadow)@) == update_shadow_spec(
            string_views(old(shadow)@),
            username@,
            option_text(*password),
        ),
{
    match password {
        None => {},
        Some(hashed) => {
            let name = to_chars(username);
            let hash = to_chars(hashed.as_str());
            let ghost before = string_views(shadow@);
            match position(shadow, &name) {
                Some(i) => {
                    let parts = split(&to_chars(shadow[i].as_str()), ':');
                    let line = from_chars(&shadow_line(&name, &hash, &parts));
                    shadow.set(i, line);
                    proof {
                        assert(string_views(shadow@) =~= before.update(i as int, line@));
                    }
                },
                None => {
                    let none: Vec<Vec<char>> = Vec::new();
                    proof {
                        assert(views(none@) =~= Seq::<Seq<char>>::empty());
                    }
                    let line = from_chars(&shadow_line(&name, &hash, &none));
                    shadow.push(line);
                    proof {
                        assert(string_views(shadow@) =~= before.push(line@));
                    }
                },
            }
        },
    }
}

/// Drops the credential records of `username`.
pub fn remove_from_shadow(shadow: &mut Vec<String>, username: &str)
    ensures
        string_views(final(shadow)@) == without_key_spec(string_views(old(shadow)@), username@),
{
    remove_keyed(shadow, &to_chars(username));
}

/// The fields of a record, with empty fields added up to four.
pub open spec fn pad4_spec(parts: Seq<Seq<char>>) -> Seq<Seq<char>>
    decreases 4 - parts.len(),
{
    if parts.len() >= 4 {
        parts
    } else {
        pad4_spec(parts.push(Seq::<char>::empty()))
    }
}

/// The group record with `username` added to its member list; a record that
/// lists the name already stays as it is.
pub open spec fn with_member_spec(line: Seq<char>, username: Seq<char>) -> Seq<char> {
    let listed = line_members_spec(line);
    if listed.contains(username) {
        line
    } else {
        join_spec(
            pad4_spec(split_spec(line, ':')).update(3, join_spec(listed.push(username), ',')),
            ':',
        )
    }
}

/// Adds `username` to the member list of a group record.
pub fn with_member(line: &str, username: &Vec<char>) -> (out: String)
    ensures
        out@ == with_member_spec(line@, username@),
{
    let mut parts = split(&to_chars(line), ':');
    let mut listed: Vec<Vec<char>> = if parts.len() >= 4 {
        proof {
            assert(views(parts@)[3] == parts@[3]@);
        }
        members(&parts[3])
    } else {
        Vec::new()
    };
    proof {
        if parts.len() < 4 {
            assert(views(listed@) =~= Seq::<Seq<char>>::empty());
        }
    }
    if contains_text(&listed, username) {
        return from_chars(&to_chars(line));
    }
    let ghost listed_before = views(listed@);
    listed.push(copy_text(username));
    proof {
        assert(views(listed@) =~= listed_before.push(username@));
    }
    while parts.len() < 4
        invariant
            pad4_spec(views(parts@)) == pad4_spec(split_spec(line@, ':')),
        decreases 4 - parts.len(),
    {
        let ghost before = views(parts@);
        parts.push(Vec::new());
        proof {
            assert(views(parts@) =~= before.push(Seq::<char>::empty()));
        }
    }
    let ghost padded = views(parts@);
    let joined = join(&listed, ',');
    parts.set(3, joined);
    proof {
        assert(views(parts@) =~= padded.update(3, joined@));
    }
    from_chars(&join(&parts, ':'))
}

/// The record of a new group named `group` with the id `gid` and the one
/// member `username`.
pub open spec fn group_line_spec(group: Seq<char>, gid: u32, username: Seq<char>) -> Seq<char> {
    join_spec(seq![group, seq!['x'], decimal_digits(gid as nat), username], ':')
}

/// The group records once `username` is a member of `group`: the first record
/// of the group gains the member, or a new group with the next free id is
/// appended. There is no result where that id does not fit.
pub open spec fn join_group_spec(
    lines: Seq<Seq<char>>,
    username: Seq<char>,
    group: Seq<char>,
) -> Option<Seq<Seq<char>>> {
    let i = position_spec(lines, group);
    if i >= 0 {
        Some(lines.update(i, with_member_spec(lines[i], username)))
    } else {
        match next_id_spec(lines, 2) {
            Some(gid) => Some(lines.push(group_line_spec(group, gid, username))),
            None => None,
        }
    }
}

/// The group records once `username` is a member of each of `groups`, taken
/// in order.
pub open spec fn update_groups_spec(
    lines: Seq<Seq<char>>,
    username: Seq<char>,
    groups: Seq<Seq<char>>,
) -> Option<Seq<Seq<char>>>
    decreases groups.len(),
{
    if groups.len() == 0 {
        Some(lines)
    } else {
        match update_groups_spec(lines, username, groups.drop_last()) {
            Some(before) => join_group_spec(before, username, groups.last()),
            None => None,
        }
    }
}

/// Makes `username` a member of each of `groups`, creating the groups that
/// do not exist. Fails, and changes nothing, only where a new group's id
/// does not fit.
pub fn update_groups(group_lines: &mut Vec<String>, username: &str, groups: &Vec<String>) -> (r:
    Result<(), DeclarativeAlpineError>)
    ensures
        r is Ok <==> update_groups_spec(
            string_views(old(group_lines)@),
            username@,
            string_views(groups@),
        ) is Some,
        r is Ok ==> Some(string_views(final(group_lines)@)) == update_groups_spec(
            string_views(old(group_lines)@),
            username@,
            string_views(groups@),
        ),
        r is Err ==> r->Err_0 is Unknown && string_views(final(group_lines)@) == string_views(
            old(group_lines)@,
        ),
{
    let name = to_chars(username);
    let mut work = copy_strings(group_lines);
    let mut i: usize = 0;
    proof {
        assert(string_views(groups@).take(0) =~= Seq::<Seq<char>>::empty());
    }
    while i < groups.len()
        invariant
            i <= groups.len(),
            name@ == username@,
            group_lines == old(group_lines),
            Some(string_views(work@)) == update_groups_spec(
                string_views(old(group_lines)@),
                username@,
                string_views(groups@).take(i as int),
            ),
        decreases groups.len() - i,
    {
        proof {
            let t = string_views(groups@).take(i as int + 1);
            assert(t.drop_last() =~= string_views(groups@).take(i as int));
            assert(t.last() == groups@[i as int]@);
        }
        let group = to_chars(groups[i].as_str());
        let ghost before = string_views(work@);
        match position(&work, &group) {
            Some(at) => {
                let line = with_member(work[at].as_str(), &name);
                work.set(at, line);
                proof {
                    assert(string_views(work@) =~= before.update(at as int, line@));
                }
            },
            None => {
                match next_id(&work, 2) {
                    Some(gid) => {
                        let mut fields: Vec<Vec<char>> = Vec::new();
                        fields.push(group);
                        let mut placeholder: Vec<char> = Vec::new();
                        placeholder.push('x');
                        proof {
                            assert(placeholder@ =~= seq!['x']);
                        }
                        fields.push(placeholder);
                        fields.push(render_u32(gid));
                        fields.push(copy_text(&name));
                        proof {
                            assert(views(fields@) =~= seq![
                                groups@[i as int]@,
                                seq!['x'],
                                decimal_digits(gid as nat),
                                username@,
                            ]);
                        }
                        let line = from_chars(&join(&fields, ':'));
                        work.push(line);
                        proof {
                            assert(string_views(work@) =~= before.push(line@));
                        }
                    },
                    None => {
                        proof {
                            lemma_update_groups_fails(
                                string_views(old(group_lines)@),
                                username@,
                                string_views(groups@),
                                i as int + 1,
                            );
                        }
                        return Err(DeclarativeAlpineError::Unknown);
                    },
                }
            },
        }
        i += 1;
    }
    proof {
        assert(string_views(groups@).take(groups.len() as int) =~= string_views(groups@));
    }
    *group_lines = work;
    Ok(())
}

/// Once a prefix of the groups cannot be joined, the whole list cannot.
pub proof fn lemma_update_groups_fails(
    lines: Seq<Seq<char>>,
    username: Seq<char>,
    groups: Seq<Seq<char>>,
    k: int,
)
    requires
        0 <= k <= groups.len(),
        update_groups_spec(lines, username, groups.take(k)) is None,
    ensures
        update_groups_spec(lines, username, groups) is None,
    decreases groups.len(),
{
    if k == groups.len() {
        assert(groups.take(k) =~= groups);
    } else {
        assert(groups.drop_last().take(k) =~= groups.take(k));
        lemma_update_groups_fails(lines, username, groups.drop_last(), k);
    }
}

/// The texts of `list` other than `x`, in their order.
pub open spec fn remove_text_spec(list: Seq<Seq<char>>, x: Seq<char>) -> Seq<Seq<char>>
    decreases list.len(),
{
    if list.len() == 0 {
        Seq::<Seq<char>>::empty()
    } else {
        let before = remove_text_spec(list.drop_last(), x);
        if list.last() == x {
            before
        } else {
            before.push(list.last())
        }
    }
}

/// Drops every occurrence of `x` from `list`.
pub fn remove_text(list: &Vec<Vec<char>>, x: &Vec<char>) -> (out: Vec<Vec<char>>)
    ensures
        views(out@) == remove_text_spec(views(list@), x@),
{
    let mut out: Vec<Vec<char>> = Vec::new();
    let mut i: usize = 0;
    proof {
        assert(views(list@).take(0) =~= Seq::<Seq<char>>::empty());
        assert(views(out@) =~= Seq::<Seq<char>>::empty());
    }
    while i < list.len()
        invariant
            i <= list.len(),
            views(out@) == remove_text_spec(views(list@).take(i as int), x@),
        decreases list.len() - i,
    {
        proof {
            let t = views(list@).take(i as int + 1);
            assert(t.drop_last() =~= views(list@).take(i as int));
            assert(t.last() == list@[i as int]@);
        }
        if !same_text(&list[i], x) {
            let ghost before = views(out@);
            out.push(copy_text(&list[i]));
            proof {
                assert(views(out@) =~= before.push(list@[i as int]@));
            }
        }
        i += 1;
    }
    proof {
        assert(views(list@).take(list.len() as int) =~= views(list@));
    }
    out
}

/// The group record without `username` in its member list. A record of fewer
/// than four fields stays as it is.
pub open spec fn without_member_spec(line: Seq<char>, username: Seq<char>) -> Seq<char> {
    let parts = split_spec(line, ':');
    if parts.len() >= 4 {
        join_spec(
            parts.update(3, join_spec(remove_text_spec(members_spec(parts[3]), username), ',')),
            ':',
        )
    } else {
        line
    }
}

/// The group records with `username` struck from every member list. Every
/// record stays, also one that is left without members.
pub open spec fn remove_from_groups_spec(lines: Seq<Seq<char>>, username: Seq<char>) -> Seq<
    Seq<char>,
> {
    Seq::new(lines.len(), |i: int| without_member_spec(lines[i], username))
}

/// Strikes `username` from the member list of every group.
pub fn remove_from_groups(group_lines: &mut Vec<String>, username: &str)
    ensures
        string_views(final(group_lines)@) == remove_from_groups_spec(
            string_views(old(group_lines)@),
            username@,
        ),
{
    let name = to_chars(username);
    let mut i: usize = 0;
    while i < group_lines.len()
        invariant
            i <= group_lines.len(),
            name@ == username@,
            group_lines@.len() == old(group_lines)@.len(),
            forall|j: int|
                0 <= j < i ==> (#[trigger] group_lines@[j])@ == without_member_spec(
                    old(group_lines)@[j]@,
                    username@,
                ),
            forall|j: int|
                i <= j < group_lines@.len() ==> (#[trigger] group_lines@[j])@ == old(
                    group_lines,
                )@[j]@,
        decreases group_lines.len() - i,
    {
        let mut parts = split(&to_chars(group_lines[i].as_str()), ':');
        if parts.len() >= 4 {
            let ghost before = views(parts@);
            proof {
                assert(before[3] == parts@[3]@);
            }
            let kept = join(&remove_text(&members(&parts[3]), &name), ',');
            parts.set(3, kept);
            proof {
                assert(views(parts@) =~= before.update(3, kept@));
            }
            let line = from_chars(&join(&parts, ':'));
            group_lines.set(i, line);
        }
        i += 1;
    }
    proof {
        assert(string_views(group_lines@) =~= remove_from_groups_spec(
            string_views(old(group_lines)@),
            username@,
        ));
    }
}

/// The identity record of an account: name, placeholder, ids, an empty
/// comment, home and shell.
pub open spec fn passwd_line_spec(
    username: Seq<char>,
    uid: u32,
    gid: u32,
    home: Seq<char>,
    shell: Seq<char>,
) -> Seq<char> {
    join_spec(
        seq![
            username,
            seq!['x'],
            decimal_digits(uid as nat),
            decimal_digits(gid as nat),
            Seq::<char>::empty(),
            home,
            shell,
        ],
        ':',
    )
}

/// Writes the identity record of an account.
pub fn passwd_line(username: &str, uid: u32, gid: u32, home: &str, shell: &str) -> (out: String)
    ensures
        out@ == passwd_line_spec(username@, uid, gid, home@, shell@),
{
    let mut placeholder: Vec<char> = Vec::new();
    placeholder.push('x');
    proof {
        assert(placeholder@ =~= seq!['x']);
    }
    let mut fields: Vec<Vec<char>> = Vec::new();
    fields.push(to_chars(username));
    fields.push(placeholder);
    fields.push(render_u32(uid));
    fields.push(render_u32(gid));
    fields.push(Vec::new());
    fields.push(to_chars(home));
    fields.push(to_chars(shell));
    proof {
        assert(views(fields@) =~= seq![
            username@,
            seq!['x'],
            decimal_digits(uid as nat),
            decimal_digits(gid as nat),
            Seq::<char>::empty(),
            home@,
            shell@,
        ]);
    }
    from_chars(&join(&fields, ':'))
}

/// An id that is given, or else the next free one.
pub open spec fn id_or_next_spec(given: Option<u32>, lines: Seq<Seq<char>>) -> Option<u32> {
    match given {
        Some(id) => Some(id),
        None => next_id_spec(lines, 2),
    }
}

/// The databases once `user` is added: an identity record is appended, with
/// the ids given or else the next free ones; the password, if any, goes to
/// the credential records; the user joins each of its groups. There is no
/// result where an id that has to be allocated does not fit.
pub open spec fn add_user_spec(files: FilesView, user: UserView) -> Option<FilesView> {
    let uid = id_or_next_spec(user.uid, files.passwd);
    let gid = id_or_next_spec(user.gid, files.group);
    let group = update_groups_spec(files.group, user.username, user.groups);
    if uid is Some && gid is Some && group is Some {
        Some(
            FilesView {
                passwd: files.passwd.push(
                    passwd_line_spec(user.username, uid->Some_0, gid->Some_0, user.home, user.shell),
                ),
                shadow: update_shadow_spec(files.shadow, user.username, user.password),
                group: group->Some_0,
            },
        )
    } else {
        None
    }
}

/// An id that is given, or else the one in field `index` of the record, or
/// else 1000.
pub open spec fn id_or_kept_spec(given: Option<u32>, line: Seq<char>, index: int) -> u32 {
    match given {
        Some(id) => id,
        None => match numeric_field_spec(line, index) {
            Some(id) => id,
            None => 1000u32,
        },
    }
}

/// The databases once the account `username` is brought to `user`: its first
/// identity record, if it has one, is rewritten with the new home and shell
/// and with the ids given or else kept; credential and groups follow as for
/// a new account.
pub open spec fn update_user_spec(files: FilesView, username: Seq<char>, user: UserView) -> Option<
    FilesView,
> {
    let i = position_spec(files.passwd, username);
    let passwd = if i >= 0 {
        files.passwd.update(
            i,
            passwd_line_spec(
                username,
                id_or_kept_spec(user.uid, files.passwd[i], 2),
                id_or_kept_spec(user.gid, files.passwd[i], 3),
                user.home,
                user.shell,
            ),
        )
    } else {
        files.passwd
    };
    let group = update_groups_spec(files.group, username, user.groups);
    if group is Some {
        Some(
            FilesView {
                passwd,
                shadow: update_shadow_spec(files.shadow, username, user.password),
                group: group->Some_0,
            },
        )
    } else {
        None
    }
}

/// The databases once the account `username` is removed: its identity and
/// credential records are gone and no group lists it.
pub open spec fn remove_user_spec(files: FilesView, username: Seq<char>) -> FilesView {
    FilesView {
        passwd: without_key_spec(files.passwd, username),
        shadow: without_key_spec(files.shadow, username),
        group: remove_from_groups_spec(files.group, username),
    }
}

/// The databases once each of `users` is added, in order.
pub open spec fn add_all_spec(files: FilesView, users: Seq<UserView>) -> Option<FilesView>
    decreases users.len(),
{
    if users.len() == 0 {
        Some(files)
    } else {
        match add_all_spec(files, users.drop_last()) {
            Some(before) => add_user_spec(before, users.last()),
            None => None,
        }
    }
}

/// The databases once each of `updates` is made, in order.
pub open spec fn update_all_spec(files: FilesView, updates: Seq<(Seq<char>, UserView)>) -> Option<
    FilesView,
>
    decreases updates.len(),
{
    if updates.len() == 0 {
        Some(files)
    } else {
        match update_all_spec(files, updates.drop_last()) {
            Some(before) => update_user_spec(before, updates.last().0, updates.last().1),
            None => None,
        }
    }
}

/// The databases once each of `names` is removed, in order.
pub open spec fn remove_all_spec(files: FilesView, names: Seq<Seq<char>>) -> FilesView
    decreases names.len(),
{
    if names.len() == 0 {
        files
    } else {
        remove_user_spec(remove_all_spec(files, names.drop_last()), names.last())
    }
}

/// The databases once a diff is applied: additions, then updates, then
/// removals.
pub open spec fn apply_spec(files: FilesView, diff: DiffView) -> Option<FilesView> {
    match add_all_spec(files, diff.to_add) {
        Some(added) => match update_all_spec(added, diff.to_update) {
            Some(updated) => Some(remove_all_spec(updated, diff.to_remove)),
            None => None,
        },
        None => None,
    }
}

/// Once a prefix of the additions fails, the whole list fails.
pub proof fn lemma_add_all_fails(files: FilesView, users: Seq<UserView>, k: int)
    requires
        0 <= k <= users.len(),
        add_all_spec(files, users.take(k)) is None,
    ensures
        add_all_spec(files, users) is None,
    decreases users.len(),
{
    if k == users.len() {
        assert(users.take(k) =~= users);
    } else {
        assert(users.drop_last().take(k) =~= users.take(k));
        lemma_add_all_fails(files, users.drop_last(), k);
    }
}

/// Once a prefix of the updates fails, the whole list fails.
pub proof fn lemma_update_all_fails(files: FilesView, updates: Seq<(Seq<char>, UserView)>, k: int)
    requires
        0 <= k <= updates.len(),
        update_all_spec(files, updates.take(k)) is None,
    ensures
        update_all_spec(files, updates) is None,
    decreases updates.len(),
{
    if k == updates.len() {
        assert(updates.take(k) =~= updates);
    } else {
        assert(updates.drop_last().take(k) =~= updates.take(k));
        lemma_update_all_fails(files, updates.drop_last(), k);
    }
}

impl UserFiles {
    /// A copy that holds the same lines.
    pub fn duplicate(&self) -> (r: UserFiles)
        ensures
            r@ == self@,
    {
        UserFiles {
            passwd: copy_strings(&self.passwd),
            shadow: copy_strings(&self.shadow),
            group: copy_strings(&self.group),
        }
    }

    /// Adds an account. Fails, and changes nothing, only where an id that
    /// has to be allocated does not fit.
    pub fn add_user(&mut self, user: &User) -> (r: Result<(), DeclarativeAlpineError>)
        ensures
            r is Ok <==> add_user_spec(old(self)@, user@) is Some,
            r is Ok ==> Some(final(self)@) == add_user_spec(old(self)@, user@),
            r is Err ==> r->Err_0 is Unknown && final(self)@ == old(self)@,
    {
        let uid = match user.uid {
            Some(id) => id,
            None => match next_id(&self.passwd, 2) {
                Some(id) => id,
                None => {
                    return Err(DeclarativeAlpineError::Unknown);
                },
            },
        };
        let gid = match user.gid {
            Some(id) => id,
            None => match next_id(&self.group, 2) {
                Some(id) => id,
                None => {
                    return Err(DeclarativeAlpineError::Unknown);
                },
            },
        };
        match update_groups(&mut self.group, user.username.as_str(), &user.groups) {
            Ok(()) => {},
            Err(e) => {
                return Err(e);
            },
        }
        let ghost before = string_views(self.passwd@);
        let line = passwd_line(
            user.username.as_str(),
            uid,
            gid,
            user.home.as_str(),
            user.shell.as_str(),
        );
        self.passwd.push(line);
        proof {
            assert(string_views(self.passwd@) =~= before.push(line@));
        }
        update_shadow(&mut self.shadow, user.username.as_str(), &user.password);
        Ok(())
    }

    /// Brings the account `username` to `user`. Fails, and changes nothing,
    /// only where the id of a group that has to be created does not fit.
    pub fn update_user(&mut self, username: &str, user: &User) -> (r: Result<
        (),
        DeclarativeAlpineError,
    >)
        ensures
            r is Ok <==> update_user_spec(old(self)@, username@, user@) is Some,
            r is Ok ==> Some(final(self)@) == update_user_spec(old(self)@, username@, user@),
            r is Err ==> r->Err_0 is Unknown && final(self)@ == old(self)@,
    {
        match update_groups(&mut self.group, username, &user.groups) {
            Ok(()) => {},
            Err(e) => {
                return Err(e);
            },
        }
        let ghost before = string_views(self.passwd@);
        match position(&self.passwd, &to_chars(username)) {
            Some(i) => {
                let uid = match user.uid {
                    Some(id) => id,
                    None => parse_uid_from_line(self.passwd[i].as_str()),
                };
                let gid = match user.gid {
                    Some(id) => id,
                    None => parse_gid_from_line(self.passwd[i].as_str()),
                };
                let line = passwd_line(username, uid, gid, user.home.as_str(), user.shell.as_str());
                self.passwd.set(i, line);
                proof {
                    assert(string_views(self.passwd@) =~= before.update(i as int, line@));
                }
            },
            None => {},
        }
        update_shadow(&mut self.shadow, username, &user.password);
        Ok(())
    }

    /// Removes the account `username` from all three databases.
    pub fn remove_user(&mut self, username: &str)
        ensures
            final(self)@ == remove_user_spec(old(self)@, username@),
    {
        remove_keyed(&mut self.passwd, &to_chars(username));
        remove_from_shadow(&mut self.shadow, username);
        remove_from_groups(&mut self.group, username);
    }
}

impl UsersStore {
    /// The snapshot of the three databases, each given by its content or as
    /// absent. Fails with an I/O error exactly when one of them is absent.
    pub fn from_contents(passwd: &Option<String>, shadow: &Option<String>, group: &Option<String>) -> (r:
        Result<UsersStore, DeclarativeAlpineError>)
        ensures
            r is Ok <==> passwd is Some && shadow is Some && group is Some,
            r is Ok ==> r->Ok_0@ == (SnapshotView {
                files: FilesView {
                    passwd: lines_spec(passwd->Some_0@),
                    shadow: lines_spec(shadow->Some_0@),
                    group: lines_spec(group->Some_0@),
                },
                backup: None,
            }),
            r is Err ==> r->Err_0 is IoError && r->Err_0->IoError_0@ == "database not found"@,
    {
        match (passwd, shadow, group) {
            (Some(p), Some(s), Some(g)) => Ok(UsersStore::load(p.as_str(), s.as_str(), g.as_str())),
            _ => Err(DeclarativeAlpineError::IoError(String::from_str("database not found"))),
        }
    }

    /// The snapshot of three databases of the given contents, with no backup.
    pub fn load(passwd: &str, shadow: &str, group: &str) -> (store: UsersStore)
        ensures
            store@.files.passwd == lines_spec(passwd@),
            store@.files.shadow == lines_spec(shadow@),
            store@.files.group == lines_spec(group@),
            store@.backup is None,
    {
        UsersStore {
            files: UserFiles {
                passwd: to_strings(&split_lines(&to_chars(passwd))),
                shadow: to_strings(&split_lines(&to_chars(shadow))),
                group: to_strings(&split_lines(&to_chars(group))),
            },
            backup: None,
        }
    }
}

/// The content of a database: each line followed by a newline.
pub fn content_of(lines: &Vec<String>) -> (content: String)
    ensures
        content@ == render_lines_spec(string_views(lines@)),
{
    from_chars(&render_lines(&to_texts(lines)))
}

/// Whether some user of the list bears `name`.
pub open spec fn has_name(users: Seq<UserView>, name: Seq<char>) -> bool {
    exists|i: int| 0 <= i < users.len() && (#[trigger] users[i]).username == name
}

/// A name is found exactly when some user bears it, and then at a user that
/// bears it.
pub proof fn lemma_index_of(users: Seq<UserView>, name: Seq<char>)
    ensures
        (index_of_spec(users, name) >= 0) == has_name(users, name),
        -1 <= index_of_spec(users, name) < users.len(),
        index_of_spec(users, name) >= 0 ==> users[index_of_spec(users, name)].username == name,
{
    let flags = name_flags(users, name);
    lemma_first_true(flags);
    let r = first_true(flags);
    if r >= 0 {
        assert(flags[r]);
        assert(users[r].username == name);
    } else {
        assert forall|i: int| 0 <= i < users.len() implies (#[trigger] users[i]).username
            != name by {
            assert(!flags[i]);
        }
    }
}

/// To add is exactly what is desired under a name that no current user
/// bears.
pub proof fn lemma_to_add(desired: Seq<UserView>, current: Seq<UserView>)
    ensures
        forall|u: UserView| #[trigger]
            to_add_spec(desired, current).contains(u) <==> desired.contains(u) && !has_name(
                current,
                u.username,
            ),
    decreases desired.len(),
{
    let d = to_add_spec(desired, current);
    if desired.len() > 0 {
        let rest = desired.drop_last();
        let before = to_add_spec(rest, current);
        lemma_to_add(rest, current);
        lemma_index_of(current, desired.last().username);
        assert forall|u: UserView| #[trigger]
            d.contains(u) <==> desired.contains(u) && !has_name(current, u.username) by {
            if d.contains(u) {
                let i = choose|i: int| 0 <= i < d.len() && d[i] == u;
                if i < before.len() {
                    assert(before.contains(u));
                    let j = choose|j: int| 0 <= j < rest.len() && rest[j] == u;
                    assert(desired[j] == u);
                } else {
                    assert(desired[desired.len() - 1] == u);
                }
            }
            if desired.contains(u) && !has_name(current, u.username) {
                let j = choose|j: int| 0 <= j < desired.len() && desired[j] == u;
                if j < rest.len() {
                    assert(rest[j] == u);
                    assert(before.contains(u));
                    let i = choose|i: int| 0 <= i < before.len() && before[i] == u;
                    assert(d[i] == u);
                } else {
                    assert(d[d.len() - 1] == u);
                }
            }
        }
    }
}

/// To remove are exactly the names that a current user bears and no desired
/// user does.
pub proof fn lemma_to_remove(current: Seq<UserView>, desired: Seq<UserView>)
    ensures
        forall|n: Seq<char>| #[trigger]
            to_remove_spec(current, desired).contains(n) <==> has_name(current, n) && !has_name(
                desired,
                n,
            ),
    decreases current.len(),
{
    let d = to_remove_spec(current, desired);
    if current.len() > 0 {
        let rest = current.drop_last();
        let before = to_remove_spec(rest, desired);
        lemma_to_remove(rest, desired);
        lemma_index_of(desired, current.last().username);
        assert forall|n: Seq<char>| #[trigger]
            d.contains(n) <==> has_name(current, n) && !has_name(desired, n) by {
            if d.contains(n) {
                let i = choose|i: int| 0 <= i < d.len() && d[i] == n;
                if i < before.len() {
                    assert(before.contains(n));
                    let j = choose|j: int| 0 <= j < rest.len() && (#[trigger] rest[j]).username == n;
                    assert(current[j].username == n);
                } else {
                    assert(current[current.len() - 1].username == n);
                }
            }
            if has_name(current, n) && !has_name(desired, n) {
                let j = choose|j: int|
                    0 <= j < current.len() && (#[trigger] current[j]).username == n;
                if j < rest.len() {
                    assert(rest[j].username == n);
                    assert(before.contains(n));
                    let i = choose|i: int| 0 <= i < before.len() && before[i] == n;
                    assert(d[i] == n);
                } else {
                    assert(d[d.len() - 1] == n);
                }
            }
        }
    } else {
        assert forall|n: Seq<char>| !has_name(current, n) by {}
    }
}

/// To update are exactly the pairs of a name and the desired user of that
/// name for which some current user of that name differs from the desired
/// one in any field.
pub proof fn lemma_to_update(current: Seq<UserView>, desired: Seq<UserView>)
    ensures
        forall|n: Seq<char>, u: UserView| #[trigger]
            to_update_spec(current, desired).contains((n, u)) <==> index_of_spec(desired, n) >= 0
                && u == desired[index_of_spec(desired, n)] && exists|i: int|
                0 <= i < current.len() && (#[trigger] current[i]).username == n && !same_user_spec(
                    current[i],
                    u,
                ),
    decreases current.len(),
{
    let d = to_update_spec(current, desired);
    if current.len() > 0 {
        let rest = current.drop_last();
        let before = to_update_spec(rest, desired);
        lemma_to_update(rest, desired);
        let last = current.last();
        assert forall|n: Seq<char>, u: UserView| #[trigger]
            d.contains((n, u)) <==> index_of_spec(desired, n) >= 0 && u == desired[index_of_spec(
                desired,
                n,
            )] && exists|i: int|
                0 <= i < current.len() && (#[trigger] current[i]).username == n && !same_user_spec(
                    current[i],
                    u,
                ) by {
            if d.contains((n, u)) {
                let i = choose|i: int| 0 <= i < d.len() && d[i] == (n, u);
                if i < before.len() {
                    assert(before.contains((n, u)));
                    let j = choose|j: int|
                        0 <= j < rest.len() && (#[trigger] rest[j]).username == n && !same_user_spec(
                            rest[j],
                            u,
                        );
                    assert(current[j].username == n && !same_user_spec(current[j], u));
                } else {
                    assert(current[current.len() - 1].username == n && !same_user_spec(
                        current[current.len() - 1],
                        u,
                    ));
                }
            }
            if index_of_spec(desired, n) >= 0 && u == desired[index_of_spec(desired, n)]
                && exists|i: int|
                0 <= i < current.len() && (#[trigger] current[i]).username == n && !same_user_spec(
                    current[i],
                    u,
                ) {
                let j = choose|j: int|
                    0 <= j < current.len() && (#[trigger] current[j]).username == n
                        && !same_user_spec(current[j], u);
                if j < rest.len() {
                    assert(rest[j].username == n && !same_user_spec(rest[j], u));
                    assert(before.contains((n, u)));
                    let i = choose|i: int| 0 <= i < before.len() && before[i] == (n, u);
                    assert(d[i] == (n, u));
                } else {
                    assert(d[d.len() - 1] == (n, u));
                }
            }
        }
    }
}

/// That no two users of the list bear one name.
pub open spec fn names_unique(users: Seq<UserView>) -> bool {
    forall|i: int, j: int|
        0 <= i < users.len() && 0 <= j < users.len() && i != j ==> (#[trigger] users[i]).username
            != (#[trigger] users[j]).username
}

/// Putting a user into a list keyed by name leaves it keyed by name.
pub proof fn lemma_upsert_unique(users: Seq<UserView>, user: UserView)
    requires
        names_unique(users),
    ensures
        names_unique(upsert_spec(users, user)),
{
    lemma_index_of(users, user.username);
    let at = index_of_spec(users, user.username);
    let after = upsert_spec(users, user);
    assert forall|i: int, j: int|
        0 <= i < after.len() && 0 <= j < after.len() && i != j implies (#[trigger] after[i]).username
        != (#[trigger] after[j]).username by {
        if at >= 0 {
            if i != at {
                assert(after[i] == users[i]);
            }
            if j != at {
                assert(after[j] == users[j]);
            }
            assert(users[i].username != users[j].username);
        } else {
            if i < users.len() {
                assert(after[i] == users[i]);
            }
            if j < users.len() {
                assert(after[j] == users[j]);
            }
        }
    }
}

/// A list keyed by name holds no name twice.
pub proof fn lemma_by_name_unique(users: Seq<UserView>)
    ensures
        names_unique(by_name_spec(users)),
    decreases users.len(),
{
    if users.len() > 0 {
        lemma_by_name_unique(users.drop_last());
        lemma_upsert_unique(by_name_spec(users.drop_last()), users.last());
    }
}

/// The current state holds no name twice.
pub proof fn lemma_current_users_unique(passwd: Seq<Seq<char>>, group_lines: Seq<Seq<char>>)
    ensures
        names_unique(current_users_spec(passwd, group_lines)),
    decreases passwd.len(),
{
    if passwd.len() > 0 {
        lemma_current_users_unique(passwd.drop_last(), group_lines);
        match record_spec(passwd.last(), group_lines) {
            Some(user) => {
                lemma_upsert_unique(current_users_spec(passwd.drop_last(), group_lines), user);
            },
            None => {},
        }
    }
}

/// Keying by name changes nothing in a list that holds no name twice.
pub proof fn lemma_by_name_fixed(users: Seq<UserView>)
    requires
        names_unique(users),
    ensures
        by_name_spec(users) == users,
    decreases users.len(),
{
    if users.len() > 0 {
        let rest = users.drop_last();
        assert(names_unique(rest)) by {
            assert forall|i: int, j: int|
                0 <= i < rest.len() && 0 <= j < rest.len() && i != j implies (#[trigger] rest[i]).username
                != (#[trigger] rest[j]).username by {
                assert(rest[i] == users[i] && rest[j] == users[j]);
            }
        }
        lemma_by_name_fixed(rest);
        lemma_index_of(rest, users.last().username);
        if has_name(rest, users.last().username) {
            let i = choose|i: int|
                0 <= i < rest.len() && (#[trigger] rest[i]).username == users.last().username;
            assert(users[i].username == users[users.len() - 1].username);
        }
        assert(rest.push(users.last()) =~= users);
    }
}

/// Where the desired users are the current ones, the diff is empty: nothing
/// to add, to update or to remove.
pub proof fn lemma_settled_users_diff_is_empty(users: Seq<UserView>)
    requires
        names_unique(users),
    ensures
        users_diff_spec(users, users).to_add.len() == 0,
        users_diff_spec(users, users).to_update.len() == 0,
        users_diff_spec(users, users).to_remove.len() == 0,
{
    lemma_by_name_fixed(users);
    lemma_to_add(users, users);
    lemma_to_update(users, users);
    lemma_to_remove(users, users);
    let diff = users_diff_spec(users, users);
    if diff.to_add.len() > 0 {
        let u = diff.to_add[0];
        assert(diff.to_add.contains(u));
        let i = choose|i: int| 0 <= i < users.len() && users[i] == u;
        assert(users[i].username == u.username);
    }
    if diff.to_remove.len() > 0 {
        assert(diff.to_remove.contains(diff.to_remove[0]));
    }
    if diff.to_update.len() > 0 {
        let n = diff.to_update[0].0;
        let u = diff.to_update[0].1;
        assert(diff.to_update.contains((n, u)));
        lemma_index_of(users, n);
        let at = index_of_spec(users, n);
        let i = choose|i: int|
            0 <= i < users.len() && (#[trigger] users[i]).username == n && !same_user_spec(
                users[i],
                u,
            );
        assert(users[at].username == users[i].username);
    }
}

/// The diff is empty where every current user has a desired user of its
/// name that agrees with it in every field, and every desired user has a
/// current user of its name.
pub proof fn lemma_matched_users_diff_is_empty(current: Seq<UserView>, desired: Seq<UserView>)
    requires
        forall|i: int|
            0 <= i < current.len() ==> index_of_spec(
                by_name_spec(desired),
                (#[trigger] current[i]).username,
            ) >= 0 && same_user_spec(
                current[i],
                by_name_spec(desired)[index_of_spec(by_name_spec(desired), current[i].username)],
            ),
        forall|j: int|
            0 <= j < by_name_spec(desired).len() ==> has_name(
                current,
                (#[trigger] by_name_spec(desired)[j]).username,
            ),
    ensures
        users_diff_spec(current, desired).to_add.len() == 0,
        users_diff_spec(current, desired).to_update.len() == 0,
        users_diff_spec(current, desired).to_remove.len() == 0,
{
    let wanted = by_name_spec(desired);
    lemma_to_add(wanted, current);
    lemma_to_update(current, wanted);
    lemma_to_remove(current, wanted);
    let diff = users_diff_spec(current, desired);
    if diff.to_add.len() > 0 {
        let u = diff.to_add[0];
        assert(diff.to_add.contains(u));
        let j = choose|j: int| 0 <= j < wanted.len() && wanted[j] == u;
        assert(has_name(current, wanted[j].username));
    }
    if diff.to_remove.len() > 0 {
        let n = diff.to_remove[0];
        assert(diff.to_remove.contains(n));
        let i = choose|i: int| 0 <= i < current.len() && (#[trigger] current[i]).username == n;
        lemma_index_of(wanted, current[i].username);
    }
    if diff.to_update.len() > 0 {
        let n = diff.to_update[0].0;
        let u = diff.to_update[0].1;
        assert(diff.to_update.contains((n, u)));
        let i = choose|i: int|
            0 <= i < current.len() && (#[trigger] current[i]).username == n && !same_user_spec(
                current[i],
                u,
            );
        assert(same_user_spec(current[i], wanted[index_of_spec(wanted, current[i].username)]));
    }
}

} // verus!
