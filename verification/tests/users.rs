use declarative_alpine::declaration_trait::{reconcile, Declaration, Reconciled};
use declarative_alpine::error::DeclarativeAlpineError;
use declarative_alpine::users::{
    content_of, get_groups_for_user, get_next_gid, get_next_uid, parse_gid_from_line,
    parse_uid_from_line, remove_from_groups, remove_from_shadow, update_groups, update_shadow,
    User, UserFiles, UsersDeclaration, UsersDiff, UsersStore,
};

fn strings(items: &[&str]) -> Vec<String> {
    items.iter().map(|s| s.to_string()).collect()
}

fn user(name: &str, groups: &[&str]) -> User {
    User {
        username: name.to_string(),
        groups: strings(groups),
        password: None,
        shell: "/bin/ash".to_string(),
        home: format!("/home/{}", name),
        uid: None,
        gid: None,
    }
}

const PASSWD: &str = "root:x:0:0:root:/root:/bin/ash\nbob:x:1000:1000::/home/bob:/bin/ash\n";
const SHADOW: &str = "root:!::0:::::\nbob:$6$old:19000:1:90000:5:::\n";
const GROUP: &str = "root:x:0:root\nwheel:x:10:root,bob\nbob:x:1000:\n";

#[test]
fn current_users_come_from_identity_and_group_records() {
    let store = UsersStore::load(PASSWD, SHADOW, GROUP);
    let current = UsersDeclaration.get_current(&store).unwrap();
    assert_eq!(current.len(), 2);
    assert_eq!(
        current[0],
        User {
            username: "root".to_string(),
            groups: strings(&["root", "wheel"]),
            password: None,
            shell: "/bin/ash".to_string(),
            home: "/root".to_string(),
            uid: Some(0),
            gid: Some(0),
        }
    );
    assert_eq!(current[1].username, "bob");
    assert_eq!(current[1].groups, strings(&["wheel"]));
    assert_eq!(current[1].uid, Some(1000));
}

#[test]
fn short_identity_record_is_skipped() {
    let store = UsersStore::load("eve:x:1001:1001:/home/eve\nbob:x:1000:1000::/home/bob:/bin/ash\n", "", "");
    let current = UsersDeclaration.get_current(&store).unwrap();
    assert_eq!(current.len(), 1);
    assert_eq!(current[0].username, "bob");
    let diff = UsersDeclaration.compute_diff(&current, &vec![current[0].clone()]);
    assert!(diff.to_add.is_empty());
    assert!(diff.to_update.is_empty());
    assert!(diff.to_remove.is_empty());
}

#[test]
fn later_identity_record_replaces_earlier_of_same_name() {
    let store = UsersStore::load(
        "bob:x:1000:1000::/home/bob:/bin/ash\nann:x:1001:1001::/home/ann:/bin/ash\nbob:x:1002:1002::/srv/bob:/bin/sh\n",
        "",
        "",
    );
    let current = UsersDeclaration.get_current(&store).unwrap();
    assert_eq!(current.len(), 2);
    assert_eq!(current[0].username, "bob");
    assert_eq!(current[0].uid, Some(1002));
    assert_eq!(current[0].home, "/srv/bob");
    assert_eq!(current[1].username, "ann");
}

#[test]
fn diff_classifies_three_ways() {
    let store = UsersStore::load(PASSWD, SHADOW, GROUP);
    let current = UsersDeclaration.get_current(&store).unwrap();
    let mut bob = current[1].clone();
    bob.shell = "/bin/bash".to_string();
    let alice = user("alice", &["wheel"]);
    let diff = UsersDeclaration.compute_diff(&current, &vec![alice.clone(), bob.clone()]);
    assert_eq!(diff.to_add, vec![alice]);
    assert_eq!(diff.to_update, vec![("bob".to_string(), bob)]);
    assert_eq!(diff.to_remove, strings(&["root"]));
}

#[test]
fn desired_password_is_always_reported_as_changed() {
    let store = UsersStore::load(PASSWD, SHADOW, GROUP);
    let current = UsersDeclaration.get_current(&store).unwrap();
    let same = vec![current[0].clone(), current[1].clone()];
    let diff = UsersDeclaration.compute_diff(&current, &same);
    assert!(diff.to_add.is_empty() && diff.to_update.is_empty() && diff.to_remove.is_empty());
    let mut bob = current[1].clone();
    bob.password = Some("$6$hash".to_string());
    let desired = vec![current[0].clone(), bob.clone()];
    let diff = UsersDeclaration.compute_diff(&current, &desired);
    assert_eq!(diff.to_update, vec![("bob".to_string(), bob)]);
}

#[test]
fn last_desired_user_of_a_name_counts() {
    let first = user("alice", &[]);
    let mut second = user("alice", &["wheel"]);
    second.shell = "/bin/sh".to_string();
    let diff = UsersDeclaration.compute_diff(&Vec::new(), &vec![first, second.clone()]);
    assert_eq!(diff.to_add, vec![second]);
}

#[test]
fn adding_alice_to_existing_wheel() {
    let mut store = UsersStore::load(PASSWD, SHADOW, "root:x:0:root\nwheel:x:10:root\n");
    let current = UsersDeclaration.get_current(&store).unwrap();
    let mut desired = vec![current[0].clone(), current[1].clone()];
    desired.push(user("alice", &["wheel"]));
    let diff = UsersDeclaration.compute_diff(&current, &desired);
    assert_eq!(diff.to_add, vec![user("alice", &["wheel"])]);
    assert!(diff.to_update.is_empty());
    assert!(diff.to_remove.is_empty());
    let due = UsersDeclaration.apply(&mut store, &diff, false).unwrap();
    assert!(!due);
    assert_eq!(
        content_of(&store.files.passwd),
        "root:x:0:0:root:/root:/bin/ash\nbob:x:1000:1000::/home/bob:/bin/ash\nalice:x:1001:1000::/home/alice:/bin/ash\n"
    );
    assert_eq!(content_of(&store.files.group), "root:x:0:root\nwheel:x:10:root,alice\n");
    assert_eq!(content_of(&store.files.shadow), SHADOW);
    let backup = store.backup.as_ref().unwrap();
    assert_eq!(content_of(&backup.passwd), PASSWD);
    assert_eq!(content_of(&backup.shadow), SHADOW);
    assert_eq!(content_of(&backup.group), "root:x:0:root\nwheel:x:10:root\n");
}

#[test]
fn first_allocated_uid_is_one_thousand() {
    assert_eq!(get_next_uid(&strings(&["root:x:0:0:root:/root:/bin/ash"])).unwrap(), 1000);
    assert_eq!(get_next_uid(&Vec::new()).unwrap(), 1000);
    assert_eq!(get_next_uid(&strings(&["a:x:1000:1:::", "b:x:4711:1:::", "c:x:x:1:::"])).unwrap(), 4712);
    assert_eq!(get_next_gid(&strings(&["wheel:x:10:root", "big:x:2000:"])).unwrap(), 2001);
    assert_eq!(get_next_gid(&strings(&["short"])).unwrap(), 1000);
}

#[test]
fn id_allocation_fails_at_the_top() {
    let lines = strings(&["top:x:4294967295:1:::"]);
    assert!(matches!(get_next_uid(&lines), Err(DeclarativeAlpineError::Unknown)));
    let mut files = UserFiles { passwd: lines, shadow: Vec::new(), group: Vec::new() };
    assert!(matches!(files.add_user(&user("alice", &[])), Err(DeclarativeAlpineError::Unknown)));
    assert_eq!(files.passwd, strings(&["top:x:4294967295:1:::"]));
    assert!(files.group.is_empty());
    let mut store = UsersStore { files, backup: None };
    let diff = UsersDiff { to_add: vec![user("alice", &[])], to_update: Vec::new(), to_remove: Vec::new() };
    assert!(matches!(
        UsersDeclaration.apply(&mut store, &diff, false),
        Err(DeclarativeAlpineError::Unknown)
    ));
    assert!(store.backup.is_none());
    assert_eq!(store.files.passwd, strings(&["top:x:4294967295:1:::"]));
}

#[test]
fn ids_read_from_a_record_default_to_one_thousand() {
    assert_eq!(parse_uid_from_line("bob:x:1017:1018::/home/bob:/bin/ash"), 1017);
    assert_eq!(parse_gid_from_line("bob:x:1017:1018::/home/bob:/bin/ash"), 1018);
    assert_eq!(parse_uid_from_line("bob:x"), 1000);
    assert_eq!(parse_gid_from_line("bob:x:12"), 1000);
    assert_eq!(parse_uid_from_line("bob:x:-4:1"), 1000);
    assert_eq!(parse_uid_from_line("bob:x:+4:1"), 4);
    assert_eq!(parse_uid_from_line("bob:x:4294967296:1"), 1000);
    assert_eq!(parse_uid_from_line("bob:x:4294967295:1"), 4294967295);
    assert_eq!(parse_uid_from_line("bob:x::1"), 1000);
}

#[test]
fn groups_of_a_user_are_those_that_list_it() {
    let lines = strings(&["root:x:0:root", "wheel:x:10:root,bob", "bob:x:1000:", "odd:x", "video:x:27:bobby,bob"]);
    assert_eq!(get_groups_for_user(&lines, "bob"), strings(&["wheel", "video"]));
    assert_eq!(get_groups_for_user(&lines, "root"), strings(&["root", "wheel"]));
    assert!(get_groups_for_user(&lines, "nobody").is_empty());
}

#[test]
fn credential_record_keeps_aging_fields() {
    let mut shadow = strings(&["root:!::0:::::", "bob:$6$old:19000:1:90000:5:::"]);
    update_shadow(&mut shadow, "bob", &Some("$6$new".to_string()));
    assert_eq!(shadow, strings(&["root:!::0:::::", "bob:$6$new:19000:1:90000:5:::"]));
    update_shadow(&mut shadow, "alice", &Some("$6$a".to_string()));
    assert_eq!(shadow[2], "alice:$6$a:19345:0:99999:7:::");
    update_shadow(&mut shadow, "alice", &None);
    assert_eq!(shadow.len(), 3);
    let mut short = strings(&["carol:old:17000"]);
    update_shadow(&mut short, "carol", &Some("h".to_string()));
    assert_eq!(short, strings(&["carol:h:17000:0:99999:7:::"]));
    remove_from_shadow(&mut shadow, "bob");
    assert_eq!(shadow, strings(&["root:!::0:::::", "alice:$6$a:19345:0:99999:7:::"]));
}

#[test]
fn group_membership_is_synchronised() {
    let mut group = strings(&["root:x:0:root", "wheel:x:10:root", "audio:x:18:", "odd:x:19"]);
    update_groups(&mut group, "alice", &strings(&["wheel", "audio", "odd", "alice", "wheel"])).unwrap();
    assert_eq!(
        group,
        strings(&["root:x:0:root", "wheel:x:10:root,alice", "audio:x:18:alice", "odd:x:19:alice", "alice:x:1000:alice"])
    );
    remove_from_groups(&mut group, "alice");
    assert_eq!(
        group,
        strings(&["root:x:0:root", "wheel:x:10:root", "audio:x:18:", "odd:x:19:", "alice:x:1000:"])
    );
    let mut short = strings(&["odd:x:19"]);
    remove_from_groups(&mut short, "alice");
    assert_eq!(short, strings(&["odd:x:19"]));
}

#[test]
fn update_rewrites_identity_record_in_place() {
    let mut files = UserFiles {
        passwd: strings(&["root:x:0:0:root:/root:/bin/ash", "bob:x:1000:1000:Bob:/home/bob:/bin/ash"]),
        shadow: Vec::new(),
        group: strings(&["wheel:x:10:root"]),
    };
    let mut bob = user("bob", &["wheel"]);
    bob.shell = "/bin/bash".to_string();
    bob.gid = Some(10);
    bob.password = Some("$6$h".to_string());
    files.update_user("bob", &bob).unwrap();
    assert_eq!(
        files.passwd,
        strings(&["root:x:0:0:root:/root:/bin/ash", "bob:x:1000:10::/home/bob:/bin/bash"])
    );
    assert_eq!(files.shadow, strings(&["bob:$6$h:19345:0:99999:7:::"]));
    assert_eq!(files.group, strings(&["wheel:x:10:root,bob"]));
}

#[test]
fn removal_clears_all_three_databases() {
    let mut store = UsersStore::load(PASSWD, SHADOW, GROUP);
    let diff = UsersDiff { to_add: Vec::new(), to_update: Vec::new(), to_remove: strings(&["bob"]) };
    UsersDeclaration.apply(&mut store, &diff, false).unwrap();
    assert_eq!(content_of(&store.files.passwd), "root:x:0:0:root:/root:/bin/ash\n");
    assert_eq!(content_of(&store.files.shadow), "root:!::0:::::\n");
    assert_eq!(content_of(&store.files.group), "root:x:0:root\nwheel:x:10:root\nbob:x:1000:\n");
}

#[test]
fn users_dry_run_changes_nothing() {
    let mut store = UsersStore::load(PASSWD, SHADOW, GROUP);
    let diff = UsersDiff {
        to_add: vec![user("alice", &["wheel"])],
        to_update: Vec::new(),
        to_remove: strings(&["bob"]),
    };
    assert!(!UsersDeclaration.apply(&mut store, &diff, true).unwrap());
    assert_eq!(content_of(&store.files.passwd), PASSWD);
    assert_eq!(content_of(&store.files.shadow), SHADOW);
    assert_eq!(content_of(&store.files.group), GROUP);
    assert!(store.backup.is_none());
}

#[test]
fn reapplied_users_diff_is_empty_without_password() {
    let mut store = UsersStore::load(PASSWD, SHADOW, GROUP);
    let mut alice = user("alice", &["wheel"]);
    alice.uid = Some(1001);
    alice.gid = Some(1001);
    let current = UsersDeclaration.get_current(&store).unwrap();
    let desired = vec![current[0].clone(), alice];
    let diff = UsersDeclaration.compute_diff(&current, &desired);
    UsersDeclaration.apply(&mut store, &diff, false).unwrap();
    let current = UsersDeclaration.get_current(&store).unwrap();
    let diff = UsersDeclaration.compute_diff(&current, &desired);
    assert!(diff.to_add.is_empty());
    assert!(diff.to_update.is_empty());
    assert!(diff.to_remove.is_empty());
}

#[test]
fn reconcile_runs_the_three_steps() {
    let mut store = UsersStore::load(PASSWD, SHADOW, GROUP);
    let current = UsersDeclaration.get_current(&store).unwrap();
    let desired = vec![current[0].clone()];
    match reconcile(&UsersDeclaration, &mut store, &desired, false) {
        Reconciled::Applied(diff, due) => {
            assert!(!due);
            assert_eq!(diff.to_remove, strings(&["bob"]));
        }
        _ => panic!("the run did not apply"),
    }
    assert_eq!(content_of(&store.files.passwd), "root:x:0:0:root:/root:/bin/ash\n");
}

#[test]
fn groups_compare_as_sets() {
    let a = user("alice", &["wheel", "audio"]);
    let b = user("alice", &["audio", "wheel", "audio"]);
    let c = user("alice", &["audio"]);
    assert!(a.same_as(&b));
    assert!(b.same_as(&a));
    assert!(!a.same_as(&c));
    assert!(!c.same_as(&a));
    let mut d = user("alice", &["wheel", "audio"]);
    d.password = Some("x".to_string());
    assert!(!a.same_as(&d));
    let diff = UsersDeclaration.compute_diff(&vec![a.clone()], &vec![b]);
    assert!(diff.to_update.is_empty());
    let diff = UsersDeclaration.compute_diff(&vec![a], &vec![c.clone()]);
    assert_eq!(diff.to_update, vec![("alice".to_string(), c)]);
}

#[test]
fn absent_database_is_an_io_error() {
    let present = Some("root:x:0:0:root:/root:/bin/ash\n".to_string());
    assert!(matches!(
        UsersStore::from_contents(&present, &None, &present),
        Err(DeclarativeAlpineError::IoError(_))
    ));
    assert!(matches!(
        UsersStore::from_contents(&None, &present, &present),
        Err(DeclarativeAlpineError::IoError(_))
    ));
    let store = UsersStore::from_contents(&present, &Some(String::new()), &Some(String::new())).unwrap();
    assert_eq!(store.files.passwd, strings(&["root:x:0:0:root:/root:/bin/ash"]));
    assert!(store.files.shadow.is_empty());
    assert!(store.backup.is_none());
}

#[test]
fn duplicates_hold_the_same_values() {
    let mut a = user("alice", &["wheel", "audio"]);
    a.password = Some("$6$h".to_string());
    a.uid = Some(7);
    assert_eq!(a.duplicate(), a);
    let files = UserFiles { passwd: strings(&["a:1"]), shadow: strings(&["b:2"]), group: strings(&["c:3"]) };
    let copy = files.duplicate();
    assert_eq!(copy.passwd, files.passwd);
    assert_eq!(copy.shadow, files.shadow);
    assert_eq!(copy.group, files.group);
}

#[test]
fn reapplied_update_is_empty() {
    let mut store = UsersStore::load(PASSWD, SHADOW, GROUP);
    let current = UsersDeclaration.get_current(&store).unwrap();
    let mut bob = current[1].clone();
    bob.shell = "/bin/bash".to_string();
    bob.groups = strings(&["audio", "wheel"]);
    let desired = vec![current[0].clone(), bob.clone()];
    let diff = UsersDeclaration.compute_diff(&current, &desired);
    assert!(diff.to_add.is_empty());
    assert_eq!(diff.to_update, vec![("bob".to_string(), bob)]);
    assert!(diff.to_remove.is_empty());
    UsersDeclaration.apply(&mut store, &diff, false).unwrap();
    assert_eq!(
        content_of(&store.files.passwd),
        "root:x:0:0:root:/root:/bin/ash\nbob:x:1000:1000::/home/bob:/bin/bash\n"
    );
    assert_eq!(
        content_of(&store.files.group),
        "root:x:0:root\nwheel:x:10:root,bob\nbob:x:1000:\naudio:x:1001:bob\n"
    );
    let current = UsersDeclaration.get_current(&store).unwrap();
    assert_eq!(current[1].groups, strings(&["wheel", "audio"]));
    let diff = UsersDeclaration.compute_diff(&current, &desired);
    assert!(diff.to_add.is_empty());
    assert!(diff.to_update.is_empty());
    assert!(diff.to_remove.is_empty());
}

#[test]
fn user_without_given_ids_is_reported_again() {
    let mut store = UsersStore::load(PASSWD, SHADOW, GROUP);
    let current = UsersDeclaration.get_current(&store).unwrap();
    let desired = vec![current[0].clone(), current[1].clone(), user("alice", &[])];
    let diff = UsersDeclaration.compute_diff(&current, &desired);
    UsersDeclaration.apply(&mut store, &diff, false).unwrap();
    let current = UsersDeclaration.get_current(&store).unwrap();
    let diff = UsersDeclaration.compute_diff(&current, &desired);
    assert!(diff.to_add.is_empty());
    assert_eq!(diff.to_update.len(), 1);
    assert_eq!(diff.to_update[0].0, "alice");
    assert!(diff.to_remove.is_empty());
}
