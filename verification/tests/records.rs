use declarative_alpine::packages::difference;
use declarative_alpine::text::{
    all_in, append, contains_string, contains_text, copy_strings, copy_text, members,
    numeric_field, render_u64, same_members, same_text, to_strings, to_texts,
};
use declarative_alpine::users::{
    by_name, field_or, index_of, passwd_line, read_record, remove_text, shadow_line, upsert,
    with_member, User,
};

fn chars(s: &str) -> Vec<char> {
    s.chars().collect()
}

fn pieces(items: &[&str]) -> Vec<Vec<char>> {
    items.iter().map(|s| chars(s)).collect()
}

fn strings(items: &[&str]) -> Vec<String> {
    items.iter().map(|s| s.to_string()).collect()
}

fn named(name: &str, shell: &str) -> User {
    User {
        username: name.to_string(),
        groups: Vec::new(),
        password: None,
        shell: shell.to_string(),
        home: format!("/home/{}", name),
        uid: None,
        gid: None,
    }
}

#[test]
fn difference_keeps_first_occurrences_in_order() {
    assert_eq!(
        difference(&pieces(&["b", "a", "b", "c", "a"]), &pieces(&["c"])),
        pieces(&["b", "a"])
    );
    assert_eq!(difference(&pieces(&[]), &pieces(&["c"])), pieces(&[]));
    assert_eq!(difference(&pieces(&["x", ""]), &pieces(&[""])), pieces(&["x"]));
}

#[test]
fn text_helpers_copy_and_compare() {
    let mut dst = chars("ab");
    append(&mut dst, &chars("cd"));
    assert_eq!(dst, chars("abcd"));
    assert_eq!(copy_text(&chars("xyz")), chars("xyz"));
    assert!(same_text(&chars("xyz"), &chars("xyz")));
    assert!(!same_text(&chars("xyz"), &chars("xy")));
    assert!(!same_text(&chars("xyz"), &chars("xya")));
    assert!(contains_text(&pieces(&["a", "b"]), &chars("b")));
    assert!(!contains_text(&pieces(&["a", "b"]), &chars("c")));
    assert_eq!(to_strings(&pieces(&["a", "bc"])), strings(&["a", "bc"]));
    assert_eq!(to_texts(&strings(&["a", "bc"])), pieces(&["a", "bc"]));
    assert_eq!(copy_strings(&strings(&["a", "bc"])), strings(&["a", "bc"]));
    assert!(contains_string(&strings(&["a", "bc"]), &"bc".to_string()));
    assert!(!contains_string(&strings(&["a", "bc"]), &"b".to_string()));
    assert!(all_in(&strings(&["a", "a"]), &strings(&["b", "a"])));
    assert!(!all_in(&strings(&["b", "a"]), &strings(&["a"])));
    assert!(same_members(&strings(&[]), &strings(&[])));
    assert!(!same_members(&strings(&["a"]), &strings(&[])));
    assert_eq!(render_u64(18446744073709551615), chars("18446744073709551615"));
}

#[test]
fn member_lists_and_numeric_fields() {
    assert_eq!(members(&chars("")), pieces(&[]));
    assert_eq!(members(&chars("root,bob")), pieces(&["root", "bob"]));
    assert_eq!(members(&chars("root,")), pieces(&["root", ""]));
    assert_eq!(numeric_field(&chars("a:b:12"), 2), Some(12));
    assert_eq!(numeric_field(&chars("a:b:12"), 3), None);
    assert_eq!(numeric_field(&chars("a:b:x"), 2), None);
    assert_eq!(remove_text(&pieces(&["a", "b", "a"]), &chars("a")), pieces(&["b"]));
    assert_eq!(field_or(&pieces(&["a", "b"]), 1, chars("z")), chars("b"));
    assert_eq!(field_or(&pieces(&["a", "b"]), 2, chars("z")), chars("z"));
}

#[test]
fn records_are_written_field_by_field() {
    assert_eq!(passwd_line("alice", 1001, 1002, "/home/alice", "/bin/ash"), "alice:x:1001:1002::/home/alice:/bin/ash");
    assert_eq!(
        shadow_line(&chars("alice"), &chars("$6$h"), &pieces(&[])),
        chars("alice:$6$h:19345:0:99999:7:::")
    );
    assert_eq!(
        shadow_line(&chars("alice"), &chars("$6$h"), &pieces(&["alice", "old", "1", "2", "3", "4", "5"])),
        chars("alice:$6$h:1:2:3:4:::")
    );
    assert_eq!(with_member("wheel:x:10:root", &chars("alice")), "wheel:x:10:root,alice");
    assert_eq!(with_member("wheel:x:10:root,alice", &chars("alice")), "wheel:x:10:root,alice");
    assert_eq!(with_member("wheel:x:10:", &chars("alice")), "wheel:x:10:alice");
    assert_eq!(with_member("wheel:x", &chars("alice")), "wheel:x::alice");
    assert_eq!(with_member("wheel:x:10:root:extra", &chars("alice")), "wheel:x:10:root,alice:extra");
}

#[test]
fn written_identity_record_reads_back() {
    let line = passwd_line("alice", 1001, 1002, "/home/alice", "/bin/ash");
    let read = read_record(&line, &strings(&["wheel:x:10:root,alice"])).unwrap();
    assert_eq!(
        read,
        User {
            username: "alice".to_string(),
            groups: strings(&["wheel"]),
            password: None,
            shell: "/bin/ash".to_string(),
            home: "/home/alice".to_string(),
            uid: Some(1001),
            gid: Some(1002),
        }
    );
    assert!(read_record("a:b:c:d:e:f", &Vec::new()).is_none());
    let odd = read_record("a:b:c:d:e:f:g:h", &Vec::new()).unwrap();
    assert_eq!(odd.uid, None);
    assert_eq!(odd.gid, None);
    assert_eq!(odd.home, "f");
    assert_eq!(odd.shell, "g");
}

#[test]
fn users_are_keyed_by_name() {
    let list = vec![named("a", "1"), named("b", "2"), named("a", "3")];
    assert_eq!(index_of(&list, &"a".to_string()), Some(0));
    assert_eq!(index_of(&list, &"b".to_string()), Some(1));
    assert_eq!(index_of(&list, &"c".to_string()), None);
    assert_eq!(by_name(&list), vec![named("a", "3"), named("b", "2")]);
    let mut keyed = by_name(&list);
    upsert(&mut keyed, named("c", "4"));
    upsert(&mut keyed, named("b", "5"));
    assert_eq!(keyed, vec![named("a", "3"), named("b", "5"), named("c", "4")]);
}
