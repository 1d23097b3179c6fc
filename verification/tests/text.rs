use declarative_alpine::declaration_trait::{reconcile, Reconciled};
use declarative_alpine::error::DeclarativeAlpineError;
use declarative_alpine::packages::{PackagesDeclaration, WorldFile};
use declarative_alpine::records::{next_id, position, remove_keyed};
use declarative_alpine::text::{
    from_chars, has_key, join, parse_u32, render_lines, render_u32, split, split_lines, to_chars,
};

fn chars(s: &str) -> Vec<char> {
    s.chars().collect()
}

fn pieces(items: &[&str]) -> Vec<Vec<char>> {
    items.iter().map(|s| chars(s)).collect()
}

#[test]
fn strings_and_characters_convert_both_ways() {
    assert_eq!(to_chars("héllo:1"), chars("héllo:1"));
    assert_eq!(from_chars(&chars("héllo:1")), "héllo:1");
    assert_eq!(from_chars(&Vec::new()), "");
}

#[test]
fn split_keeps_empty_pieces() {
    assert_eq!(split(&chars("a:b::c"), ':'), pieces(&["a", "b", "", "c"]));
    assert_eq!(split(&chars(""), ':'), pieces(&[""]));
    assert_eq!(split(&chars(":"), ':'), pieces(&["", ""]));
    assert_eq!(split(&chars("abc"), ','), pieces(&["abc"]));
}

#[test]
fn join_undoes_split() {
    assert_eq!(join(&pieces(&["a", "b", "", "c"]), ':'), chars("a:b::c"));
    assert_eq!(join(&pieces(&[]), ':'), chars(""));
    assert_eq!(join(&pieces(&["x"]), ':'), chars("x"));
    assert_eq!(join(&split(&chars("wheel:x:10:root,bob"), ':'), ':'), chars("wheel:x:10:root,bob"));
}

#[test]
fn numbers_parse_as_unsigned_decimal() {
    assert_eq!(parse_u32(&chars("0")), Some(0));
    assert_eq!(parse_u32(&chars("007")), Some(7));
    assert_eq!(parse_u32(&chars("+12")), Some(12));
    assert_eq!(parse_u32(&chars("4294967295")), Some(4294967295));
    assert_eq!(parse_u32(&chars("4294967296")), None);
    assert_eq!(parse_u32(&chars("99999999999999999999999")), None);
    assert_eq!(parse_u32(&chars("")), None);
    assert_eq!(parse_u32(&chars("+")), None);
    assert_eq!(parse_u32(&chars("-1")), None);
    assert_eq!(parse_u32(&chars("1 ")), None);
    assert_eq!(parse_u32(&chars("12a")), None);
    assert_eq!(parse_u32(&chars("++1")), None);
}

#[test]
fn numbers_render_and_read_back() {
    assert_eq!(render_u32(0), chars("0"));
    assert_eq!(render_u32(19345), chars("19345"));
    assert_eq!(render_u32(4294967295), chars("4294967295"));
    for n in [0u32, 9, 10, 999, 1000, 65536, 4294967295] {
        assert_eq!(parse_u32(&render_u32(n)), Some(n));
        assert_eq!(from_chars(&render_u32(n)), n.to_string());
    }
}

#[test]
fn lines_drop_only_the_final_empty_piece() {
    assert_eq!(split_lines(&chars("a\nb\n")), pieces(&["a", "b"]));
    assert_eq!(split_lines(&chars("a\nb")), pieces(&["a", "b"]));
    assert_eq!(split_lines(&chars("a\n\nb\n\n")), pieces(&["a", "", "b", ""]));
    assert_eq!(split_lines(&chars("")), pieces(&[]));
    assert_eq!(render_lines(&pieces(&["a", "b"])), chars("a\nb\n"));
    assert_eq!(render_lines(&pieces(&[])), chars(""));
}

#[test]
fn record_keys_end_at_the_first_colon() {
    assert!(has_key(&chars("bob:x:1"), &chars("bob")));
    assert!(!has_key(&chars("bobby:x:1"), &chars("bob")));
    assert!(!has_key(&chars("bob"), &chars("bob")));
    assert!(!has_key(&chars("bo:b"), &chars("bob")));
    assert!(has_key(&chars(":x"), &chars("")));
    let lines: Vec<String> =
        ["ann:1", "bob:2", "bobby:3", "bob:4"].iter().map(|s| s.to_string()).collect();
    assert_eq!(position(&lines, &chars("bob")), Some(1));
    assert_eq!(position(&lines, &chars("bobby")), Some(2));
    assert_eq!(position(&lines, &chars("carl")), None);
    let mut kept = lines.clone();
    remove_keyed(&mut kept, &chars("bob"));
    assert_eq!(kept, vec!["ann:1".to_string(), "bobby:3".to_string()]);
    assert_eq!(next_id(&lines, 1), Some(1000));
    assert_eq!(next_id(&vec!["a:4999".to_string(), "b:12".to_string()], 1), Some(5000));
    assert_eq!(next_id(&vec!["a:4294967295".to_string()], 1), None);
}

#[test]
fn reconcile_stops_when_the_world_file_is_absent() {
    let mut store = WorldFile { content: None, backup: None };
    match reconcile(&PackagesDeclaration, &mut store, &vec!["git".to_string()], false) {
        Reconciled::Unread(DeclarativeAlpineError::ApkWorldFileError) => {}
        _ => panic!("the run went on without a world file"),
    }
    assert_eq!(store.content, None);
}

#[test]
fn reconcile_hands_back_the_package_diff() {
    let mut store = WorldFile { content: Some("vim\ncurl\n".to_string()), backup: None };
    match reconcile(&PackagesDeclaration, &mut store, &vec!["git".to_string(), "vim".to_string()], true) {
        Reconciled::Applied(diff, due) => {
            assert!(!due);
            assert_eq!(diff.missing, vec!["git".to_string()]);
            assert_eq!(diff.extras, vec!["curl".to_string()]);
        }
        _ => panic!("the dry run did not go through"),
    }
    assert_eq!(store.content, Some("vim\ncurl\n".to_string()));
    assert_eq!(store.backup, None);
}
