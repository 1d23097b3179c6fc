use declarative_alpine::declaration_trait::Declaration;
use declarative_alpine::error::DeclarativeAlpineError;
use declarative_alpine::packages::{PackagesDeclaration, PackagesDiff, WorldFile};

fn strings(items: &[&str]) -> Vec<String> {
    items.iter().map(|s| s.to_string()).collect()
}

fn world(content: &str) -> WorldFile {
    WorldFile { content: Some(content.to_string()), backup: None }
}

#[test]
fn diff_installs_missing_and_drops_extras() {
    let store = world("vim\ncurl\n");
    let current = PackagesDeclaration.get_current(&store).unwrap();
    assert_eq!(current, strings(&["vim", "curl"]));
    let diff = PackagesDeclaration.compute_diff(&current, &strings(&["git", "vim"]));
    assert_eq!(diff.missing, strings(&["git"]));
    assert_eq!(diff.extras, strings(&["curl"]));
}

#[test]
fn apply_rewrites_world_with_desired_atoms() {
    let mut store = world("vim\ncurl\n");
    let current = PackagesDeclaration.get_current(&store).unwrap();
    let diff = PackagesDeclaration.compute_diff(&current, &strings(&["git", "vim"]));
    let due = PackagesDeclaration.apply(&mut store, &diff, false).unwrap();
    assert!(due);
    assert_eq!(store.content, Some("vim\ngit\n".to_string()));
    assert_eq!(store.backup, Some("vim\ncurl\n".to_string()));
    assert!(PackagesDeclaration.conclude(&mut store, true, "").is_ok());
    assert_eq!(store.content, Some("vim\ngit\n".to_string()));
    assert_eq!(store.backup, Some("vim\ncurl\n".to_string()));
    let mut again = PackagesDeclaration.get_current(&store).unwrap();
    again.sort();
    assert_eq!(again, strings(&["git", "vim"]));
}

#[test]
fn reapplied_diff_is_empty() {
    let mut store = world("vim\ncurl\n\nbash\n");
    let desired = strings(&["git", "vim", "git"]);
    let current = PackagesDeclaration.get_current(&store).unwrap();
    let diff = PackagesDeclaration.compute_diff(&current, &desired);
    PackagesDeclaration.apply(&mut store, &diff, false).unwrap();
    let current = PackagesDeclaration.get_current(&store).unwrap();
    let diff = PackagesDeclaration.compute_diff(&current, &desired);
    assert!(diff.missing.is_empty());
    assert!(diff.extras.is_empty());
}

#[test]
fn diff_parts_are_disjoint_set_differences() {
    let current = strings(&["a", "b", "c", "b"]);
    let desired = strings(&["c", "d", "d", "e"]);
    let diff = PackagesDeclaration.compute_diff(&current, &desired);
    assert_eq!(diff.missing, strings(&["d", "e"]));
    assert_eq!(diff.extras, strings(&["a", "b"]));
    for atom in &diff.missing {
        assert!(!diff.extras.contains(atom));
    }
}

#[test]
fn empty_desired_removes_everything() {
    let store = world("vim\ncurl\n");
    let current = PackagesDeclaration.get_current(&store).unwrap();
    let diff = PackagesDeclaration.compute_diff(&current, &Vec::new());
    assert!(diff.missing.is_empty());
    assert_eq!(diff.extras, current);
    let mut store = store;
    PackagesDeclaration.apply(&mut store, &diff, false).unwrap();
    assert_eq!(store.content, Some(String::new()));
}

#[test]
fn blank_lines_and_duplicates_collapse_on_read() {
    let store = world("vim\n\nvim\ncurl");
    let current = PackagesDeclaration.get_current(&store).unwrap();
    assert_eq!(current, strings(&["vim", "curl"]));
}

#[test]
fn absent_world_file_fails_before_any_diff() {
    let mut store = WorldFile { content: None, backup: None };
    assert!(matches!(
        PackagesDeclaration.get_current(&store),
        Err(DeclarativeAlpineError::ApkWorldFileError)
    ));
    let diff = PackagesDiff { missing: strings(&["git"]), extras: Vec::new() };
    assert!(matches!(
        PackagesDeclaration.apply(&mut store, &diff, true),
        Err(DeclarativeAlpineError::ApkWorldFileError)
    ));
    assert_eq!(store.content, None);
    assert_eq!(store.backup, None);
}

#[test]
fn dry_run_changes_nothing() {
    let mut store = world("vim\ncurl\n");
    let diff = PackagesDiff { missing: strings(&["git"]), extras: strings(&["curl"]) };
    let due = PackagesDeclaration.apply(&mut store, &diff, true).unwrap();
    assert!(!due);
    assert_eq!(store.content, Some("vim\ncurl\n".to_string()));
    assert_eq!(store.backup, None);
}

#[test]
fn failed_upgrade_restores_world_and_carries_error_output() {
    let mut store = world("vim\ncurl\n");
    let diff = PackagesDiff { missing: strings(&["git"]), extras: strings(&["curl"]) };
    PackagesDeclaration.apply(&mut store, &diff, false).unwrap();
    assert_eq!(store.backup, Some("vim\ncurl\n".to_string()));
    let result = PackagesDeclaration.conclude(&mut store, false, "unsatisfiable constraints");
    match result {
        Err(DeclarativeAlpineError::ApkUpgradeError(text)) => {
            assert_eq!(text, "unsatisfiable constraints")
        }
        other => panic!("unexpected result: {:?}", other),
    }
    assert_eq!(store.content, Some("vim\ncurl\n".to_string()));
    assert_eq!(store.backup, None);
}

#[test]
fn failed_upgrade_without_backup_is_an_io_error() {
    let mut store = world("vim\n");
    let result = PackagesDeclaration.conclude(&mut store, false, "boom");
    assert!(matches!(result, Err(DeclarativeAlpineError::IoError(_))));
    assert_eq!(store.content, Some("vim\n".to_string()));
}

#[test]
fn failures_have_messages() {
    assert_eq!(DeclarativeAlpineError::ApkWorldFileError.message(), "APK world not found");
    assert_eq!(
        DeclarativeAlpineError::ApkUpgradeError("boom".to_string()).message(),
        "Failed to run 'apk upgrade': boom"
    );
    assert_eq!(DeclarativeAlpineError::IoError("x".to_string()).message(), "io Error");
    assert_eq!(
        DeclarativeAlpineError::TomlDeserializeError("x".to_string()).message(),
        "toml deserialize Error"
    );
    assert_eq!(
        DeclarativeAlpineError::TomlSerializeError("x".to_string()).message(),
        "toml serialize Error"
    );
    assert_eq!(
        DeclarativeAlpineError::EmptySlotsVectorIsEmpty.message(),
        "database: Empty_slots vector is empty"
    );
    assert_eq!(
        DeclarativeAlpineError::ConnectionNotSet(42).message(),
        "database: Connection 42 is not set. No data here."
    );
    assert_eq!(DeclarativeAlpineError::Unknown.message(), "unknown database error");
}

#[test]
fn atoms_with_odd_characters_survive_a_rewrite() {
    let mut store = world("dev-lang/rust\n@world:é\n");
    let diff = PackagesDeclaration.compute_diff(
        &PackagesDeclaration.get_current(&store).unwrap(),
        &strings(&["dev-lang/rust", "@world:é", "x"]),
    );
    PackagesDeclaration.apply(&mut store, &diff, false).unwrap();
    assert_eq!(store.content, Some("dev-lang/rust\n@world:é\nx\n".to_string()));
}
