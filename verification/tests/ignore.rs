use okq::ignore_rules::{compile_ignore, IgnoreSet};

fn set(files: &[(&str, &str)]) -> IgnoreSet {
    let files: Vec<(String, String)> = files.iter().map(|(p, t)| (p.to_string(), t.to_string())).collect();
    let (s, failed) = IgnoreSet::load(&files);
    assert!(failed.is_empty());
    s
}

#[test]
fn directory_ignore_hides_from_find() {
    let s = set(&[(".okqignore", "notes/\n")]);
    assert!(!s.is_ignored("adrs/0001-real.md"));
    assert!(s.is_ignored("notes/scratch.md"));
    assert!(s.is_ignored("notes/keep.md"));
    assert!(s.is_active());
}

#[test]
fn no_ignore_reveals_everything() {
    let s = IgnoreSet::disabled();
    assert!(!s.is_ignored("notes/scratch.md"));
    assert!(!s.is_enabled());
    assert!(!s.is_active());
    assert!(s.files().is_empty());
}

#[test]
fn nested_negation_overrides_root() {
    let s = set(&[(".okqignore", "notes/\n"), ("notes/.okqignore", "!keep.md\n")]);
    assert!(!s.is_ignored("notes/keep.md"));
    assert!(s.is_ignored("notes/scratch.md"));
}

#[test]
fn negation_in_single_file() {
    let s = set(&[(".okqignore", "notes/\n!notes/keep.md\n")]);
    assert!(!s.is_ignored("notes/keep.md"));
    assert!(s.is_ignored("notes/scratch.md"));
}

#[test]
fn link_into_ignored_concept_is_dead() {
    let s = set(&[(".okqignore", "notes/scratch.md\n")]);
    assert!(s.is_ignored("notes/scratch.md"));
    assert!(!s.is_ignored("notes/keep.md"));
}

#[test]
fn comment_only_ignore_file_is_harmless() {
    let s = set(&[(".okqignore", "# just a comment\n\n")]);
    assert!(!s.is_ignored("notes/scratch.md"));
    assert!(!s.is_ignored("adrs/0001-real.md"));
}

#[test]
fn rules_outside_their_directory_do_not_apply() {
    let s = set(&[("notes/.okqignore", "*.md\n")]);
    assert!(s.is_ignored("notes/a.md"));
    assert!(!s.is_ignored("notesx/a.md"));
    assert!(!s.is_ignored("top.md"));
}

#[test]
fn files_are_listed_in_path_order() {
    let s = set(&[("notes/.okqignore", "y\n"), (".okqignore", "x\n")]);
    assert_eq!(s.files(), &vec![".okqignore".to_string(), "notes/.okqignore".to_string()]);
    assert!(s.is_enabled());
}

#[test]
fn disabled_excludes_nothing() {
    let s = IgnoreSet::disabled();
    assert!(!s.is_ignored("tests/a.md"));
    assert!(!s.is_active());
    assert!(s.files().is_empty());
}

#[test]
fn directory_pattern_excludes_descendants() {
    let s = set(&[(".okqignore", "tests/\n")]);
    assert!(s.is_ignored("tests/a.md"));
    assert!(s.is_ignored("tests/deep/b.md"));
    assert!(!s.is_ignored("features/a.md"));
}

#[test]
fn negation_reincludes() {
    let s = set(&[(".okqignore", "drafts/\n!drafts/keep.md\n")]);
    assert!(s.is_ignored("drafts/scratch.md"));
    assert!(!s.is_ignored("drafts/keep.md"));
}

#[test]
fn nested_file_overrides_shallower() {
    let s = set(&[(".okqignore", "notes/\n"), ("notes/.okqignore", "!keep.md\n")]);
    assert!(s.is_ignored("notes/scratch.md"));
    assert!(!s.is_ignored("notes/keep.md"));
    assert_eq!(s.files().len(), 2);
}

#[test]
fn no_ignore_files_means_inactive() {
    let s = set(&[]);
    assert!(!s.is_active());
    assert!(!s.is_ignored("a.md"));
}

#[test]
fn rule_text_is_read_as_a_gitignore_file() {
    let gi = compile_ignore("", "\u{feff}# comment\r\n\nbuild/  \r\nkeep\\ \n").unwrap();
    assert_eq!(gi.len(), 2);
    assert!(gi.matched_path_or_any_parents("build/x.md", false).is_ignore());
    assert!(gi.matched_path_or_any_parents("keep ", false).is_ignore());
}

#[test]
fn a_bad_glob_rejects_the_whole_file() {
    let files = vec![(".okqignore".to_string(), "a{b\n".to_string())];
    let (s, failed) = IgnoreSet::load(&files);
    assert_eq!(failed.len(), 1);
    assert_eq!(failed[0].0, ".okqignore");
    assert!(!s.is_active());
    assert_eq!(s.files().len(), 1);
}
