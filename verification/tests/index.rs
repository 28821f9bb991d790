use okq::commands::index::{ancestors, inject, parent_dir};
use okq::templates::{INDEX_BEGIN, INDEX_END};

#[test]
fn parent_and_ancestors() {
    assert_eq!(parent_dir("adrs/0001.md"), "adrs");
    assert_eq!(parent_dir("top.md"), "");
    assert_eq!(ancestors("a/b/c"), vec!["", "a", "a/b", "a/b/c"]);
    assert_eq!(ancestors(""), vec![""]);
}

#[test]
fn index_inject_replaces_between_markers() {
    let existing = format!("# Hi\n\n{INDEX_BEGIN}\nold\n{INDEX_END}\n\n## Keep\n");
    let out = inject(&existing, &format!("{INDEX_BEGIN}\nnew\n{INDEX_END}"));
    assert!(out.contains("## Keep"));
    assert!(out.contains("new"));
    assert!(!out.contains("old"));
    assert_eq!(out.matches(INDEX_BEGIN).count(), 1);
}

#[test]
fn inject_appends_when_no_markers() {
    let out = inject("# Title\n\nprose\n", "BLOCK");
    assert!(out.starts_with("# Title"));
    assert!(out.trim_end().ends_with("BLOCK"));
}

#[test]
fn inject_twice_is_inject_once() {
    let block = format!("{INDEX_BEGIN}\n- [A](a.md)\n{INDEX_END}");
    let once = inject("# Title\n\nprose\n", &block);
    assert_eq!(inject(&once, &block), once);
}
