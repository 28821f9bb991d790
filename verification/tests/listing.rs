use okq::commands::index::{build_block, scaffold};
use okq::commands::listing::{child_dirs, direct_concepts, index_dirs, index_update, plan_indexes};
use okq::model::ConceptRecord;
use okq::trust::ConceptTrust;
use okq::templates::{INDEX_BEGIN, INDEX_END};

fn strings(v: &[&str]) -> Vec<String> {
    v.iter().map(|s| s.to_string()).collect()
}

#[test]
fn listed_dirs_are_the_root_and_every_ancestor_in_order() {
    let paths = strings(&["features/search.md", "a/b/c.md", "top.md", "adrs/0001.md", "a/b/d.md"]);
    assert_eq!(index_dirs(&paths), strings(&["", "a", "a/b", "adrs", "features"]));
    assert_eq!(index_dirs(&Vec::new()), strings(&[""]));
}

#[test]
fn child_dirs_are_the_direct_subdirectories() {
    let dirs = strings(&["", "a", "a/b", "adrs", "features"]);
    assert_eq!(child_dirs(&dirs, ""), strings(&["a", "adrs", "features"]));
    assert_eq!(child_dirs(&dirs, "a"), strings(&["a/b"]));
    assert!(child_dirs(&dirs, "a/b").is_empty());
}

#[test]
fn direct_concepts_come_in_path_order() {
    let paths = strings(&["adrs/0002.md", "top.md", "adrs/0001.md", "a/b/c.md", "index-first.md"]);
    assert_eq!(direct_concepts(&paths, "adrs"), vec![2, 0]);
    assert_eq!(direct_concepts(&paths, ""), vec![4, 1]);
    assert!(direct_concepts(&paths, "a").is_empty());
}

#[test]
fn a_missing_index_is_created_from_the_scaffold() {
    let block = build_block(&Vec::new(), &Vec::new());
    let (file, content) = index_update("adrs", None, "kb", &block, 0);
    assert_eq!(file.path, "adrs/index.md");
    assert_eq!(file.verb, "created");
    assert_eq!(content.unwrap(), scaffold("adrs", "kb", &block));
    let (root, _) = index_update("", None, "kb", &block, 3);
    assert_eq!(root.path, "index.md");
    assert_eq!(root.concepts, 3);
}

#[test]
fn an_index_already_current_is_left_unchanged() {
    let block = format!("{INDEX_BEGIN}\n{INDEX_END}");
    let current = format!("# Adrs\n\n{block}\n");
    let (file, content) = index_update("adrs", Some(&current), "kb", &block, 0);
    assert_eq!(file.verb, "unchanged");
    assert!(content.is_none());
    let (stale, rewritten) = index_update("adrs", Some("# Adrs\n"), "kb", &block, 0);
    assert_eq!(stale.verb, "updated");
    assert_eq!(rewritten.unwrap(), format!("# Adrs\n\n{block}\n"));
}

fn concept(path: &str, type_: Option<&str>, title: &str) -> ConceptRecord {
    ConceptRecord {
        id: path.trim_end_matches(".md").to_string(),
        type_: type_.map(|t| t.to_string()),
        title: title.to_string(),
        path: path.to_string(),
        line: 1,
        tags: Vec::new(),
        trust: ConceptTrust::default(),
    }
}

/// Two ADRs and one feature, no index.md files yet.
fn two_adrs_one_feature() -> Vec<ConceptRecord> {
    vec![
        concept("adrs/0001-first.md", Some("adr"), "ADR-0001 — First"),
        concept("adrs/0002-second.md", Some("adr"), "ADR-0002 — Second"),
        concept("features/search.md", Some("feature"), "Search"),
    ]
}

/// The index files after the writes of `plan` (unwritten ones as before).
fn after(current: &[(String, Option<String>)], writes: &[(String, String)]) -> Vec<(String, Option<String>)> {
    current
        .iter()
        .map(|(d, old)| {
            let path = if d.is_empty() { "index.md".to_string() } else { format!("{d}/index.md") };
            let new = writes.iter().find(|(p, _)| *p == path).map(|(_, t)| t.clone());
            (d.clone(), new.or_else(|| old.clone()))
        })
        .collect()
}

fn fresh(records: &[ConceptRecord]) -> Vec<(String, Option<String>)> {
    let paths: Vec<String> = records.iter().map(|r| r.path.clone()).collect();
    index_dirs(&paths).into_iter().map(|d| (d, None)).collect()
}

/// The bundle's concepts (index files are navigation, not concepts), with
/// or without a third ADR.
fn with_indexes(third: bool) -> Vec<ConceptRecord> {
    let mut all = vec![
        concept("adrs/0001-first.md", Some("adr"), "ADR-0001 — First"),
        concept("adrs/0002-second.md", Some("adr"), "ADR-0002 — Second"),
    ];
    if third {
        all.push(concept("adrs/0003-third.md", Some("adr"), "ADR-0003 — Third"));
    }
    all.push(concept("features/search.md", Some("feature"), "Search"));
    all
}

#[test]
fn is_idempotent() {
    let records = two_adrs_one_feature();
    let current = fresh(&records);
    let first = plan_indexes(&records, &current, "bundle", false);
    assert_eq!(first.writes.len(), 3);
    let all = with_indexes(false);
    let second = plan_indexes(&all, &after(&current, &first.writes), "bundle", false);
    assert!(second.files.iter().all(|f| f.verb == "unchanged"), "a second run should change nothing");
    assert!(second.writes.is_empty());
}

#[test]
fn check_gates_on_stale_listings() {
    let records = two_adrs_one_feature();
    let current = fresh(&records);
    let first = plan_indexes(&records, &current, "bundle", false);
    let written = after(&current, &first.writes);
    let all = with_indexes(false);
    // Up to date: nothing to do.
    let up_to_date = plan_indexes(&all, &written, "bundle", true);
    assert!(up_to_date.files.iter().all(|f| f.verb == "unchanged"));
    // A new concept makes the adrs listing stale; --check reports it and writes nothing.
    let grown = with_indexes(true);
    let stale = plan_indexes(&grown, &written, "bundle", true);
    assert!(stale.writes.is_empty(), "--check must not write");
    let adrs = stale.files.iter().find(|f| f.path == "adrs/index.md").unwrap();
    assert_eq!(adrs.verb, "updated");
    let unchecked = plan_indexes(&grown, &written, "bundle", false);
    assert!(unchecked.writes.iter().any(|(p, t)| p == "adrs/index.md" && t.contains("0003-third")));
}
