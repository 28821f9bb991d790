use okq::tags::extract;

#[test]
fn bare_and_nested_tags() {
    assert_eq!(
        extract("A #simple tag and a #area/work nested one."),
        vec!["simple", "area/work"]
    );
}

#[test]
fn line_start_tag() {
    assert_eq!(extract("#Obsidian\nsome text"), vec!["obsidian"]);
}

#[test]
fn lowercased() {
    assert_eq!(extract("#KGPortal #Beef"), vec!["kgportal", "beef"]);
}

#[test]
fn headings_are_not_tags() {
    assert!(extract("# Heading\n## Subheading\n### Deep").is_empty());
}

#[test]
fn numeric_only_is_not_a_tag() {
    assert!(extract("issue #123 and #42").is_empty());
    assert_eq!(extract("#v2 and #2024/note"), vec!["v2", "2024/note"]);
}

#[test]
fn mid_word_hash_is_not_a_tag() {
    assert!(extract("foo#bar and https://example.com/#section").is_empty());
}

#[test]
fn punctuation_terminates() {
    assert_eq!(extract("(#tag) end. #other, next"), vec!["other"]);
}

#[test]
fn trailing_separators_trimmed() {
    assert_eq!(extract("#area/ and #done-"), vec!["area", "done"]);
}

#[test]
fn tags_code_is_ignored() {
    let body = "Inline `#notag` stays.\n\n```\n#alsonot\n```\n\nBut #real counts.\n";
    assert_eq!(extract(body), vec!["real"]);
}

#[test]
fn duplicates_kept_in_order() {
    assert_eq!(extract("#a #b #a"), vec!["a", "b", "a"]);
}

#[test]
fn empty_and_lone_hash() {
    assert!(extract("# \n#\na # b").is_empty());
}

#[test]
fn unicode_letters_make_a_tag() {
    assert_eq!(extract("#Ünïcode and #日本"), vec!["ünïcode", "日本"]);
}

#[test]
fn tags_are_lowercase_and_never_end_in_a_separator() {
    let tags = extract("See #Topic/Sub- and #a_b-- and #123 and #X9/");
    assert_eq!(tags, vec!["topic/sub".to_string(), "a_b".to_string(), "x9".to_string()]);
    for t in &tags {
        assert_eq!(t, &t.to_lowercase());
        assert!(!t.ends_with('/') && !t.ends_with('-'));
        assert!(t.chars().any(|c| c.is_alphabetic()));
    }
}
