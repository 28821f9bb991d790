use okq::wikilinks::extract;

fn targets(body: &str) -> Vec<String> {
    extract(body).into_iter().map(|w| w.target).collect()
}

#[test]
fn bare_and_aliased_and_pathed() {
    assert_eq!(
        targets("See [[Note]], [[Other|shown]], and [[folder/Deep]]."),
        vec!["Note", "Other", "folder/Deep"]
    );
}

#[test]
fn anchors_and_blocks_are_stripped() {
    assert_eq!(
        targets("[[Note#Heading]] [[Note#^block-id]] [[Note#Heading|Alias]]"),
        vec!["Note", "Note", "Note"]
    );
}

#[test]
fn embeds_are_links_too() {
    assert_eq!(
        targets("![[Note]] and ![[img/Diagram#Overview]]"),
        vec!["Note", "img/Diagram"]
    );
}

#[test]
fn md_suffix_and_spaces_tolerated() {
    assert_eq!(
        targets("[[My Note.md]] [[  Spaced  |x]]"),
        vec!["My Note", "Spaced"]
    );
}

#[test]
fn same_note_and_empty_refs_skipped() {
    assert!(targets("[[#Heading]] [[#^block]] [[]] [[ ]]").is_empty());
}

#[test]
fn wikilinks_code_is_ignored() {
    let body =
        "Inline `[[NotALink]]` stays.\n\n```\n[[AlsoNot]]\n```\n\nBut [[Real]] counts.\n";
    assert_eq!(targets(body), vec!["Real"]);
}

#[test]
fn adjacent_links_read_separately() {
    assert_eq!(targets("[[a]] [[b]][[c]]"), vec!["a", "b", "c"]);
}

#[test]
fn unterminated_is_not_a_link() {
    assert!(targets("a [[ dangling with no close").is_empty());
}

#[test]
fn external_targets_skipped() {
    assert!(targets("[[https://example.com|site]]").is_empty());
}

#[test]
fn tilde_fences_and_crlf_lines() {
    let body = "~~~\n[[Hidden]]\n~~~\r\n[[Shown]]\r\n";
    assert_eq!(targets(body), vec!["Shown"]);
}

#[test]
fn nested_open_breaks_the_first_span() {
    assert_eq!(targets("[[a [[b]]"), vec!["b"]);
}

#[test]
fn targets_never_hold_an_alias_an_anchor_or_a_scheme() {
    let found = extract("[[A|alias]] [[https://example.com]] [[B#part|x]] [[ | ]] [[C.md]]");
    let names: Vec<&str> = found.iter().map(|w| w.target.as_str()).collect();
    assert_eq!(names, vec!["A", "B", "C"]);
    assert!(found.iter().all(|w| !w.target.is_empty() && !w.target.contains('|') && !w.target.contains('#')));
}
