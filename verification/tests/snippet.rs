use okq::snippet::hit_snippet;

#[test]
fn a_fragment_has_its_whitespace_collapsed() {
    assert_eq!(hit_snippet("  the <b>graph</b>\n\t walks  edges ", "ignored"), "the <b>graph</b> walks edges");
}

#[test]
fn a_blank_fragment_falls_back_to_the_first_words_of_the_body() {
    assert_eq!(hit_snippet(" \n ", "one  two\nthree"), "one two three");
    let body: String = (1..=30).map(|i| format!("w{i} ")).collect();
    let expected: Vec<String> = (1..=24).map(|i| format!("w{i}")).collect();
    assert_eq!(hit_snippet("", &body), expected.join(" "));
}

#[test]
fn nothing_to_show_is_empty() {
    assert_eq!(hit_snippet("", "   "), "");
}
