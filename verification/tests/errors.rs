use okq::error::{check_code, AppError};

#[test]
fn messages_quote_the_input() {
    let e = AppError::ConceptNotFound { input: "adrs/x".to_string() };
    assert_eq!(e.message(), "no concept found for \"adrs/x\"");
    assert_eq!(e.exit_code(), 4);
    let e = AppError::Index("locked".to_string());
    assert_eq!(e.message(), "search index error: locked");
    assert_eq!(e.exit_code(), 1);
}

#[test]
fn ambiguity_lists_every_candidate() {
    let e = AppError::ConceptAmbiguous { input: "x".to_string(), candidates: vec!["a/x".to_string(), "b/x".to_string()] };
    assert_eq!(e.message(), "\"x\" matches multiple concepts; disambiguate: a/x, b/x");
    let e = AppError::SectionAmbiguous {
        concept: "a.md".to_string(),
        query: "Intro".to_string(),
        candidates: vec!["Intro (line 3)".to_string(), "Intro (line 9)".to_string()],
    };
    assert_eq!(e.message(), "section \"Intro\" is ambiguous in concept \"a.md\"; candidates: Intro (line 3); Intro (line 9)");
    assert_eq!(e.exit_code(), 5);
}

#[test]
fn a_check_fails_only_when_it_found_something() {
    assert_eq!(check_code(true, 2), 3);
    assert_eq!(check_code(true, 0), 0);
    assert_eq!(check_code(false, 2), 0);
}
