use okq::commands::skills::{list, parse_description, repo_skill_names, skill_name_from_path};

fn skill(name: &str, description: &str) -> (String, String) {
    (
        name.to_string(),
        format!("---\nname: {name}\ndescription: {description}\n---\n\n# {name}\n\nBody.\n"),
    )
}

fn embedded() -> Vec<(String, String)> {
    vec![
        skill("okq-explore", "Explore an OKF bundle with okq"),
        skill("okq-write-okf", "Write OKF concepts"),
        skill("okq-maintain", "Keep a bundle healthy"),
        skill("okq-reference", "The okq command reference"),
    ]
}

#[test]
fn embedded_skills_present() {
    let names: Vec<_> = list(&embedded()).into_iter().map(|s| s.name).collect();
    assert!(names.contains(&"okq-explore".to_string()));
    assert!(names.contains(&"okq-reference".to_string()));
    assert_eq!(names.len(), 4);
}

#[test]
fn descriptions_parsed() {
    let skills = list(&embedded());
    assert!(skills.iter().all(|s| !s.description.is_empty()));
    assert_eq!(skills[0].description, "Explore an OKF bundle with okq");
}

#[test]
fn description_stops_at_the_closing_fence_only_without_frontmatter() {
    assert_eq!(parse_description("title\n---\ndescription: late\n"), "");
    assert_eq!(parse_description("---\ntitle: x\n---\ndescription: after\n"), "after");
    assert_eq!(parse_description("no description here"), "");
}

#[test]
fn skill_name_extraction() {
    assert_eq!(skill_name_from_path("skills/okq-explore/SKILL.md").as_deref(), Some("okq-explore"));
    assert_eq!(skill_name_from_path("skills/okq-explore/other.md"), None);
    assert_eq!(skill_name_from_path("docs/x.md"), None);
    assert_eq!(skill_name_from_path("skills//SKILL.md"), None);
}

#[test]
fn repo_names_are_sorted_and_distinct() {
    let paths: Vec<String> = [
        "skills/b/SKILL.md",
        "README.md",
        "skills/a/SKILL.md",
        "skills/b/SKILL.md",
        "skills/a/notes.md",
    ]
    .iter()
    .map(|s| s.to_string())
    .collect();
    assert_eq!(repo_skill_names(&paths).unwrap(), vec!["a", "b"]);
    assert!(repo_skill_names(&vec!["README.md".to_string()]).is_err());
}
