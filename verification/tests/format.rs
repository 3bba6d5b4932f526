use dq_core::{by_name, detect};

#[test]
fn detect_picks_format_by_extension() {
    let f = detect("a.json").expect("json");
    assert_eq!(f.name(), "json");
}

#[test]
fn detect_returns_none_for_unknown_extension() {
    assert!(detect("a.unknownext").is_none());
}

#[test]
fn detect_resolves_xml_extension_to_xml_parser() {
    let f = detect("pom.xml").expect("xml registered");
    assert_eq!(f.name(), "xml");
}

#[test]
fn by_name_lookup() {
    assert!(by_name("yaml").is_some());
    assert!(by_name("nope").is_none());
}

#[test]
fn detect_filename_fallback_resolves_after_stage_two_registration() {
    let gi = detect(".gitignore").expect("ignore-list registered");
    assert_eq!(gi.name(), "ignore-list");
    let docker = detect("Dockerfile").expect("dockerfile registered");
    assert_eq!(docker.name(), "dockerfile");
    let dotenv = detect(".env").expect("dotenv registered");
    assert_eq!(dotenv.name(), "dotenv");
    assert!(detect("a.json").is_some());
}

#[test]
fn detect_filename_fallback_is_case_insensitive_lowercase_dockerfile() {
    let docker = detect("dockerfile").expect("dockerfile registered");
    assert_eq!(docker.name(), "dockerfile");
}

#[test]
fn detect_filename_fallback_is_case_insensitive_uppercase_dotfile() {
    let gi = detect(".GITIGNORE").expect("ignore-list registered");
    assert_eq!(gi.name(), "ignore-list");
}

#[test]
fn detect_looks_at_the_last_part_of_a_path() {
    let name = |path: &str| detect(path).map(|f| f.name());
    assert_eq!(name("a/b.d/c.JSON"), Some("json"));
    assert_eq!(name("a/b.json/"), Some("json"));
    assert_eq!(name("a/b.json/./"), Some("json"));
    assert_eq!(name("/.env"), Some("dotenv"));
    assert_eq!(name("x.yaml/.."), None);
    assert_eq!(name("./."), None);
    assert_eq!(name("/"), None);
    assert_eq!(name(""), None);
    assert_eq!(name("a.json/b"), None);
}
