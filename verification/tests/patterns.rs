use ask::ingest::wants_candidate;
use ask::models::DEFAULT_FILE_PATTERN;
use ask::patterns::{compile_file_pattern, resolve_file_pattern};

#[test]
fn resolve_file_pattern_uses_default_when_absent() {
    let resolved = resolve_file_pattern(None).expect("default regex must compile");

    assert_eq!(resolved, DEFAULT_FILE_PATTERN);
}

#[test]
fn resolve_file_pattern_rejects_invalid_regex() {
    let err =
        resolve_file_pattern(Some("[")).expect_err("invalid regex must fail request validation");

    assert!(err.message().contains("regex parse error"));
}

#[test]
fn patterns_select_paths() {
    let pattern = compile_file_pattern(r"(?i)^src/.+\.rs$").unwrap();
    assert!(pattern.is_match("src/main.rs"));
    assert!(pattern.is_match("SRC/Main.RS"));
    assert!(!pattern.is_match("docs/src/main.rs"));

    let err = match compile_file_pattern("[") {
        Ok(_) => panic!("the pattern is no regular expression"),
        Err(err) => err,
    };
    assert_eq!(
        err.message(),
        "invalid file pattern stored in queued job: ["
    );
    assert_eq!(
        resolve_file_pattern(Some(r"^a$")).as_deref(),
        Ok(r"^a$")
    );
}

#[test]
fn candidates_are_selected() {
    let all = compile_file_pattern(DEFAULT_FILE_PATTERN).unwrap();
    let rust = compile_file_pattern(r"^src/.+\.rs$").unwrap();
    assert!(wants_candidate("/r", "/r/src/main.rs", &rust, false));
    assert!(!wants_candidate("/r", "/r/docs/main.rs", &rust, false));
    assert!(!wants_candidate("/r", "/other/src/main.rs", &all, false));
    assert!(wants_candidate("/r", "/r/logo.PNG", &all, false));
    assert!(!wants_candidate("/r", "/r/logo.PNG", &all, true));
    assert!(wants_candidate("/r", "/r/notes.md", &all, true));
    assert!(wants_candidate("/r", "/r/png", &all, true));
}
