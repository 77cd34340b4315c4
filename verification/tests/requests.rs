use ask::models::{IngestFolderPayload, DEFAULT_FILE_PATTERN};
use ask::responses::{
    check_ingest_request, ingest_response, internal_error, load_active_model, queue_ingest,
    Accepted, Refused, RootState,
};
use ask::search::validate_search;
use ask::store::Store;
use ask::types::JobType;

const RESOURCES: &str = "/resources";

fn payload_json(payload: &IngestFolderPayload) -> String {
    format!(
        r#"{{"root_path":"{}","file_pattern":"{}"}}"#,
        payload.root_path, payload.file_pattern
    )
}

/// Handles a request to ingest a directory.
fn ingest(
    store: &mut Store,
    root_path: &str,
    file_pattern: Option<&str>,
    found: RootState,
) -> Result<Accepted, Refused> {
    let outcome = match check_ingest_request(root_path, file_pattern, RESOURCES, &found) {
        Ok(payload) => queue_ingest(store, JobType::IngestFolder, &payload_json(&payload), 10),
        Err(outcome) => outcome,
    };
    ingest_response(outcome)
}

fn directory(path: &str) -> RootState {
    RootState::Directory {
        canonical: path.to_string(),
    }
}

#[test]
fn ingest_nonexistent_path_returns_404() {
    let mut store = Store::new();
    let asked = "/definitely-does-not-exist-12345";
    let refused = ingest(&mut store, asked, None, RootState::Missing).unwrap_err();
    assert_eq!(refused.status, 404);
    assert_eq!(refused.code, "not_found");
}

#[test]
fn ingest_file_path_returns_400() {
    let mut store = Store::new();
    let asked = "/resources/not_a_dir";
    let refused = ingest(&mut store, asked, None, RootState::NotADirectory).unwrap_err();
    assert_eq!(refused.status, 400);
    assert_eq!(refused.code, "bad_request");
}

#[test]
fn ingest_valid_dir_returns_200() {
    let mut store = Store::new();
    let asked = "/resources/my_resources";
    let accepted = ingest(&mut store, asked, None, directory(asked)).unwrap();
    assert_eq!(accepted.status, "queued");
    assert_eq!(accepted.job_type.as_str(), "ingest_folder");
}

#[test]
fn ingest_path_outside_resource_root_returns_403() {
    let mut store = Store::new();
    let refused = ingest(&mut store, "/outside", None, directory("/outside")).unwrap_err();
    assert_eq!(refused.status, 403);
    assert_eq!(refused.code, "forbidden");
    assert!(store.jobs.rows.is_empty());
}

#[test]
fn ingest_without_file_pattern_queues_default_pattern() {
    let asked = "/resources/default_pattern";
    let payload = check_ingest_request(asked, None, RESOURCES, &directory(asked)).unwrap();
    assert_eq!(payload.file_pattern, DEFAULT_FILE_PATTERN);
    assert_eq!(payload.root_path, asked);
}

#[test]
fn ingest_with_custom_file_pattern_queues_resolved_pattern() {
    let asked = "/resources/custom_pattern";
    let pattern = r"(?i)^src/.+\.rs$";
    let payload = check_ingest_request(asked, Some(pattern), RESOURCES, &directory(asked)).unwrap();
    assert_eq!(payload.file_pattern, r"(?i)^src/.+\.rs$");
}

#[test]
fn ingest_invalid_file_pattern_returns_400() {
    let mut store = Store::new();
    let asked = "/resources/invalid_pattern";
    let refused = ingest(&mut store, asked, Some("["), directory(asked)).unwrap_err();
    assert_eq!(refused.status, 400);
    assert_eq!(refused.code, "bad_request");
    assert!(refused.message.contains("invalid file_pattern regex"));
}

#[test]
fn ingest_duplicate_path_returns_409() {
    let mut store = Store::new();
    let asked = "/resources/docs";
    assert!(ingest(&mut store, asked, None, directory(asked)).is_ok());
    let refused = ingest(&mut store, asked, None, directory(asked)).unwrap_err();
    assert_eq!(refused.status, 409);
    assert_eq!(refused.code, "conflict");
    assert!(refused.message.contains("already queued or in progress"));
}

#[test]
fn ingest_canonicalized_duplicate_path_returns_409() {
    let mut store = Store::new();
    let canonical = "/resources/canonical_docs";
    assert!(ingest(&mut store, canonical, None, directory(canonical)).is_ok());
    let asked = "/resources/canonical_docs/.";
    let refused = ingest(&mut store, asked, None, directory(canonical)).unwrap_err();
    assert_eq!(refused.status, 409);
    assert_eq!(refused.code, "conflict");
}

#[test]
fn ingest_different_dirs_both_succeed() {
    let mut store = Store::new();
    for asked in ["/resources/a", "/resources/b"] {
        assert!(ingest(&mut store, asked, None, directory(asked)).is_ok());
    }
    assert_eq!(store.jobs.rows.len(), 2);
}

#[test]
fn search_empty_query_returns_400() {
    let refusal = validate_search("   ", None, None).unwrap_err();
    assert_eq!(refusal.message(), "query must not be empty");
    assert_eq!(
        refusal.refused(),
        Refused {
            status: 400,
            code: "bad_request",
            message: "query must not be empty".to_string(),
        }
    );
}

#[test]
fn search_limit_zero_returns_400() {
    let refusal = validate_search("anything", Some(0), None).unwrap_err();
    assert_eq!(refusal.message(), "limit must be greater than 0");
    assert_eq!(
        refusal.refused(),
        Refused {
            status: 400,
            code: "bad_request",
            message: "limit must be greater than 0".to_string(),
        }
    );
}

#[test]
fn search_limit_above_max_returns_400() {
    let refusal = validate_search("anything", Some(101), None).unwrap_err();
    assert_eq!(refusal.message(), "limit must be less than or equal to 100");
    assert_eq!(
        refusal.refused(),
        Refused {
            status: 400,
            code: "bad_request",
            message: "limit must be less than or equal to 100".to_string(),
        }
    );
    assert!(validate_search("anything", Some(100), None).is_ok());
}

#[test]
fn search_without_active_model_state_returns_500() {
    let refused = load_active_model(&Store::new(), None).unwrap_err().refused();
    assert_eq!(refused.status, 500);
    assert_eq!(refused.code, "internal_error");
    assert_eq!(
        refused.message,
        "failed to load active model: active embedding_search_state row is missing"
    );
}

#[test]
fn internal_errors_are_answered_with_500() {
    let refused = internal_error("database error: locked".to_string());
    assert_eq!(refused.status, 500);
    assert_eq!(refused.code, "internal_error");
    assert_eq!(refused.message, "database error: locked");
}
