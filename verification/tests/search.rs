use ask::models::{
    DocumentEmbedding, DocumentSearchResult, EmbedDocumentPayload, EmbeddingModel, StoredDocument,
    StoredJob,
};
use ask::repository::{embed_job_payload, insert_model};
use ask::responses::{
    check_ingest_request, check_mark_stale, ingest_response, load_active_model, queue_ingest,
    ActiveModelError, IngestOutcome, RootState,
};
use ask::search::{
    collapse_to_documents, expanded_raw_limit, validate_search, SearchDocument, SearchRefusal,
};
use ask::stats::{claimed_embed_payloads, load_embedding_stats_snapshot, NoEmbeddings};
use ask::store::Store;
use ask::types::{ChunkType, DocCategory, EmbedState, JobType};
use ask::vector_index::{active_index_requires_rebuild, index_bytes, plan_index_rows, IndexError};

#[test]
fn search_requests_are_checked() {
    let search = validate_search("  two words\n", None, None).unwrap();
    assert_eq!(search.query, "two words");
    assert_eq!(search.limit, 10);
    assert!(!search.include_location);
    let search = validate_search("q", Some(100), Some(true)).unwrap();
    assert_eq!(search.limit, 100);
    assert!(search.include_location);

    for (query, limit, refusal, message) in [
        (" \t", None, SearchRefusal::EmptyQuery, "query must not be empty"),
        ("q", Some(0), SearchRefusal::ZeroLimit, "limit must be greater than 0"),
        (
            "q",
            Some(101),
            SearchRefusal::LimitTooLarge,
            "limit must be less than or equal to 100",
        ),
        ("", Some(0), SearchRefusal::EmptyQuery, "query must not be empty"),
    ] {
        let err = validate_search(query, limit, None).unwrap_err();
        assert_eq!(err, refusal);
        assert_eq!(err.message(), message);
    }
}

#[test]
fn more_chunks_are_looked_for_than_documents() {
    for (limit, raw) in [(0, 0), (1, 4), (10, 40), (100, 400), (101, 400), (usize::MAX, 400)] {
        assert_eq!(expanded_raw_limit(limit), raw);
        assert_eq!(raw, limit.saturating_mul(4).min(400));
    }
}

fn hit(document_id: i64, start: i64, distance: f64) -> DocumentSearchResult {
    DocumentSearchResult {
        document_id,
        filepath: format!("/doc-{document_id}"),
        file_type: String::new(),
        doc_category: DocCategory::Resource,
        file_modified_at: 0,
        file_size: 0,
        document_updated_at: 0,
        embedding_id: start,
        model_id: 1,
        chunk_type: ChunkType::Content,
        chunk_start: start,
        chunk_end: start + 5,
        distance: distance.to_bits(),
    }
}

#[test]
fn documents_are_found_once_by_their_nearest_chunk() {
    let hits = [
        hit(2, 10, 0.1),
        hit(1, 20, 0.2),
        hit(2, 30, 0.3),
        hit(3, 40, 0.4),
        hit(1, 50, 0.5),
    ];
    let found = collapse_to_documents(&hits, 10, true);
    let shown: Vec<(&str, Option<i64>, Option<i64>, f64)> = found
        .iter()
        .map(|doc| {
            (
                doc.filepath.as_str(),
                doc.byte_start,
                doc.byte_end,
                f64::from_bits(doc.distance),
            )
        })
        .collect();
    assert_eq!(
        shown,
        vec![
            ("/doc-2", Some(10), Some(15), 0.1),
            ("/doc-1", Some(20), Some(25), 0.2),
            ("/doc-3", Some(40), Some(45), 0.4),
        ]
    );
    assert_eq!(
        collapse_to_documents(&hits, 1, false),
        vec![SearchDocument {
            filepath: "/doc-2".to_string(),
            distance: 0.1_f64.to_bits(),
            byte_start: None,
            byte_end: None,
        }]
    );
    assert!(collapse_to_documents(&[], 5, false).is_empty());
    assert_eq!(collapse_to_documents(&hits, 0, true), found);
}

fn directory(path: &str) -> RootState {
    RootState::Directory {
        canonical: path.to_string(),
    }
}

#[test]
fn ingest_requests_are_checked() {
    let payload =
        check_ingest_request("/res/./a", None, "/res", &directory("/res/a")).unwrap();
    assert_eq!(payload.root_path, "/res/a");
    assert_eq!(payload.file_pattern, ".*");
    let payload =
        check_ingest_request("/res", Some(r"(?i)^src/.+\.rs$"), "/res", &directory("/res")).unwrap();
    assert_eq!(payload.file_pattern, r"(?i)^src/.+\.rs$");

    let refused = |pattern: Option<&str>, found: &RootState| {
        let outcome = check_ingest_request("/asked", pattern, "/res", found).unwrap_err();
        let refused = ingest_response(outcome).unwrap_err();
        (refused.status, refused.code, refused.message)
    };
    assert_eq!(
        refused(None, &RootState::Missing),
        (404, "not_found", "path does not exist: /asked".to_string())
    );
    assert_eq!(
        refused(None, &RootState::NotADirectory),
        (400, "bad_request", "path is not a directory: /asked".to_string())
    );
    assert_eq!(
        refused(None, &directory("/resources")),
        (
            403,
            "forbidden",
            "path is outside the configured resource root: /asked".to_string()
        )
    );
    let (status, code, message) = refused(Some("["), &RootState::Missing);
    assert_eq!((status, code), (400, "bad_request"));
    assert!(message.starts_with("invalid file_pattern regex: regex parse error"));
}

#[test]
fn ingest_jobs_are_queued_once() {
    let mut store = Store::new();
    let outcome = queue_ingest(&mut store, JobType::IngestFolderGit, "{}", 10);
    let accepted = ingest_response(outcome).unwrap();
    assert_eq!(accepted.status, "queued");
    assert_eq!(accepted.job_type, JobType::IngestFolderGit);

    let again = queue_ingest(&mut store, JobType::IngestFolderGit, "{}", 11);
    assert!(matches!(again, IngestOutcome::Conflict(_)));
    let refused = ingest_response(again).unwrap_err();
    assert_eq!((refused.status, refused.code), (409, "conflict"));
    assert_eq!(
        refused.message,
        "a job with type 'ingest_folder_git' and payload '{}' is already queued or in progress"
    );
}

#[test]
fn mark_stale_empty_list_returns_400() {
    let refused = check_mark_stale(&[]).unwrap_err();
    assert_eq!(refused.status, 400);
    assert_eq!(refused.code, "bad_request");
    assert_eq!(refused.message, "document_ids must not be empty");
    assert!(check_mark_stale(&[999]).is_ok());
}

fn store_with_model(dimensions: i64) -> (Store, EmbeddingModel) {
    let mut store = Store::new();
    let mut model = EmbeddingModel {
        id: 0,
        name: "m".to_string(),
        dimensions,
        chunk_size: 512,
        chunk_overlap: 0,
        created_at: 1,
    };
    model.id = insert_model(&mut store, &model).unwrap();
    (store, model)
}

#[test]
fn the_active_model_has_to_be_there() {
    let (store, model) = store_with_model(2);
    assert_eq!(load_active_model(&store, Some(model.id)), Ok(model));
    assert_eq!(
        load_active_model(&store, None),
        Err(ActiveModelError::NoActiveModel)
    );
    assert_eq!(
        ActiveModelError::NoActiveModel.message(),
        "active embedding_search_state row is missing"
    );
    assert_eq!(
        load_active_model(&store, Some(9)).unwrap_err().message(),
        "active model 9 does not exist"
    );
}

fn add_document(store: &mut Store, id: i64, file_type: &str) {
    store.documents.last_id = id;
    store.documents.rows.push(StoredDocument {
        id,
        filepath: format!("/{id}"),
        file_type: file_type.to_string(),
        doc_category: "resource".to_string(),
        file_modified_at: 0,
        file_size: 0,
        updated_at: 0,
    });
}

fn add_embedding(
    store: &mut Store,
    document_id: i64,
    start: i64,
    state: EmbedState,
    embedding: Option<Vec<u8>>,
    created_at: i64,
) {
    store.embeddings.last_id += 1;
    store.embeddings.rows.push(DocumentEmbedding {
        id: store.embeddings.last_id,
        document_id,
        model_id: 1,
        chunk_type: ChunkType::Content,
        chunk_start: start,
        chunk_end: start + 1,
        state,
        embedding,
        created_at,
    });
}

#[test]
fn stats_count_documents() {
    let (mut store, model) = store_with_model(2);
    for (id, file_type) in [(1, "md"), (2, "txt"), (3, "md"), (4, ""), (5, "rs")] {
        add_document(&mut store, id, file_type);
    }
    let now = 1_000_000;
    add_embedding(&mut store, 1, 0, EmbedState::Embedded, None, now - 300);
    add_embedding(&mut store, 1, 1, EmbedState::Embedded, None, now);
    add_embedding(&mut store, 2, 0, EmbedState::Embedded, None, now - 301);
    add_embedding(&mut store, 3, 0, EmbedState::Embedded, None, now);
    add_embedding(&mut store, 3, 1, EmbedState::Pending, None, now);
    add_embedding(&mut store, 4, 0, EmbedState::Stale, None, now);
    for (id, claimed_at) in [(1, Some(now - 86_400)), (2, Some(now - 86_401)), (3, None)] {
        store.jobs.rows.push(StoredJob {
            id,
            job_type: "embed_document".to_string(),
            payload: embed_job_payload(3, id),
            claimed_at,
            created_at: 0,
        });
    }
    assert_eq!(claimed_embed_payloads(&store, now), vec![embed_job_payload(3, 1)]);

    let claimed = [
        EmbedDocumentPayload {
            document_id: 3,
            model_id: 1,
        },
        EmbedDocumentPayload {
            document_id: 4,
            model_id: 2,
        },
        EmbedDocumentPayload {
            document_id: 5,
            model_id: 1,
        },
    ];
    let stats = load_embedding_stats_snapshot(&store, model.id, &claimed, now).unwrap();
    assert_eq!(stats.total_documents, 5);
    assert_eq!(stats.embedded_documents, 2);
    assert_eq!(stats.failed_locked_documents, 1);
    assert_eq!(stats.remaining_documents, 2);
    assert_eq!(stats.documents_embedded_last_five_minutes, 1);
    let types: Vec<(&str, usize)> = stats
        .documents_by_file_type
        .iter()
        .map(|count| (count.file_type.as_str(), count.document_count))
        .collect();
    assert_eq!(types, vec![("", 1), ("md", 2), ("rs", 1), ("txt", 1)]);
    assert_eq!(stats.document_embeddings_total, 6);
    assert_eq!(stats.document_embeddings_embedded, 4);
    assert_eq!(stats.document_embeddings_pending, 1);
    assert_eq!(stats.document_embeddings_stale, 1);

    assert_eq!(
        load_embedding_stats_snapshot(&store, 2, &claimed, now),
        Err(NoEmbeddings)
    );
}

#[test]
fn the_index_is_built_anew_for_another_model() {
    let (_, model) = store_with_model(2);
    assert!(active_index_requires_rebuild(false, Some((model.id, 2)), &model));
    assert!(active_index_requires_rebuild(true, None, &model));
    assert!(active_index_requires_rebuild(true, Some((model.id, 3)), &model));
    assert!(active_index_requires_rebuild(true, Some((9, 2)), &model));
    assert!(!active_index_requires_rebuild(true, Some((model.id, 2)), &model));
}

#[test]
fn the_index_holds_vectors_of_the_model() {
    let (mut store, model) = store_with_model(2);
    add_document(&mut store, 1, "md");
    add_embedding(&mut store, 1, 0, EmbedState::Embedded, Some(vec![0; 8]), 0);
    add_embedding(&mut store, 1, 1, EmbedState::Embedded, None, 0);
    add_embedding(&mut store, 1, 2, EmbedState::Stale, Some(vec![0; 9]), 0);
    add_embedding(&mut store, 1, 3, EmbedState::Embedded, Some(vec![1; 8]), 0);
    assert_eq!(plan_index_rows(&store, &model), Ok(vec![1, 4]));
    let held = |i: usize, active: Option<i64>| index_bytes(&store.embeddings.rows[i], active);
    assert_eq!(held(0, Some(model.id)), Some(vec![0; 8]));
    assert_eq!(held(0, Some(9)), None);
    assert_eq!(held(0, None), None);
    assert_eq!(held(1, Some(model.id)), None);
    assert_eq!(held(2, Some(model.id)), None);

    add_embedding(&mut store, 1, 4, EmbedState::Embedded, Some(vec![1; 7]), 0);
    assert_eq!(
        plan_index_rows(&store, &model).unwrap_err().message(),
        "cannot backfill vector search index: 1 embedded rows for model m have invalid dimensions"
    );
    let with = |dimensions: i64| EmbeddingModel {
        dimensions,
        ..model.clone()
    };
    assert_eq!(plan_index_rows(&store, &with(0)), Err(IndexError::NoDimensions));
    assert_eq!(
        plan_index_rows(&store, &with(-1)).unwrap_err().message(),
        "embedding dimensions must fit into usize"
    );
    assert_eq!(
        IndexError::NoDimensions.message(),
        "embedding dimensions must be positive"
    );
}
