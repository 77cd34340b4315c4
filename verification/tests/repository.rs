use ask::models::{
    Document, DocumentEmbedding, EmbeddedChunk, EmbeddingIdentity, EmbeddingModel, JobQueueEntry,
    StoredDocument, StoredJob,
};
use ask::repository::{
    claim_job, complete_job, defer_job_for_retry, delete_document,
    delete_pending_embeddings_for_model, document_hash, embed_job_payload, enqueue_job,
    find_document_by_id, find_document_by_path, find_model_by_id, find_model_by_identity,
    find_model_by_name, ingest_document, insert_model, insert_pending_embeddings, list_documents,
    list_recoverable_embeddings_for_model, mark_documents_stale,
    replace_embeddings_for_document_model, seed_embed_jobs, upsert_document,
    upsert_document_and_replace_pending_embeddings,
    upsert_document_and_replace_pending_embeddings_with_hook, HookError, RepositoryError,
};
use ask::store::Store;
use ask::types::{ChunkType, DocCategory, EmbedState, JobType};

const STALE_JOB_AGE_SECS: i64 = 86_400;

fn setup_db() -> Store {
    Store::new()
}

/// A store with models of the ids 1 to 9.
fn setup_documents_db() -> Store {
    let mut store = Store::new();
    for i in 1..10 {
        let id = insert_model(&mut store, &model(&format!("model-{i}"), 512)).unwrap();
        assert_eq!(id, i);
    }
    store
}

fn model(name: &str, chunk_size: i64) -> EmbeddingModel {
    EmbeddingModel {
        id: 0,
        name: name.to_string(),
        dimensions: 1024,
        chunk_size,
        chunk_overlap: 0,
        created_at: 1,
    }
}

fn document(filepath: &str) -> Document {
    Document {
        id: 0,
        filepath: filepath.to_string(),
        file_type: "txt".to_string(),
        doc_category: DocCategory::Resource,
        file_modified_at: 100,
        file_size: 10,
        updated_at: 100,
    }
}

fn add_embedding(
    store: &mut Store,
    document_id: i64,
    model_id: i64,
    chunk: (ChunkType, i64, i64),
    state: EmbedState,
    embedding: Option<Vec<u8>>,
) {
    store.embeddings.last_id += 1;
    store.embeddings.rows.push(DocumentEmbedding {
        id: store.embeddings.last_id,
        document_id,
        model_id,
        chunk_type: chunk.0,
        chunk_start: chunk.1,
        chunk_end: chunk.2,
        state,
        embedding,
        created_at: 100,
    });
}

fn enqueue(store: &mut Store, payload: &str, now: i64) -> Result<(), RepositoryError> {
    enqueue_job(store, &JobType::IngestFolder, payload, now)
}

fn count(store: &Store) -> usize {
    store.jobs.rows.len()
}

fn get_job(store: &Store, id: i64) -> &StoredJob {
    store
        .jobs
        .rows
        .iter()
        .find(|row| row.id == id)
        .expect("job lookup must succeed")
}

fn root_path(entry: &JobQueueEntry) -> String {
    let parsed: serde_json::Value = serde_json::from_str(&entry.payload).unwrap();
    parsed["root_path"].as_str().unwrap().to_string()
}

#[test]
fn enqueue_creates_job() {
    let mut conn = setup_db();
    enqueue(&mut conn, r#"{"root_path":"/tmp"}"#, 1000).unwrap();
    assert_eq!(count(&conn), 1);
}

#[test]
fn enqueue_duplicate_payload_rejected() {
    let mut conn = setup_db();
    enqueue(&mut conn, r#"{"root_path":"/tmp"}"#, 1000).unwrap();
    let err = enqueue(&mut conn, r#"{"root_path":"/tmp"}"#, 1001).unwrap_err();
    assert!(err.message().contains("already queued or in progress"));
    assert_eq!(
        err.message(),
        r#"a job with type 'ingest_folder' and payload '{"root_path":"/tmp"}' is already queued or in progress"#
    );
    assert_eq!(count(&conn), 1);
}

#[test]
fn enqueue_different_payload_allowed() {
    let mut conn = setup_db();
    enqueue(&mut conn, r#"{"root_path":"/tmp"}"#, 1000).unwrap();
    enqueue(&mut conn, r#"{"root_path":"/other"}"#, 1001).unwrap();
    assert_eq!(count(&conn), 2);
}

#[test]
fn enqueue_same_type_different_payload_allowed() {
    let mut conn = setup_db();
    enqueue(&mut conn, r#"{"root_path":"/a"}"#, 1000).unwrap();
    enqueue(&mut conn, r#"{"root_path":"/b"}"#, 1001).unwrap();
    assert_eq!(count(&conn), 2);
}

#[test]
fn enqueue_replaces_stale_job() {
    let mut conn = setup_db();
    let now = 100_000i64;
    enqueue(&mut conn, r#"{"root_path":"/tmp"}"#, now).unwrap();

    conn.jobs.rows[0].claimed_at = Some(now - STALE_JOB_AGE_SECS - 1);

    let later = now + STALE_JOB_AGE_SECS + 10;
    enqueue(&mut conn, r#"{"root_path":"/tmp"}"#, later).unwrap();
    assert_eq!(count(&conn), 1);

    let job = get_job(&conn, 1);
    assert_eq!(job.claimed_at, None);
    assert_eq!(job.created_at, later);
}

#[test]
fn enqueue_rejects_active_job() {
    let mut conn = setup_db();
    let now = 100_000i64;
    enqueue(&mut conn, r#"{"root_path":"/tmp"}"#, now).unwrap();

    conn.jobs.rows[0].claimed_at = Some(now);

    let err = enqueue(&mut conn, r#"{"root_path":"/tmp"}"#, now + 10).unwrap_err();
    assert!(err.message().contains("already queued or in progress"));
    assert_eq!(count(&conn), 1);
}

#[test]
fn enqueue_active_becomes_stale_and_replaced() {
    let mut conn = setup_db();
    let now = 100_000i64;
    enqueue(&mut conn, r#"{"root_path":"/tmp"}"#, now).unwrap();

    conn.jobs.rows[0].claimed_at = Some(now);

    let later = now + STALE_JOB_AGE_SECS + 10;
    enqueue(&mut conn, r#"{"root_path":"/tmp"}"#, later).unwrap();
    assert_eq!(count(&conn), 1);

    let job = get_job(&conn, 1);
    assert_eq!(job.claimed_at, None);
    assert_eq!(job.created_at, later);
}

#[test]
fn enqueue_without_an_id_left_is_refused() {
    let mut conn = setup_db();
    conn.jobs.last_id = i64::MAX;
    let err = enqueue(&mut conn, "{}", 1).unwrap_err();
    assert_eq!(err.message(), "database or disk is full");
    assert_eq!(count(&conn), 0);
}

#[test]
fn claim_returns_none_when_empty() {
    let mut conn = setup_db();
    let result = claim_job(&mut conn, 1000).unwrap();
    assert!(result.is_none());
}

#[test]
fn claim_returns_oldest_pending_job() {
    let mut conn = setup_db();
    enqueue(&mut conn, r#"{"root_path":"/a"}"#, 100).unwrap();
    enqueue(&mut conn, r#"{"root_path":"/b"}"#, 200).unwrap();

    let entry = claim_job(&mut conn, 1000).unwrap().unwrap();
    assert_eq!(root_path(&entry), "/a");
    assert_eq!(entry.claimed_at, Some(1000));
    assert_eq!(count(&conn), 2);
}

#[test]
fn claim_does_not_return_claimed_job() {
    let mut conn = setup_db();
    enqueue(&mut conn, r#"{"root_path":"/tmp"}"#, 100).unwrap();
    claim_job(&mut conn, 200).unwrap().unwrap();

    let result = claim_job(&mut conn, 300).unwrap();
    assert!(result.is_none());
}

#[test]
fn claim_reclaims_stale_job() {
    let mut conn = setup_db();
    let now = 100_000i64;
    enqueue(&mut conn, r#"{"root_path":"/tmp"}"#, now).unwrap();
    conn.jobs.rows[0].claimed_at = Some(now - STALE_JOB_AGE_SECS - 1);

    let entry = claim_job(&mut conn, now + STALE_JOB_AGE_SECS + 10)
        .unwrap()
        .unwrap();

    assert_eq!(entry.id, 1);
    assert_eq!(entry.claimed_at, Some(now + STALE_JOB_AGE_SECS + 10));
}

#[test]
fn claim_rejects_unknown_job_type() {
    let mut conn = setup_db();
    conn.jobs.last_id = 1;
    conn.jobs.rows.push(StoredJob {
        id: 1,
        job_type: "not_a_real_job_type".to_string(),
        payload: r#"{"root_path":"/tmp"}"#.to_string(),
        claimed_at: None,
        created_at: 100,
    });

    let err = claim_job(&mut conn, 200).unwrap_err();
    let err_text = err.message();

    assert!(
        err_text.contains("invalid JobType value"),
        "unexpected error: {err_text}"
    );
    assert_eq!(get_job(&conn, 1).claimed_at, None);
}

#[test]
fn claim_picks_next_after_first_completed() {
    let mut conn = setup_db();
    enqueue(&mut conn, r#"{"root_path":"/a"}"#, 100).unwrap();
    enqueue(&mut conn, r#"{"root_path":"/b"}"#, 200).unwrap();

    let first = claim_job(&mut conn, 300).unwrap().unwrap();
    complete_job(&mut conn, first.id);

    let second = claim_job(&mut conn, 400).unwrap().unwrap();
    assert_eq!(root_path(&second), "/b");
}

#[test]
fn claim_concurrent_safety_single_winner() {
    let mut shared = setup_db();
    enqueue(&mut shared, r#"{"root_path":"/tmp"}"#, 100).unwrap();

    let r1 = claim_job(&mut shared, 500).unwrap();
    let r2 = claim_job(&mut shared, 500).unwrap();

    let claimed = [&r1, &r2].iter().filter(|result| result.is_some()).count();
    assert_eq!(claimed, 1, "exactly one concurrent claim should succeed");
}

#[test]
fn complete_removes_job() {
    let mut conn = setup_db();
    enqueue(&mut conn, r#"{"root_path":"/tmp"}"#, 100).unwrap();
    assert_eq!(count(&conn), 1);

    let entry = claim_job(&mut conn, 200).unwrap().unwrap();
    complete_job(&mut conn, entry.id);
    assert_eq!(count(&conn), 0);
}

#[test]
fn deferred_job_waits_for_its_delay() {
    let mut conn = setup_db();
    enqueue(&mut conn, "{}", 100).unwrap();
    let entry = claim_job(&mut conn, 200).unwrap().unwrap();

    defer_job_for_retry(&mut conn, entry.id, 1_000, 300);

    assert!(claim_job(&mut conn, 1_300).unwrap().is_none());
    assert_eq!(claim_job(&mut conn, 1_301).unwrap().unwrap().id, entry.id);

    defer_job_for_retry(&mut conn, entry.id, i64::MAX, u64::MAX);
    assert_eq!(get_job(&conn, entry.id).claimed_at, Some(i64::MAX));
    defer_job_for_retry(&mut conn, 99, 0, 0);
    assert_eq!(get_job(&conn, entry.id).claimed_at, Some(i64::MAX));
}

#[test]
fn upsert_document_reuses_existing_row_for_unchanged_file() {
    let mut conn = setup_documents_db();
    let doc = document("/tmp/a.txt");

    let (first_id, first_changed) = upsert_document(&mut conn, &doc).unwrap();
    let (second_id, second_changed) = upsert_document(&mut conn, &doc).unwrap();

    assert_eq!(first_id, second_id);
    assert!(first_changed);
    assert!(!second_changed);

    let row_count = conn.documents.rows.len();
    assert_eq!(row_count, 1, "unchanged upserts must not create duplicates");
}

#[test]
fn upsert_document_updates_existing_row_and_marks_embeddings_stale() {
    let mut conn = setup_documents_db();
    let original = document("/tmp/a.txt");
    let (doc_id, _) = upsert_document(&mut conn, &original).unwrap();

    add_embedding(
        &mut conn,
        doc_id,
        1,
        (ChunkType::Filename, 0, 0),
        EmbedState::Embedded,
        Some(vec![1]),
    );

    let updated = Document {
        updated_at: 200,
        file_modified_at: 200,
        file_size: 20,
        ..original
    };
    let (updated_id, changed) = upsert_document(&mut conn, &updated).unwrap();

    assert_eq!(updated_id, doc_id);
    assert!(changed);

    let stored = find_document_by_path(&conn, "/tmp/a.txt").unwrap().unwrap();
    assert_eq!(stored.id, doc_id);
    assert_eq!(stored.file_modified_at, 200);
    assert_eq!(stored.file_size, 20);
    assert_eq!(stored.updated_at, 200);

    assert_eq!(conn.embeddings.rows[0].state, EmbedState::Stale);
    assert!(conn.jobs.rows.is_empty());
}

#[test]
fn find_document_by_path_prefers_latest_row_when_duplicates_exist() {
    let mut conn = setup_documents_db();
    for (id, modified, size, updated) in [(1, 100, 10, 100), (2, 200, 20, 200)] {
        conn.documents.rows.push(StoredDocument {
            id,
            filepath: "/tmp/a.txt".to_string(),
            file_type: "txt".to_string(),
            doc_category: "resource".to_string(),
            file_modified_at: modified,
            file_size: size,
            updated_at: updated,
        });
        conn.documents.last_id = id;
    }

    let doc = find_document_by_path(&conn, "/tmp/a.txt").unwrap().unwrap();
    assert_eq!(doc.file_modified_at, 200);
    assert_eq!(doc.file_size, 20);
    assert_eq!(doc.updated_at, 200);

    conn.documents.rows[0].updated_at = 300;
    let doc = find_document_by_path(&conn, "/tmp/a.txt").unwrap().unwrap();
    assert_eq!(doc.id, 1);
    conn.documents.rows[1].updated_at = 300;
    let doc = find_document_by_path(&conn, "/tmp/a.txt").unwrap().unwrap();
    assert_eq!(doc.id, 2);
}

#[test]
fn find_document_by_id_returns_matching_document() {
    let mut conn = setup_documents_db();
    let doc = document("/tmp/by-id.txt");

    let (doc_id, _) = upsert_document(&mut conn, &doc).unwrap();
    let loaded = find_document_by_id(&conn, doc_id).unwrap().unwrap();

    assert_eq!(loaded.filepath, doc.filepath);
    assert_eq!(loaded.id, doc_id);
    assert!(find_document_by_id(&conn, doc_id + 1).unwrap().is_none());
}

#[test]
fn insert_pending_embeddings_replaces_existing_row() {
    let mut conn = setup_documents_db();
    let (doc_id, _) = upsert_document(&mut conn, &document("/tmp/a.txt")).unwrap();

    add_embedding(
        &mut conn,
        doc_id,
        1,
        (ChunkType::Content, 0, 4),
        EmbedState::Embedded,
        Some(vec![1]),
    );

    insert_pending_embeddings(&mut conn, doc_id, 1, &[(ChunkType::Content, 0, 8)], 200).unwrap();

    assert_eq!(conn.embeddings.rows.len(), 1);
    let row = &conn.embeddings.rows[0];
    assert_eq!(row.chunk_end, 8);
    assert_eq!(row.state, EmbedState::Pending);
    assert_eq!(row.embedding, None);
    assert_eq!(row.created_at, 200);
}

#[test]
fn insert_pending_embeddings_needs_document_and_model() {
    let mut conn = setup_documents_db();
    let (doc_id, _) = upsert_document(&mut conn, &document("/tmp/a.txt")).unwrap();
    let chunk = [(ChunkType::Filename, 0, 0)];

    for (doc, model) in [(doc_id, 99), (doc_id + 1, 1)] {
        let err = insert_pending_embeddings(&mut conn, doc, model, &chunk, 1).unwrap_err();
        assert_eq!(err.message(), "FOREIGN KEY constraint failed");
    }
    insert_pending_embeddings(&mut conn, 99, 99, &[], 1).unwrap();
    assert!(conn.embeddings.rows.is_empty());

    conn.embeddings.last_id = i64::MAX;
    let err = insert_pending_embeddings(&mut conn, doc_id, 1, &chunk, 1).unwrap_err();
    assert!(matches!(err, RepositoryError::Full));
}

#[test]
fn the_last_ids_are_given_out() {
    let mut conn = setup_documents_db();
    let (doc_id, _) = upsert_document(&mut conn, &document("/tmp/a.txt")).unwrap();
    conn.embeddings.last_id = i64::MAX - 1;
    conn.jobs.last_id = i64::MAX;

    let two = [(ChunkType::Filename, 0, 0), (ChunkType::Content, 0, 4)];
    let err = insert_pending_embeddings(&mut conn, doc_id, 1, &two, 1).unwrap_err();
    assert!(matches!(err, RepositoryError::Full));
    assert!(conn.embeddings.rows.is_empty());
    assert_eq!(conn.embeddings.last_id, i64::MAX - 1);

    insert_pending_embeddings(&mut conn, doc_id, 1, &two[..1], 1).unwrap();
    assert_eq!(conn.embeddings.rows[0].id, i64::MAX);
    insert_pending_embeddings(&mut conn, doc_id, 1, &two[..1], 2).unwrap();
    assert_eq!(conn.embeddings.rows[0].created_at, 2);

    assert!(matches!(seed_embed_jobs(&mut conn, 3), Err(RepositoryError::Full)));
    assert!(conn.jobs.rows.is_empty());
    mark_documents_stale(&mut conn, &[], 3).unwrap();

    conn.jobs.last_id = i64::MAX - 1;
    assert_eq!(seed_embed_jobs(&mut conn, 3).unwrap(), 1);
    assert_eq!(conn.jobs.rows[0].id, i64::MAX);
    assert_eq!(seed_embed_jobs(&mut conn, 4).unwrap(), 0);
    mark_documents_stale(&mut conn, &[doc_id], 4).unwrap();

    let changed = Document {
        file_size: 99,
        ..document("/tmp/a.txt")
    };
    let before = conn.clone();
    let err = upsert_document_and_replace_pending_embeddings(&mut conn, &changed, 1, &two, 5)
        .unwrap_err();
    assert!(matches!(err, RepositoryError::Full));
    assert_eq!(conn.documents.rows, before.documents.rows);
    assert_eq!(conn.embeddings.rows, before.embeddings.rows);
    assert_eq!(conn.jobs.rows, before.jobs.rows);
}

#[test]
fn transactional_document_ingest_replaces_pending_embeddings() {
    let mut conn = setup_documents_db();
    let doc = document("/tmp/a.txt");

    let (doc_id, changed) = upsert_document_and_replace_pending_embeddings(
        &mut conn,
        &doc,
        7,
        &[(ChunkType::Filename, 0, 0), (ChunkType::Content, 0, 8)],
        100,
    )
    .unwrap();

    assert!(changed);

    let mut queued: Vec<(&str, i64, i64, EmbedState)> = conn
        .embeddings
        .rows
        .iter()
        .filter(|row| row.document_id == doc_id && row.model_id == 7)
        .map(|row| (row.chunk_type.as_str(), row.chunk_start, row.chunk_end, row.state))
        .collect();
    queued.sort_by_key(|row| (row.0, row.1));

    assert_eq!(
        queued,
        vec![
            ("content", 0, 8, EmbedState::Pending),
            ("filename", 0, 0, EmbedState::Pending),
        ]
    );
    assert_eq!(conn.jobs.rows.len(), 1);
}

#[test]
fn transactional_document_ingest_keeps_existing_pending_rows_when_unchanged() {
    let mut conn = setup_documents_db();
    let doc = document("/tmp/a.txt");

    let (doc_id, _) =
        upsert_document_and_replace_pending_embeddings(&mut conn, &doc, 7, &[], 100).unwrap();
    add_embedding(
        &mut conn,
        doc_id,
        7,
        (ChunkType::Filename, 0, 0),
        EmbedState::Pending,
        None,
    );

    let (_, changed) =
        upsert_document_and_replace_pending_embeddings(&mut conn, &doc, 7, &[], 200).unwrap();

    assert!(!changed);
    assert_eq!(conn.embeddings.rows.len(), 1);
}

#[test]
fn transactional_document_ingest_rolls_back_when_queue_step_fails() {
    let mut conn = setup_documents_db();
    let doc = document("/tmp/a.txt");

    let err = upsert_document_and_replace_pending_embeddings_with_hook(
        &mut conn,
        &doc,
        1,
        &[(ChunkType::Filename, 0, 0)],
        100,
        || Err("synthetic queue failure".to_string()),
    )
    .expect_err("synthetic queue failure must abort the transaction");

    assert!(matches!(err, HookError::Hook(message) if message.contains("synthetic queue failure")));
    assert_eq!(conn.documents.rows.len(), 0);
    assert_eq!(conn.embeddings.rows.len(), 0);

    let (_, changed) = upsert_document_and_replace_pending_embeddings_with_hook(
        &mut conn,
        &doc,
        1,
        &[(ChunkType::Filename, 0, 0)],
        100,
        || Ok::<(), String>(()),
    )
    .unwrap();
    assert!(changed);
    assert_eq!(conn.embeddings.rows.len(), 1);
}

#[test]
fn transactional_document_ingest_without_its_model_changes_nothing() {
    let mut conn = setup_documents_db();
    let err = upsert_document_and_replace_pending_embeddings(
        &mut conn,
        &document("/tmp/a.txt"),
        99,
        &[(ChunkType::Filename, 0, 0)],
        100,
    )
    .unwrap_err();
    assert!(matches!(err, RepositoryError::ForeignKey));
    assert!(conn.documents.rows.is_empty());
}

#[test]
fn replace_embeddings_for_document_model_replaces_only_target_pair_atomically() {
    let mut conn = setup_documents_db();
    let doc = document("/tmp/replace.txt");
    let other_doc = document("/tmp/other.txt");

    let (doc_id, _) = upsert_document(&mut conn, &doc).unwrap();
    let (other_doc_id, _) = upsert_document(&mut conn, &other_doc).unwrap();

    let name = (ChunkType::Filename, 0, 0);
    add_embedding(&mut conn, 1, 7, name, EmbedState::Pending, None);
    add_embedding(
        &mut conn,
        1,
        7,
        (ChunkType::Content, 0, 5),
        EmbedState::Stale,
        None,
    );
    add_embedding(&mut conn, 1, 8, name, EmbedState::Embedded, Some(vec![1]));
    add_embedding(&mut conn, 2, 7, name, EmbedState::Embedded, Some(vec![2]));

    replace_embeddings_for_document_model(
        &mut conn,
        doc_id,
        7,
        &[
            EmbeddedChunk {
                chunk_type: ChunkType::Filename,
                chunk_start: 0,
                chunk_end: 0,
                embedding: vec![1, 2, 3, 4],
            },
            EmbeddedChunk {
                chunk_type: ChunkType::Content,
                chunk_start: 0,
                chunk_end: 8,
                embedding: vec![5, 6, 7, 8],
            },
        ],
        200,
    )
    .unwrap();

    let mut target_rows: Vec<(&str, i64, i64, EmbedState, Vec<u8>, i64)> = conn
        .embeddings
        .rows
        .iter()
        .filter(|row| row.document_id == doc_id && row.model_id == 7)
        .map(|row| {
            (
                row.chunk_type.as_str(),
                row.chunk_start,
                row.chunk_end,
                row.state,
                row.embedding.clone().unwrap(),
                row.created_at,
            )
        })
        .collect();
    target_rows.sort_by_key(|row| (row.0, row.1));

    assert_eq!(
        target_rows,
        vec![
            ("content", 0, 8, EmbedState::Embedded, vec![5, 6, 7, 8], 200),
            ("filename", 0, 0, EmbedState::Embedded, vec![1, 2, 3, 4], 200),
        ]
    );

    let embedding_of = |document_id: i64, model_id: i64| {
        conn.embeddings
            .rows
            .iter()
            .find(|row| row.document_id == document_id && row.model_id == model_id)
            .unwrap()
            .embedding
            .clone()
            .unwrap()
    };
    let untouched_other_model: Vec<u8> = embedding_of(doc_id, 8);
    assert_eq!(untouched_other_model, vec![1]);

    let untouched_other_document: Vec<u8> = embedding_of(other_doc_id, 7);
    assert_eq!(untouched_other_document, vec![2]);
    assert!(list_recoverable_embeddings_for_model(&conn, doc_id, 7).is_empty());
}

#[test]
fn seed_embed_jobs_enqueues_one_job_per_distinct_document_model_pair() {
    let mut conn = setup_documents_db();
    let (doc_id, _) = upsert_document(&mut conn, &document("/tmp/a.txt")).unwrap();
    let name = (ChunkType::Filename, 0, 0);
    add_embedding(&mut conn, doc_id, 7, name, EmbedState::Pending, None);
    add_embedding(
        &mut conn,
        doc_id,
        7,
        (ChunkType::Content, 0, 8),
        EmbedState::Pending,
        None,
    );
    add_embedding(&mut conn, doc_id, 9, name, EmbedState::Stale, None);

    let seeded = seed_embed_jobs(&mut conn, 200).unwrap();
    assert_eq!(seeded, 2);

    let mut queued: Vec<(String, i64, i64)> = conn
        .jobs
        .rows
        .iter()
        .map(|row| {
            let payload: serde_json::Value = serde_json::from_str(&row.payload).unwrap();
            (
                row.job_type.clone(),
                payload["document_id"].as_i64().unwrap(),
                payload["model_id"].as_i64().unwrap(),
            )
        })
        .collect();
    queued.sort();

    assert_eq!(
        queued,
        vec![
            ("embed_document".to_string(), doc_id, 7),
            ("embed_document".to_string(), doc_id, 9),
        ]
    );
    assert_eq!(conn.jobs.rows[0].payload, r#"{"document_id":1,"model_id":7}"#);
}

#[test]
fn seed_embed_jobs_deduplicates_repeated_calls() {
    let mut conn = setup_documents_db();
    let (doc_id, _) = upsert_document(&mut conn, &document("/tmp/a.txt")).unwrap();
    let name = (ChunkType::Filename, 0, 0);
    add_embedding(&mut conn, doc_id, 7, name, EmbedState::Pending, None);

    assert_eq!(seed_embed_jobs(&mut conn, 200).unwrap(), 1);
    assert_eq!(seed_embed_jobs(&mut conn, 201).unwrap(), 0);

    let job_count = conn
        .jobs
        .rows
        .iter()
        .filter(|row| row.job_type == JobType::EmbedDocument.as_str())
        .count();
    assert_eq!(job_count, 1);
}

#[test]
fn find_document_by_path_rejects_unknown_doc_category() {
    let mut conn = setup_documents_db();
    conn.documents.last_id = 1;
    conn.documents.rows.push(StoredDocument {
        id: 1,
        filepath: "/tmp/a.txt".to_string(),
        file_type: "txt".to_string(),
        doc_category: "not_a_real_category".to_string(),
        file_modified_at: 100,
        file_size: 10,
        updated_at: 100,
    });

    let err = find_document_by_path(&conn, "/tmp/a.txt")
        .expect_err("invalid doc_category must fail to decode");
    let err_text = err.message();

    assert!(
        err_text.contains("invalid DocCategory value"),
        "unexpected error: {err_text}"
    );
    assert!(list_documents(&conn).is_err());
    assert!(upsert_document(&mut conn, &document("/tmp/a.txt")).is_err());
    assert!(find_document_by_id(&conn, 1).is_err());
}

#[test]
fn embedding_identity_changes_create_distinct_model_rows() {
    let mut conn = setup_db();
    let now = 1_000;

    let first = EmbeddingModel {
        id: 0,
        name: "shared-model".to_string(),
        dimensions: 1024,
        chunk_size: 512,
        chunk_overlap: 0,
        created_at: now,
    };
    let second = EmbeddingModel {
        id: 0,
        name: "shared-model".to_string(),
        dimensions: 1024,
        chunk_size: 256,
        chunk_overlap: 0,
        created_at: now + 1,
    };

    insert_model(&mut conn, &first).unwrap();
    insert_model(&mut conn, &second).unwrap();

    let found = find_model_by_identity(
        &conn,
        &EmbeddingIdentity {
            name: "shared-model".to_string(),
            dimensions: 1024,
            chunk_size: 256,
            chunk_overlap: 0,
        },
    )
    .expect("identity-specific model row must be found");

    assert_eq!(found.chunk_size, 256);

    let err = insert_model(&mut conn, &second).unwrap_err();
    assert!(err.message().contains("UNIQUE"));
    assert_eq!(find_model_by_name(&conn, "shared-model").unwrap().chunk_size, 512);
    assert_eq!(find_model_by_id(&conn, 2).unwrap().chunk_size, 256);
    assert!(find_model_by_id(&conn, 3).is_none());
    assert!(find_model_by_name(&conn, "other").is_none());
}

#[test]
fn mark_stale_batch_updates_embeddings() {
    let mut conn = setup_documents_db();
    upsert_document(&mut conn, &document("/a.txt")).unwrap();
    upsert_document(&mut conn, &document("/b.txt")).unwrap();
    let name = (ChunkType::Filename, 0, 0);
    add_embedding(&mut conn, 1, 1, name, EmbedState::Embedded, None);
    add_embedding(
        &mut conn,
        1,
        1,
        (ChunkType::Content, 0, 5),
        EmbedState::Embedded,
        None,
    );
    add_embedding(&mut conn, 2, 1, name, EmbedState::Embedded, None);

    mark_documents_stale(&mut conn, &[1], 500).unwrap();

    let states: Vec<EmbedState> = conn.embeddings.rows.iter().map(|row| row.state).collect();
    assert_eq!(
        states,
        vec![EmbedState::Stale, EmbedState::Stale, EmbedState::Embedded]
    );
    assert_eq!(conn.jobs.rows.len(), 1);
}

#[test]
fn mark_stale_nonexistent_ids_is_noop() {
    let mut conn = setup_documents_db();
    upsert_document(&mut conn, &document("/keep.txt")).unwrap();
    let name = (ChunkType::Filename, 0, 0);
    add_embedding(&mut conn, 1, 1, name, EmbedState::Embedded, None);

    mark_documents_stale(&mut conn, &[999], 500).unwrap();

    assert_eq!(conn.embeddings.rows[0].state, EmbedState::Embedded);
    assert_eq!(conn.jobs.rows.len(), 0);
}

#[test]
fn mark_stale_affects_all_models_and_preserves_rows() {
    let mut conn = setup_documents_db();
    upsert_document(&mut conn, &document("/doc1.txt")).unwrap();
    upsert_document(&mut conn, &document("/doc2.txt")).unwrap();
    let name = (ChunkType::Filename, 0, 0);
    add_embedding(&mut conn, 1, 1, name, EmbedState::Embedded, None);
    add_embedding(&mut conn, 1, 1, (ChunkType::Content, 0, 5), EmbedState::Embedded, None);
    add_embedding(&mut conn, 1, 2, name, EmbedState::Embedded, None);
    add_embedding(&mut conn, 1, 1, (ChunkType::Content, 10, 15), EmbedState::Pending, None);
    add_embedding(&mut conn, 1, 2, (ChunkType::Content, 0, 10), EmbedState::Stale, None);
    add_embedding(&mut conn, 2, 1, name, EmbedState::Embedded, None);

    mark_documents_stale(&mut conn, &[1], 500).unwrap();

    let with = |state: EmbedState| {
        conn.embeddings
            .rows
            .iter()
            .filter(|row| row.state == state)
            .count()
    };
    assert_eq!(conn.embeddings.rows.len(), 6);
    assert_eq!(with(EmbedState::Stale), 4);
    assert_eq!(with(EmbedState::Pending), 1);
    assert_eq!(with(EmbedState::Embedded), 1);
    assert_eq!(conn.jobs.rows.len(), 2);
}

#[test]
fn job_lifecycle_claim_and_complete() {
    let mut conn = setup_db();
    let now = 5_000;

    let payload = r#"{"root_path":"/tmp","file_pattern":".*"}"#;
    enqueue_job(&mut conn, &JobType::IngestFolder, payload, now).unwrap();

    let entry = claim_job(&mut conn, now + 1)
        .unwrap()
        .expect("job should be claimable");

    assert_eq!(entry.job_type, JobType::IngestFolder);
    assert_eq!(entry.payload, payload);
    assert_eq!(entry.claimed_at, Some(now + 1));

    complete_job(&mut conn, entry.id);
    assert_eq!(count(&conn), 0);
}

#[test]
fn documents_are_listed_by_path() {
    let mut conn = setup_documents_db();
    for path in ["/b", "/a/z", "/A", "/a", "/\u{e9}", "/ab"] {
        upsert_document(&mut conn, &document(path)).unwrap();
    }
    let mut expected = ["/b", "/a/z", "/A", "/a", "/\u{e9}", "/ab"];
    expected.sort();
    let listed: Vec<String> = list_documents(&conn)
        .unwrap()
        .into_iter()
        .map(|doc| doc.filepath)
        .collect();
    assert_eq!(listed, expected);
}

#[test]
fn other_bytes_are_a_change() {
    let mut conn = setup_documents_db();
    let doc = document("/tmp/a.txt");
    let chunks = [(ChunkType::Filename, 0, 0)];

    let first = ingest_document(&mut conn, &doc, "h1", "{}", 7, &chunks, 1).unwrap();
    assert!(first.1);
    assert_eq!(document_hash(&conn, first.0), Some("h1".to_string()));
    let same = ingest_document(&mut conn, &doc, "h1", "{}", 7, &chunks, 2).unwrap();
    assert_eq!(same, (first.0, false));
    let other = ingest_document(&mut conn, &doc, "h2", "{}", 7, &chunks, 3).unwrap();
    assert_eq!(other, (first.0, true));
    assert_eq!(document_hash(&conn, first.0), Some("h2".to_string()));
    assert_eq!(conn.fingerprints.len(), 1);
}

#[test]
fn deleting_a_document_takes_all_of_it_along() {
    let mut conn = setup_documents_db();
    let chunks = [(ChunkType::Filename, 0, 0)];
    for path in ["/a", "/b"] {
        ingest_document(&mut conn, &document(path), "h", "{}", 7, &chunks, 1).unwrap();
    }

    delete_document(&mut conn, 1);

    assert!(find_document_by_id(&conn, 1).unwrap().is_none());
    assert!(find_document_by_id(&conn, 2).unwrap().is_some());
    assert_eq!(conn.embeddings.rows.len(), 1);
    assert_eq!(conn.embeddings.rows[0].document_id, 2);
    assert_eq!(document_hash(&conn, 1), None);
}

#[test]
fn pending_embeddings_are_removed_for_one_pair() {
    let mut conn = setup_documents_db();
    upsert_document(&mut conn, &document("/a")).unwrap();
    let name = (ChunkType::Filename, 0, 0);
    add_embedding(&mut conn, 1, 1, name, EmbedState::Pending, None);
    add_embedding(&mut conn, 1, 1, (ChunkType::Content, 0, 3), EmbedState::Stale, None);
    add_embedding(&mut conn, 1, 2, name, EmbedState::Pending, None);

    delete_pending_embeddings_for_model(&mut conn, 1, 1);

    let left: Vec<(i64, EmbedState)> = conn
        .embeddings
        .rows
        .iter()
        .map(|row| (row.model_id, row.state))
        .collect();
    assert_eq!(left, vec![(1, EmbedState::Stale), (2, EmbedState::Pending)]);
    let recoverable = list_recoverable_embeddings_for_model(&conn, 1, 1);
    assert_eq!(recoverable.len(), 1);
    assert_eq!(recoverable[0].chunk_type, ChunkType::Content);
}
