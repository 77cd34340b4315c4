use ask::content::{ContentReadPlan, CONTENT_BYTE_BUDGET};
use ask::embed_document::{
    content_budget, load_embed_target, max_content_end, next_embed_step, prepare_embedded_chunks,
    store_embedded_chunks, EmbedJobError, EmbedStep, EmbedTarget, FileState, PrepareError,
};
use ask::embeddings::TRANSIENT_RETRY_DELAY_SECS;
use ask::ingest::{
    backfill_pending_for_model, ingest_candidate_file, plan_pending_embeddings_for_content,
    queue_pending_embeddings_for_document, replan_document_from_path, BackfillSource,
    CandidateFacts,
};
use ask::models::{DocumentEmbedding, EmbedDocumentPayload, EmbeddingModel, JobQueueEntry};
use ask::repository::{
    claim_job, embed_job_payload, enqueue_job, find_document_by_id, find_document_by_path,
    find_model_by_id, insert_model,
};
use ask::store::Store;
use ask::types::{ChunkType, DocCategory, EmbedState, JobType};
use ask::worker::{
    check_handler, resolve_handler, settle_job, DispatchError, HandlerResult, JobHandler,
};

fn enqueue_and_claim_job_with_type(
    store: &mut Store,
    job_type: JobType,
    payload: &str,
    queued_at: i64,
    claimed_at: i64,
) -> JobQueueEntry {
    enqueue_job(store, &job_type, payload, queued_at).unwrap();
    claim_job(store, claimed_at)
        .unwrap()
        .expect("job should be claimable")
}

fn enqueue_and_claim_job(
    store: &mut Store,
    payload: &str,
    queued_at: i64,
    claimed_at: i64,
) -> JobQueueEntry {
    enqueue_and_claim_job_with_type(store, JobType::IngestFolder, payload, queued_at, claimed_at)
}

fn failure(message: &str) -> HandlerResult {
    HandlerResult::Failed {
        message: message.to_string(),
        retry_after_secs: None,
    }
}

fn dispatcher_keeps_job_row() {
    let mut store = Store::new();
    let entry = enqueue_and_claim_job(&mut store, r#"{"root_path":"/tmp"}"#, 10, 100);

    check_handler(&entry, JobType::IngestFolder).unwrap();
    let err = settle_job(&mut store, &entry, failure("synthetic handler failure"), 150).unwrap_err();
    let err_text = err.message();

    assert!(
        err_text.contains("synthetic handler failure"),
        "unexpected error: {err_text}"
    );
    assert_eq!(err_text, "job 1 (ingest_folder): synthetic handler failure");
    assert_eq!(store.jobs.rows.len(), 1);
    assert_eq!(store.jobs.rows[0].claimed_at, Some(100));
}

#[test]
fn worker_dispatcher_returns_handler_failures_and_keeps_job_row() {
    dispatcher_keeps_job_row();
}

#[test]
fn mod_dispatcher_returns_handler_failures_and_keeps_job_row() {
    dispatcher_keeps_job_row();
}

fn failed_job_becomes_claimable() {
    let mut store = Store::new();
    let entry = enqueue_and_claim_job(&mut store, r#"{"root_path":"/tmp"}"#, 10, 100);

    settle_job(&mut store, &entry, failure("synthetic handler failure"), 150).unwrap_err();

    assert!(claim_job(&mut store, 100 + 86_400).unwrap().is_none());
    let reclaimed = claim_job(&mut store, 100 + 86_400 + 1)
        .unwrap()
        .expect("stale failed job should be claimable again");

    assert_eq!(reclaimed.id, entry.id);
    assert_eq!(reclaimed.claimed_at, Some(100 + 86_400 + 1));
}

#[test]
fn worker_failed_job_becomes_claimable_again_after_stale_timeout() {
    failed_job_becomes_claimable();
}

#[test]
fn mod_failed_job_becomes_claimable_again_after_stale_timeout() {
    failed_job_becomes_claimable();
}

#[test]
fn transient_embed_failure_defers_retry_instead_of_waiting_for_stale_timeout() {
    let mut store = Store::new();
    let entry = enqueue_and_claim_job_with_type(
        &mut store,
        JobType::EmbedDocument,
        r#"{"document_id":7,"model_id":1}"#,
        10,
        100,
    );
    let now = 1_700_000_000;

    let err = settle_job(
        &mut store,
        &entry,
        HandlerResult::Failed {
            message: "synthetic upstream overload".to_string(),
            retry_after_secs: Some(TRANSIENT_RETRY_DELAY_SECS),
        },
        now,
    )
    .unwrap_err();
    let err_text = err.message();

    assert!(
        err_text.contains("synthetic upstream overload"),
        "unexpected error: {err_text}"
    );

    let deferred_claimed_at = store.jobs.rows[0].claimed_at.unwrap();
    let retry_ready_at = deferred_claimed_at + 86_400;
    assert_eq!(retry_ready_at, now + 300);

    let too_early = claim_job(&mut store, retry_ready_at).unwrap();
    assert!(
        too_early.is_none(),
        "transient embed failure should not be re-claimed before 5 minutes"
    );

    let retried = claim_job(&mut store, retry_ready_at + 1)
        .unwrap()
        .expect("job should become claimable after 5-minute cooldown");
    assert_eq!(retried.id, entry.id);
    assert_eq!(retried.claimed_at, Some(retry_ready_at + 1));
}

#[test]
fn handlers_do_jobs_of_their_type() {
    for job_type in [
        JobType::EmbedDocument,
        JobType::IngestFolder,
        JobType::IngestFolderGit,
    ] {
        assert_eq!(resolve_handler(job_type).job_type(), job_type);
    }
    assert_eq!(resolve_handler(JobType::EmbedDocument), JobHandler::EmbedDocument);

    let mut store = Store::new();
    let entry = enqueue_and_claim_job(&mut store, "{}", 10, 100);
    let err = check_handler(&entry, JobType::EmbedDocument).unwrap_err();
    assert!(matches!(err, DispatchError::Mismatch { .. }));
    assert_eq!(
        err.message(),
        "job handler registry mismatch for job 1: claimed ingest_folder, resolved embed_document"
    );
}

#[test]
fn done_jobs_are_removed() {
    let mut store = Store::new();
    let entry = enqueue_and_claim_job(&mut store, "{}", 10, 100);
    settle_job(&mut store, &entry, HandlerResult::Done, 150).unwrap();
    assert!(store.jobs.rows.is_empty());
}

fn model(chunk_size: i64, chunk_overlap: i64) -> EmbeddingModel {
    EmbeddingModel {
        id: 0,
        name: "test-model".to_string(),
        dimensions: 2,
        chunk_size,
        chunk_overlap,
        created_at: 1,
    }
}

fn register(store: &mut Store, chunk_size: i64, chunk_overlap: i64) -> EmbeddingModel {
    let id = insert_model(store, &model(chunk_size, chunk_overlap)).unwrap();
    find_model_by_id(store, id).unwrap()
}

fn read(text: &str) -> ContentReadPlan {
    ContentReadPlan {
        content: Some(text.to_string()),
        content_utf8: true,
        content_truncated: false,
        content_bytes_indexed: text.len(),
        content_byte_budget: CONTENT_BYTE_BUDGET,
    }
}

fn file(path: &str, hash: &str, content: Option<ContentReadPlan>) -> CandidateFacts {
    CandidateFacts::File {
        filepath: path.to_string(),
        modified_at: Some(50),
        size: 10,
        hash: hash.to_string(),
        content,
    }
}

#[test]
fn files_become_documents_with_chunks_and_a_job() {
    let mut store = Store::new();
    let model = register(&mut store, 10, 0);

    let outcome = ingest_candidate_file(
        &mut store,
        &file("/r/hello.tar.gz", "h1", Some(read("Hello, World!"))),
        &model,
        100,
    )
    .unwrap();
    assert_eq!(outcome, Some((1, true)));

    let doc = find_document_by_path(&store, "/r/hello.tar.gz").unwrap().unwrap();
    assert_eq!(doc.file_type, "gz");
    assert_eq!(doc.doc_category, DocCategory::Resource);
    assert_eq!(doc.file_modified_at, 50);
    assert_eq!(doc.updated_at, 100);
    let chunks: Vec<(ChunkType, i64, i64)> = store
        .embeddings
        .rows
        .iter()
        .map(|row| (row.chunk_type, row.chunk_start, row.chunk_end))
        .collect();
    assert_eq!(
        chunks,
        vec![
            (ChunkType::Filename, 0, 0),
            (ChunkType::Content, 0, 10),
            (ChunkType::Content, 10, 13),
        ]
    );
    assert_eq!(store.jobs.rows[0].payload, embed_job_payload(1, model.id));
    assert_eq!(
        store.fingerprints[0].metadata_json,
        r#"{"content_byte_budget":1048576,"content_bytes_indexed":13,"content_truncated":false,"content_utf8":true,"planned_chunk_count":2,"strategy":"structure"}"#
    );

    let again = ingest_candidate_file(
        &mut store,
        &file("/r/hello.tar.gz", "h1", Some(read("Hello, World!"))),
        &model,
        200,
    )
    .unwrap();
    assert_eq!(again, Some((1, false)));
    assert_eq!(
        ingest_candidate_file(&mut store, &CandidateFacts::Unusable, &model, 300).unwrap(),
        None
    );
    assert_eq!(store.documents.rows.len(), 1);
}

#[test]
fn unreadable_files_are_queued_by_name() {
    let mut store = Store::new();
    let model = register(&mut store, 10, 0);
    let facts = CandidateFacts::File {
        filepath: "/r/data".to_string(),
        modified_at: None,
        size: 3,
        hash: "h".to_string(),
        content: None,
    };
    ingest_candidate_file(&mut store, &facts, &model, 100).unwrap();
    assert_eq!(store.embeddings.rows.len(), 1);
    assert_eq!(store.embeddings.rows[0].chunk_type, ChunkType::Filename);
    let doc = find_document_by_path(&store, "/r/data").unwrap().unwrap();
    assert_eq!(doc.file_modified_at, 100);
    assert_eq!(doc.file_type, "");
    assert_eq!(
        store.fingerprints[0].metadata_json,
        r#"{"content_byte_budget":1048576,"content_bytes_indexed":0,"content_truncated":false,"content_utf8":false,"planned_chunk_count":0,"strategy":"structure"}"#
    );
}

#[test]
fn large_files_have_many_chunks() {
    let content: String = (0..100).map(|i| char::from(b'a' + (i % 26) as u8)).collect();
    let planned = plan_pending_embeddings_for_content(
        "/r/big.txt",
        Some(&content),
        false,
        100,
        CONTENT_BYTE_BUDGET,
        &model(10, 2),
    );
    let content_chunks = planned
        .chunks
        .iter()
        .filter(|chunk| chunk.0 == ChunkType::Content)
        .count();
    assert_eq!(content_chunks, 13);

    let whole = plan_pending_embeddings_for_content("/a", Some(&content), false, 100, 100, &model(-1, 0));
    assert_eq!(whole.chunks[1..], [(ChunkType::Content, 0, 100)]);
    let none = plan_pending_embeddings_for_content("/a", Some(""), true, 0, 5, &model(10, 0));
    assert_eq!(none.chunks, vec![(ChunkType::Filename, 0, 0)]);
    assert_eq!(
        none.metadata_json,
        r#"{"content_byte_budget":5,"content_bytes_indexed":0,"content_truncated":true,"content_utf8":false,"planned_chunk_count":0,"strategy":"structure"}"#
    );
}

#[test]
fn changed_files_are_planned_again() {
    let mut store = Store::new();
    let model = register(&mut store, 10, 0);
    ingest_candidate_file(&mut store, &file("/r/a.md", "h1", Some(read("old"))), &model, 100).unwrap();
    let doc = find_document_by_path(&store, "/r/a.md").unwrap().unwrap();

    let outcome = replan_document_from_path(
        &mut store,
        &doc,
        Some(60),
        12,
        "h2",
        read("new content"),
        &model,
        200,
    )
    .unwrap();

    assert_eq!(outcome, (doc.id, true));
    let doc = find_document_by_path(&store, "/r/a.md").unwrap().unwrap();
    assert_eq!((doc.file_modified_at, doc.file_size, doc.updated_at), (60, 12, 200));
    assert_eq!(doc.file_type, "md");
    assert_eq!(store.embeddings.rows.len(), 3);
}

#[test]
fn new_models_get_all_documents() {
    let mut store = Store::new();
    let old = register(&mut store, 512, 0);
    ingest_candidate_file(&mut store, &file("/r/a", "h", Some(read("abc"))), &old, 100).unwrap();
    ingest_candidate_file(&mut store, &file("/r/b", "h", None), &old, 100).unwrap();
    let new = register(&mut store, 2, 0);

    let sources = [
        BackfillSource {
            document_id: 1,
            filepath: "/r/a".to_string(),
            content: Some(read("abc")),
        },
        BackfillSource {
            document_id: 2,
            filepath: "/r/b".to_string(),
            content: None,
        },
    ];
    let count = backfill_pending_for_model(&mut store, &new, &sources, 200).unwrap();

    assert_eq!(count, 2);
    let of_new = store
        .embeddings
        .rows
        .iter()
        .filter(|row| row.model_id == new.id)
        .count();
    assert_eq!(of_new, 4);
    assert_eq!(store.jobs.rows.len(), 4);

    let missing = [BackfillSource {
        document_id: 99,
        filepath: "/r/c".to_string(),
        content: None,
    }];
    assert!(backfill_pending_for_model(&mut store, &new, &missing, 300).is_err());
    assert!(
        queue_pending_embeddings_for_document(&mut store, "/r/c", 99, &None, &new, 300).is_err()
    );
}

fn row(chunk_type: ChunkType, chunk_start: i64, chunk_end: i64) -> DocumentEmbedding {
    DocumentEmbedding {
        id: 1,
        document_id: 7,
        model_id: 1,
        chunk_type,
        chunk_start,
        chunk_end,
        state: EmbedState::Pending,
        embedding: None,
        created_at: 0,
    }
}

#[test]
fn chunks_are_parts_of_the_text() {
    let rows = [
        row(ChunkType::Filename, 0, 0),
        row(ChunkType::Content, 1, 3),
        row(ChunkType::Content, 0, 0),
    ];
    assert_eq!(max_content_end(&rows), Some(3));
    assert_eq!(max_content_end(&rows[..1]), None);
    assert_eq!(content_budget(&rows), Ok(Some(3)));
    assert_eq!(content_budget(&rows[..1]), Ok(None));

    let chunks = prepare_embedded_chunks("/r/notes.md", 7, &rows, Some("a\u{e9}b")).unwrap();
    let inputs: Vec<&str> = chunks.iter().map(|chunk| chunk.input.as_str()).collect();
    assert_eq!(inputs, vec!["notes.md", "\u{e9}", ""]);
    assert_eq!(chunks[1].chunk_start, 1);
    assert_eq!(chunks[1].chunk_end, 3);

    let named = prepare_embedded_chunks("/..", 7, &rows[..1], None).unwrap();
    assert_eq!(named[0].input, "/..");
}

#[test]
fn chunks_that_are_no_parts_are_refused() {
    let prepare = |start, end, content| {
        prepare_embedded_chunks("/r/a", 7, &[row(ChunkType::Content, start, end)], content)
            .unwrap_err()
    };
    assert_eq!(
        prepare(0, 1, None).message(),
        "document 7 has content rows but is not valid UTF-8"
    );
    assert_eq!(prepare(-1, 1, Some("ab")), PrepareError::StartOutOfRange);
    assert_eq!(prepare(0, -1, Some("ab")), PrepareError::EndOutOfRange);
    let ends_early = content_budget(&[row(ChunkType::Content, 0, -1)]).unwrap_err();
    assert_eq!(ends_early, PrepareError::ContentEndOutOfRange);
    assert_eq!(ends_early.message(), "content chunk_end must fit into usize");
    assert_eq!(
        PrepareError::StartOutOfRange.message(),
        "chunk_start must fit into usize"
    );
    assert_eq!(
        PrepareError::EndOutOfRange.message(),
        "chunk_end must fit into usize"
    );
    for (start, end) in [(0, 3), (2, 1), (0, 1), (1, 2)] {
        assert_eq!(
            prepare(start, end, Some("\u{e9}")).message(),
            format!("stored chunk range {start}..{end} is invalid for document 7")
        );
    }
}

fn with_document(store: &mut Store) -> (i64, EmbeddingModel, JobQueueEntry) {
    let model = register(store, 512, 0);
    ingest_candidate_file(store, &file("/r/a.txt", "h1", Some(read("abc"))), &model, 100).unwrap();
    let entry = claim_job(store, 200).unwrap().unwrap();
    (1, model, entry)
}

#[test]
fn embed_jobs_replace_rows() {
    let mut store = Store::new();
    let (doc, model, entry) = with_document(&mut store);
    let payload = EmbedDocumentPayload {
        document_id: doc,
        model_id: model.id,
    };
    assert_eq!(entry.payload, embed_job_payload(payload.document_id, payload.model_id));

    let target = load_embed_target(&mut store, entry.id, doc, model.id).unwrap();
    assert!(matches!(target, EmbedTarget::Found { .. }));
    let present = FileState::Present {
        hash: "h1".to_string(),
    };
    let document = find_document_by_id(&store, doc).unwrap().unwrap();
    let Ok(EmbedStep::Embed { rows }) =
        next_embed_step(&mut store, entry.id, &document, model.id, &present)
    else {
        panic!("there are chunks to embed");
    };
    assert_eq!(rows.len(), 2);
    let chunks = prepare_embedded_chunks("/r/a.txt", doc, &rows, Some("abc")).unwrap();

    let short = [vec![1_u32, 2]];
    let err = store_embedded_chunks(&mut store, doc, model.id, &chunks, &short, 300).unwrap_err();
    assert_eq!(
        err.message(),
        "embedding client returned 1 vectors for 2 prepared chunks"
    );
    assert!(store.embeddings.rows.iter().all(|row| row.embedding.is_none()));

    let vectors = [vec![0x3f80_0000_u32, 0], vec![1, 2]];
    store_embedded_chunks(&mut store, doc, model.id, &chunks, &vectors, 300).unwrap();
    assert!(store
        .embeddings
        .rows
        .iter()
        .all(|row| row.state == EmbedState::Embedded));
    assert_eq!(
        store.embeddings.rows[0].embedding,
        Some(vec![0, 0, 0x80, 0x3f, 0, 0, 0, 0])
    );
    assert!(matches!(
        next_embed_step(&mut store, entry.id, &document, model.id, &present),
        Ok(EmbedStep::NothingToDo)
    ));
}

#[test]
fn embed_jobs_follow_their_file() {
    let mut store = Store::new();
    let (doc, model, entry) = with_document(&mut store);
    let document = find_document_by_id(&store, doc).unwrap().unwrap();

    let other = FileState::Present {
        hash: "h2".to_string(),
    };
    assert!(matches!(
        next_embed_step(&mut store, entry.id, &document, model.id, &other),
        Ok(EmbedStep::Replan)
    ));
    assert!(store.jobs.rows.is_empty());

    assert!(matches!(
        next_embed_step(&mut store, entry.id, &document, model.id, &FileState::Missing),
        Ok(EmbedStep::Deleted)
    ));
    assert!(store.documents.rows.is_empty());
    assert!(store.embeddings.rows.is_empty());
}

#[test]
fn embed_jobs_need_document_and_model() {
    let mut store = Store::new();
    let (doc, _, entry) = with_document(&mut store);
    let err = load_embed_target(&mut store, entry.id, doc, 99).unwrap_err();
    assert!(matches!(err, EmbedJobError::ModelNotFound { .. }));
    assert_eq!(
        err.message(),
        format!("embedding model 99 not found for job {}", entry.id)
    );
    assert_eq!(store.jobs.rows.len(), 1);

    let target = load_embed_target(&mut store, entry.id, 99, 1).unwrap();
    assert!(matches!(target, EmbedTarget::Orphaned));
    assert!(store.jobs.rows.is_empty());
}
