use ask::content::{read_content_prefix_with_budget, ContentReadPlan, CONTENT_BYTE_BUDGET};
use ask::embed_document::{
    content_budget, embed_call_failed, embed_call_failure, load_embed_target, next_embed_step, prepare_embedded_chunks,
    prepare_whole_document, store_embedded_chunks, EmbedStep, EmbedTarget, FileState,
};
use ask::embeddings::{DeterministicEmbeddingClient, EmbeddingClient, EmbeddingError};
use ask::hashing::hash_bytes;
use ask::ingest::{
    backfill_pending_for_model, begin_ingest, ingest_candidate_file, replan_document_from_path,
    wants_candidate, BackfillSource, CandidateFacts, IngestStart, IngestStartError,
};
use ask::models::{Document, DocumentEmbedding, EmbeddingModel, JobQueueEntry};
use ask::repository::{
    claim_job, embed_job_payload, enqueue_job, insert_model, upsert_document,
};
use ask::store::Store;
use ask::types::{ChunkType, DocCategory, EmbedState, JobType};
use ask::worker::{settle_job, HandlerResult};

const NOW: i64 = 1_700_000_000;

/// Files in memory: paths and bytes.
struct Files(Vec<(String, Vec<u8>)>);

impl Files {
    fn new(files: &[(&str, &[u8])]) -> Self {
        Files(
            files
                .iter()
                .map(|(path, bytes)| (path.to_string(), bytes.to_vec()))
                .collect(),
        )
    }

    fn bytes(&self, path: &str) -> Option<&[u8]> {
        self.0
            .iter()
            .find(|(other, _)| other == path)
            .map(|(_, bytes)| bytes.as_slice())
    }

    fn read(&self, path: &str, budget: usize) -> ContentReadPlan {
        let bytes = self.bytes(path).unwrap();
        read_content_prefix_with_budget(bytes, bytes.len(), budget)
    }

    fn write(&mut self, path: &str, bytes: &[u8]) {
        self.remove(path);
        self.0.push((path.to_string(), bytes.to_vec()));
    }

    fn remove(&mut self, path: &str) {
        self.0.retain(|(other, _)| other != path);
    }
}

fn register_model(store: &mut Store, name: &str, chunk_size: i64, overlap: i64) -> EmbeddingModel {
    let mut model = EmbeddingModel {
        id: 0,
        name: name.to_string(),
        dimensions: 768,
        chunk_size,
        chunk_overlap: overlap,
        created_at: NOW,
    };
    model.id = insert_model(store, &model).unwrap();
    model
}

fn insert_document(store: &mut Store, path: &str, size: i64) -> i64 {
    let document = Document {
        id: 0,
        filepath: path.to_string(),
        file_type: "txt".to_string(),
        doc_category: DocCategory::Resource,
        file_modified_at: NOW,
        file_size: size,
        updated_at: NOW,
    };
    upsert_document(store, &document).unwrap().0
}

fn insert_embedding(
    store: &mut Store,
    document_id: i64,
    model_id: i64,
    chunk: (ChunkType, i64, i64),
    state: EmbedState,
    embedding: Option<Vec<u8>>,
) {
    store.embeddings.last_id += 1;
    store.embeddings.rows.push(DocumentEmbedding {
        id: store.embeddings.last_id,
        document_id,
        model_id,
        chunk_type: chunk.0,
        chunk_start: chunk.1,
        chunk_end: chunk.2,
        state,
        embedding,
        created_at: 100,
    });
}

fn embed(
    store: &mut Store,
    entry: &JobQueueEntry,
    document_id: i64,
    model_id: i64,
    files: &Files,
    client: &dyn EmbeddingClient,
    now: i64,
) -> Result<(), String> {
    let target = load_embed_target(store, entry.id, document_id, model_id)
        .map_err(|error| error.message())?;
    let EmbedTarget::Found { document, model } = target else {
        return Ok(());
    };
    let path = document.filepath.as_str();
    let file = match files.bytes(path) {
        Some(bytes) => FileState::Present {
            hash: hash_bytes(bytes),
        },
        None => FileState::Missing,
    };
    let step = next_embed_step(store, entry.id, &document, model.id, &file)
        .map_err(|error| error.message())?;
    let chunks = match step {
        EmbedStep::Deleted | EmbedStep::NothingToDo => return Ok(()),
        EmbedStep::Replan => {
            let size = files.bytes(path).unwrap().len() as i64;
            let hash = hash_bytes(files.bytes(path).unwrap());
            let content = files.read(path, CONTENT_BYTE_BUDGET);
            return replan_document_from_path(
                store, &document, Some(now), size, &hash, content, &model, now,
            )
            .map(|_| ())
            .map_err(|error| error.message());
        }
        EmbedStep::EmbedWhole => {
            let content = files.read(path, CONTENT_BYTE_BUDGET).content;
            prepare_whole_document(path, content.as_deref(), &model)
        }
        EmbedStep::Embed { rows } => {
            let content = match content_budget(&rows).map_err(|error| error.message())? {
                Some(budget) => files.read(path, budget).content,
                None => None,
            };
            prepare_embedded_chunks(path, document.id, &rows, content.as_deref())
                .map_err(|error| error.message())?
        }
    };
    let inputs: Vec<String> = chunks.iter().map(|chunk| chunk.input.clone()).collect();
    let vectors = client
        .embed(&model, &inputs)
        .map_err(|error| embed_call_failure(document.id, model.id, &error.message))?;
    store_embedded_chunks(store, document.id, model.id, &chunks, &vectors, now)
        .map_err(|error| error.message())
}

/// Claims the next job, which embeds a document, does it and settles it.
fn run_embed_job(
    store: &mut Store,
    document_id: i64,
    model_id: i64,
    files: &Files,
    client: &dyn EmbeddingClient,
    now: i64,
) -> Result<(), String> {
    let entry = claim_job(store, now).unwrap().unwrap();
    assert_eq!(entry.payload, embed_job_payload(document_id, model_id));
    let result = match embed(store, &entry, document_id, model_id, files, client, now) {
        Ok(()) => HandlerResult::Done,
        Err(message) => HandlerResult::Failed {
            message,
            retry_after_secs: None,
        },
    };
    settle_job(store, &entry, result, now).map_err(|error| error.message())
}

/// Claims the next job, which ingests a directory, does it and settles it.
fn run_ingest_job(
    store: &mut Store,
    root: &str,
    pattern: &str,
    model_id: i64,
    files: &Files,
    now: i64,
) -> Result<(), String> {
    enqueue_job(store, &JobType::IngestFolder, root, now).unwrap();
    let entry = claim_job(store, now + 1).unwrap().unwrap();
    let result = match ingest(store, &entry, root, pattern, model_id, files, now + 2) {
        Ok(()) => HandlerResult::Done,
        Err(message) => HandlerResult::Failed {
            message,
            retry_after_secs: None,
        },
    };
    settle_job(store, &entry, result, now + 2).map_err(|error| error.message())
}

fn ingest(
    store: &mut Store,
    entry: &JobQueueEntry,
    root: &str,
    pattern: &str,
    model_id: i64,
    files: &Files,
    now: i64,
) -> Result<(), String> {
    let start = begin_ingest(store, pattern, true, model_id, entry.id)
        .map_err(|error| error.message())?;
    let IngestStart::Ready { pattern, model } = start else {
        return Ok(());
    };
    for (path, bytes) in &files.0 {
        if !wants_candidate(root, path, &pattern, false) {
            continue;
        }
        let facts = CandidateFacts::File {
            filepath: path.clone(),
            modified_at: Some(NOW),
            size: bytes.len() as i64,
            hash: hash_bytes(bytes),
            content: Some(files.read(path, CONTENT_BYTE_BUDGET)),
        };
        ingest_candidate_file(store, &facts, &model, now).map_err(|error| error.message())?;
    }
    Ok(())
}

fn count_jobs(store: &Store, job_type: JobType) -> usize {
    let of_type = |row: &&ask::models::StoredJob| row.job_type == job_type.as_str();
    store.jobs.rows.iter().filter(of_type).count()
}

fn count_chunks(store: &Store, chunk_type: ChunkType) -> usize {
    let of_type = |row: &&DocumentEmbedding| row.chunk_type == chunk_type;
    store.embeddings.rows.iter().filter(of_type).count()
}

fn delete_embed_jobs(store: &mut Store) {
    store
        .jobs
        .rows
        .retain(|row| row.job_type != JobType::EmbedDocument.as_str());
}

#[test]
fn embed_document_job_replaces_rows_for_exact_document_model_pair() {
    let mut store = Store::new();
    let model = register_model(&mut store, "embed-success", 512, 0);
    let other = register_model(&mut store, "embed-other", 512, 0);
    let files = Files::new(&[("/r/embedded.txt", b"abcdefghij")]);
    let doc = insert_document(&mut store, "/r/embedded.txt", 10);
    let filename = (ChunkType::Filename, 0, 0);
    insert_embedding(&mut store, doc, model.id, filename, EmbedState::Pending, None);
    let content = (ChunkType::Content, 0, 5);
    insert_embedding(&mut store, doc, model.id, content, EmbedState::Stale, None);
    insert_embedding(&mut store, doc, other.id, filename, EmbedState::Embedded, Some(vec![1]));
    let payload = embed_job_payload(doc, model.id);
    enqueue_job(&mut store, &JobType::EmbedDocument, &payload, NOW + 2).unwrap();

    let client = DeterministicEmbeddingClient::new();
    run_embed_job(&mut store, doc, model.id, &files, &client, NOW + 3).unwrap();

    let mut rows: Vec<(&str, i64, i64, EmbedState, usize)> = store
        .embeddings
        .rows
        .iter()
        .filter(|row| row.model_id == model.id)
        .map(|row| {
            (
                row.chunk_type.as_str(),
                row.chunk_start,
                row.chunk_end,
                row.state,
                row.embedding.as_ref().unwrap().len(),
            )
        })
        .collect();
    rows.sort_by_key(|row| (row.0, row.1));
    assert_eq!(
        rows,
        vec![
            ("content", 0, 10, EmbedState::Embedded, 768 * 4),
            ("filename", 0, 0, EmbedState::Embedded, 768 * 4),
        ]
    );
    let of_other: Vec<Option<Vec<u8>>> = store
        .embeddings
        .rows
        .iter()
        .filter(|row| row.model_id == other.id)
        .map(|row| row.embedding.clone())
        .collect();
    assert_eq!(of_other, vec![Some(vec![1])]);
    assert_eq!(count_jobs(&store, JobType::EmbedDocument), 0);
}

#[test]
fn embed_document_provider_failure_keeps_job_claimed_and_rows_unchanged() {
    let mut store = Store::new();
    let model = register_model(&mut store, "embed-failure", 512, 0);
    let files = Files::new(&[("/r/fail.txt", b"please fail-provider now")]);
    let doc = insert_document(&mut store, "/r/fail.txt", 24);
    let filename = (ChunkType::Filename, 0, 0);
    insert_embedding(&mut store, doc, model.id, filename, EmbedState::Pending, None);
    let payload = embed_job_payload(doc, model.id);
    enqueue_job(&mut store, &JobType::EmbedDocument, &payload, NOW + 1).unwrap();

    let client = DeterministicEmbeddingClient::fail_on_input("fail-provider");
    let err = run_embed_job(&mut store, doc, model.id, &files, &client, NOW + 2).unwrap_err();
    assert!(err.contains("failed to embed document"));
    assert_eq!(
        err,
        "job 1 (embed_document): failed to embed document 1 with model 1: \
         deterministic embedding failure triggered by input containing 'fail-provider'"
    );

    assert_eq!(store.embeddings.rows.len(), 1);
    assert_eq!(store.embeddings.rows[0].state, EmbedState::Pending);
    assert_eq!(store.embeddings.rows[0].embedding, None);
    assert_eq!(store.jobs.rows[0].claimed_at, Some(NOW + 2));
}

#[test]
fn embed_document_missing_file_returns_error_for_stored_path() {
    let mut store = Store::new();
    let model = register_model(&mut store, "embed-missing-file", 512, 0);
    let doc = insert_document(&mut store, "/r/gone.txt", 10);
    let filename = (ChunkType::Filename, 0, 0);
    insert_embedding(&mut store, doc, model.id, filename, EmbedState::Pending, None);
    let payload = embed_job_payload(doc, model.id);
    enqueue_job(&mut store, &JobType::EmbedDocument, &payload, NOW + 1).unwrap();

    let client = DeterministicEmbeddingClient::new();
    let files = Files::new(&[]);
    let err = run_embed_job(&mut store, doc, model.id, &files, &client, NOW + 2).unwrap_err();
    assert!(err.contains("failed to read document content from /r/gone.txt"));

    assert_eq!(store.jobs.rows[0].claimed_at, Some(NOW + 2));
    assert_eq!(store.embeddings.rows[0].state, EmbedState::Pending);
}

#[test]
fn whole_documents_are_prepared() {
    let mut store = Store::new();
    let model = register_model(&mut store, "whole", 10, 0);
    let chunks = prepare_whole_document("/r/notes.txt", Some("hello world"), &model);
    let shown: Vec<(ChunkType, i64, i64, &str)> = chunks
        .iter()
        .map(|chunk| {
            (
                chunk.chunk_type,
                chunk.chunk_start,
                chunk.chunk_end,
                chunk.input.as_str(),
            )
        })
        .collect();
    assert_eq!(
        shown,
        vec![
            (ChunkType::Filename, 0, 0, "notes.txt"),
            (ChunkType::Content, 0, 10, "hello worl"),
            (ChunkType::Content, 10, 11, "d"),
        ]
    );
    assert_eq!(prepare_whole_document("/r/a", Some(""), &model).len(), 1);
    assert_eq!(prepare_whole_document("/r/a", None, &model).len(), 1);
}

#[test]
fn ingested_documents_are_embedded_and_follow_their_file() {
    let mut store = Store::new();
    let model = register_model(&mut store, "life", 10, 2);
    let mut files = Files::new(&[("/r/a.txt", b"Hello, World!")]);
    let client = DeterministicEmbeddingClient::new();
    run_ingest_job(&mut store, "/r", ".*", model.id, &files, NOW).unwrap();
    run_embed_job(&mut store, 1, model.id, &files, &client, NOW + 10).unwrap();
    assert!(store.jobs.rows.is_empty());
    assert_eq!(store.embeddings.rows.len(), 3);
    assert!(store
        .embeddings
        .rows
        .iter()
        .all(|row| row.state == EmbedState::Embedded));

    let payload = embed_job_payload(1, model.id);
    enqueue_job(&mut store, &JobType::EmbedDocument, &payload, NOW + 20).unwrap();
    files.write("/r/a.txt", b"Hi!");
    run_embed_job(&mut store, 1, model.id, &files, &client, NOW + 21).unwrap();
    assert_eq!(store.fingerprints[0].file_hash, hash_bytes(b"Hi!"));
    assert_eq!(count_jobs(&store, JobType::EmbedDocument), 1);

    files.remove("/r/a.txt");
    run_embed_job(&mut store, 1, model.id, &files, &client, NOW + 31).unwrap();
    assert!(store.documents.rows.is_empty());
    assert!(store.embeddings.rows.is_empty());
    assert!(store.fingerprints.is_empty());
    assert!(store.jobs.rows.is_empty());
}

#[test]
fn ingest_folder_inserts_documents_and_pending_embeddings() {
    let mut store = Store::new();
    let model = register_model(&mut store, "test-model", 10, 2);
    let files = Files::new(&[
        ("/ingest_me/hello.txt", b"Hello, World!"),
        ("/ingest_me/main.rs", b"fn main() { println!(\"hi\"); }"),
        ("/ingest_me/data.bin", &[0x00, 0xFF, 0xFE, 0x7F]),
    ]);
    run_ingest_job(&mut store, "/ingest_me", ".*", model.id, &files, NOW).unwrap();

    assert_eq!(store.documents.rows.len(), 3);
    let pending = |row: &&DocumentEmbedding| row.state == EmbedState::Pending;
    assert!(store.embeddings.rows.iter().filter(pending).count() >= 3);
    assert_eq!(count_chunks(&store, ChunkType::Content), 6);
    assert_eq!(count_jobs(&store, JobType::IngestFolder), 0);
    assert_eq!(count_jobs(&store, JobType::EmbedDocument), 3);
}

#[test]
fn ingest_folder_recursively_inserts_nested_documents() {
    let mut store = Store::new();
    let model = register_model(&mut store, "recursive", 512, 0);
    let files = Files::new(&[
        ("/recursive/root.txt", b"root content"),
        ("/recursive/src/deeper/nested.txt", b"nested content"),
    ]);
    run_ingest_job(&mut store, "/recursive", ".*", model.id, &files, NOW).unwrap();
    let paths: Vec<&str> = store
        .documents
        .rows
        .iter()
        .map(|row| row.filepath.as_str())
        .collect();
    assert_eq!(
        paths,
        vec!["/recursive/root.txt", "/recursive/src/deeper/nested.txt"]
    );
}

#[test]
fn ingest_folder_filters_files_by_normalized_relative_path() {
    let mut store = Store::new();
    let model = register_model(&mut store, "path_filter", 512, 0);
    let files = Files::new(&[
        ("/path_filter/src/main.rs", b"fn main() {}\n"),
        ("/path_filter/src/notes.md", b"# notes\n"),
        ("/path_filter/docs/guide.txt", b"guide\n"),
    ]);
    let pattern = r"^src/.+\.rs$";
    run_ingest_job(&mut store, "/path_filter", pattern, model.id, &files, NOW).unwrap();
    assert_eq!(store.documents.rows.len(), 1);
    assert_eq!(store.documents.rows[0].filepath, "/path_filter/src/main.rs");
}

#[test]
fn ingest_folder_skips_unchanged_files() {
    let mut store = Store::new();
    let model = register_model(&mut store, "test-model", 512, 0);
    let files = Files::new(&[("/stable/stable.txt", b"content")]);
    run_ingest_job(&mut store, "/stable", ".*", model.id, &files, NOW).unwrap();
    assert_eq!(store.documents.rows.len(), 1);
    delete_embed_jobs(&mut store);

    run_ingest_job(&mut store, "/stable", ".*", model.id, &files, NOW + 10).unwrap();
    assert_eq!(store.documents.rows.len(), 1);
    assert!(store.jobs.rows.is_empty());
}

#[test]
fn ingest_folder_updates_existing_document_when_file_changes() {
    let mut store = Store::new();
    let model = register_model(&mut store, "test-model", 512, 0);
    let mut files = Files::new(&[("/changed/changed.txt", b"alpha")]);
    run_ingest_job(&mut store, "/changed", ".*", model.id, &files, NOW).unwrap();
    let first_id = store.documents.rows[0].id;
    for row in &mut store.embeddings.rows {
        row.state = EmbedState::Embedded;
        row.embedding = Some(vec![1]);
    }
    delete_embed_jobs(&mut store);

    files.write("/changed/changed.txt", b"alpha beta gamma");
    let later = NOW + 100;
    run_ingest_job(&mut store, "/changed", ".*", model.id, &files, later).unwrap();

    assert_eq!(store.documents.rows.len(), 1);
    assert_eq!(store.documents.rows[0].id, first_id);
    assert_eq!(store.documents.rows[0].file_size, 16);
    assert!(store.documents.rows[0].updated_at >= later);
    let pending = |row: &&DocumentEmbedding| row.state == EmbedState::Pending;
    assert_eq!(store.embeddings.rows.iter().filter(pending).count(), 2);
}

#[test]
fn ingest_folder_empty_dir_completes_job() {
    let mut store = Store::new();
    let model = register_model(&mut store, "test-model", 512, 0);
    run_ingest_job(&mut store, "/empty", ".*", model.id, &Files::new(&[]), NOW).unwrap();
    assert!(store.documents.rows.is_empty());
    assert!(store.jobs.rows.is_empty());
}

#[test]
fn dispatch_job_missing_model_returns_error_and_keeps_job_claimed() {
    let mut store = Store::new();
    let files = Files::new(&[("/missing_model/a.txt", b"content")]);
    let err = run_ingest_job(&mut store, "/missing_model", ".*", 999, &files, NOW).unwrap_err();
    assert!(err.contains("embedding model 999 not found"));
    assert_eq!(store.jobs.rows.len(), 1);
    assert_eq!(store.jobs.rows[0].claimed_at, Some(NOW + 1));
}

#[test]
fn multiple_ingest_jobs_sequentially_all_complete() {
    let mut store = Store::new();
    let model = register_model(&mut store, "multi", 512, 0);
    let files = Files::new(&[
        ("/set_a/a.txt", b"a"),
        ("/set_a/b.txt", b"b"),
        ("/set_b/c.txt", b"c"),
    ]);
    run_ingest_job(&mut store, "/set_a", ".*", model.id, &files, NOW).unwrap();
    assert_eq!(count_jobs(&store, JobType::EmbedDocument), 2);
    delete_embed_jobs(&mut store);
    run_ingest_job(&mut store, "/set_b", ".*", model.id, &files, NOW + 10).unwrap();
    assert_eq!(store.documents.rows.len(), 3);
    assert_eq!(count_jobs(&store, JobType::IngestFolder), 0);
    assert_eq!(count_jobs(&store, JobType::EmbedDocument), 3);
}

#[test]
fn ingest_files_with_special_characters_in_names() {
    let mut store = Store::new();
    let model = register_model(&mut store, "special", 512, 0);
    let names = [
        "/special_chars/file with spaces.txt",
        "/special_chars/file(with)parens.txt",
        "/special_chars/resume-dash.txt",
        "/special_chars/a-b+c*d?.txt",
    ];
    let files = Files(
        names
            .iter()
            .map(|name| (name.to_string(), b"content".to_vec()))
            .collect(),
    );
    run_ingest_job(&mut store, "/special_chars", ".*", model.id, &files, NOW).unwrap();
    let paths: Vec<&str> = store
        .documents
        .rows
        .iter()
        .map(|row| row.filepath.as_str())
        .collect();
    assert_eq!(paths, names);
}

#[test]
fn ingest_large_file_produces_many_chunks() {
    let mut store = Store::new();
    let model = register_model(&mut store, "small-chunks", 10, 2);
    let content: Vec<u8> = (0..100).map(|i| b'a' + (i % 26) as u8).collect();
    assert_eq!(content.len(), 100);
    let files = Files::new(&[("/large/big.txt", &content)]);
    run_ingest_job(&mut store, "/large", ".*", model.id, &files, NOW).unwrap();
    assert_eq!(count_chunks(&store, ChunkType::Content), 13);
}

#[test]
fn ingest_non_utf8_file_only_gets_filename_embedding() {
    let mut store = Store::new();
    let model = register_model(&mut store, "nonutf8", 512, 0);
    let files = Files::new(&[("/nonutf8/data.bin", &[0xFF, 0xFE, 0x80, 0x00])]);
    run_ingest_job(&mut store, "/nonutf8", ".*", model.id, &files, NOW).unwrap();
    assert_eq!(count_chunks(&store, ChunkType::Filename), 1);
    assert_eq!(count_chunks(&store, ChunkType::Content), 0);
}

#[test]
fn new_model_backfill_queues_filename_and_content_embeddings_for_existing_documents() {
    let mut store = Store::new();
    let files = Files::new(&[
        ("/existing_docs/notes.txt", b"hello world"),
        ("/existing_docs/blob.bin", &[0xFF, 0xFE, 0x80, 0x00]),
    ]);
    let mut sources: Vec<BackfillSource> = Vec::new();
    for (path, bytes) in &files.0 {
        sources.push(BackfillSource {
            document_id: insert_document(&mut store, path, bytes.len() as i64),
            filepath: path.clone(),
            content: Some(files.read(path, CONTENT_BYTE_BUDGET)),
        });
    }
    let model = register_model(&mut store, "backfill", 10, 0);

    let seeded = backfill_pending_for_model(&mut store, &model, &sources, NOW + 1).unwrap();
    assert_eq!(seeded, 2);
    let payloads: Vec<&str> = store
        .jobs
        .rows
        .iter()
        .map(|row| row.payload.as_str())
        .collect();
    assert_eq!(
        payloads,
        vec![embed_job_payload(1, model.id), embed_job_payload(2, model.id)]
    );
    assert_eq!(count_chunks(&store, ChunkType::Filename), 2);
    assert_eq!(count_chunks(&store, ChunkType::Content), 2);
}

#[test]
fn ingest_jobs_start_with_pattern_directory_and_model() {
    let mut store = Store::new();
    let model = register_model(&mut store, "start", 512, 0);

    let Err(err) = begin_ingest(&store, "[", false, 999, 7) else {
        panic!("the pattern comes first");
    };
    assert!(matches!(err, IngestStartError::Pattern { job_id: 7, .. }));
    assert_eq!(
        err.message(),
        "failed to compile file pattern for job 7: invalid file pattern stored in queued job: ["
    );

    assert!(matches!(
        begin_ingest(&store, ".*", false, 999, 7),
        Ok(IngestStart::Gone)
    ));

    let Err(err) = begin_ingest(&store, ".*", true, 999, 7) else {
        panic!("there is no such model");
    };
    assert_eq!(err.message(), "embedding model 999 not found for job 7");

    let Ok(IngestStart::Ready { pattern, model: found }) =
        begin_ingest(&store, r"\.md$", true, model.id, 7)
    else {
        panic!("all is there");
    };
    assert_eq!(found, model);
    assert!(pattern.is_match("a.md"));
    assert!(!pattern.is_match("a.txt"));
}

#[test]
fn ingest_folder_nonexistent_path_completes_job() {
    let mut store = Store::new();
    let root = "/tmp/ask-nonexistent-12345-unlikely";
    enqueue_job(&mut store, &JobType::IngestFolder, root, NOW).unwrap();
    let entry = claim_job(&mut store, NOW + 1).unwrap().unwrap();
    assert!(matches!(
        begin_ingest(&store, ".*", false, 1, entry.id),
        Ok(IngestStart::Gone)
    ));
    settle_job(&mut store, &entry, HandlerResult::Done, NOW + 2).unwrap();
    assert!(store.jobs.rows.is_empty());
}

#[test]
fn failed_calls_of_the_model_fail_the_job() {
    let passing = EmbeddingError::retryable("overloaded".to_string(), 300);
    assert_eq!(
        embed_call_failed(-3, 4, &passing),
        HandlerResult::Failed {
            message: "failed to embed document -3 with model 4: overloaded".to_string(),
            retry_after_secs: Some(300),
        }
    );
    let staying = EmbeddingError::permanent("refused".to_string());
    assert!(matches!(
        embed_call_failed(1, 2, &staying),
        HandlerResult::Failed { retry_after_secs: None, .. }
    ));
}
