use ask::ingest::BackfillSource;
use ask::models::{Document, DocumentEmbedding, EmbeddingIdentity, EmbeddingModel};
use ask::repository::{
    claim_job, embed_job_payload, enqueue_job, insert_model, upsert_document, RepositoryError,
};
use ask::startup::{
    classify_summary, documents_to_backfill, reconcile_embedding_startup, StartupSummaryKind,
};
use ask::store::Store;
use ask::types::{ChunkType, DocCategory, EmbedState, JobType};

fn embedding_identity(name: &str, dimensions: i64) -> EmbeddingIdentity {
    EmbeddingIdentity {
        name: name.to_string(),
        dimensions,
        chunk_size: 512,
        chunk_overlap: 0,
    }
}

fn register_model(store: &mut Store, now: i64, name: &str) -> i64 {
    insert_model(
        store,
        &EmbeddingModel {
            id: 0,
            name: name.to_string(),
            dimensions: 768,
            chunk_size: 512,
            chunk_overlap: 0,
            created_at: now,
        },
    )
    .unwrap()
}

fn insert_document(store: &mut Store, now: i64, path: &str) -> i64 {
    let document = Document {
        id: 0,
        filepath: path.to_string(),
        file_type: "txt".to_string(),
        doc_category: DocCategory::Resource,
        file_modified_at: now,
        file_size: 10,
        updated_at: now,
    };
    upsert_document(store, &document).unwrap().0
}

fn insert_embedding_row(
    store: &mut Store,
    document_id: i64,
    model_id: i64,
    chunk: (ChunkType, i64, i64),
    state: EmbedState,
    now: i64,
) {
    store.embeddings.last_id += 1;
    store.embeddings.rows.push(DocumentEmbedding {
        id: store.embeddings.last_id,
        document_id,
        model_id,
        chunk_type: chunk.0,
        chunk_start: chunk.1,
        chunk_end: chunk.2,
        state,
        embedding: None,
        created_at: now,
    });
}

fn queued_embed_jobs(store: &Store) -> Vec<String> {
    store
        .jobs
        .rows
        .iter()
        .filter(|row| row.job_type == JobType::EmbedDocument.as_str())
        .map(|row| row.payload.clone())
        .collect()
}

const NOW: i64 = 1_700_000_000;
const NAME: (ChunkType, i64, i64) = (ChunkType::Filename, 0, 0);

#[test]
fn startup_recovery_seeds_jobs_for_existing_pending_rows() {
    let mut store = Store::new();
    let doc_a = insert_document(&mut store, NOW, "/pending-a.txt");
    let doc_b = insert_document(&mut store, NOW, "/pending-b.txt");
    let model_id = register_model(&mut store, NOW, "startup-pending");

    insert_embedding_row(&mut store, doc_a, model_id, NAME, EmbedState::Pending, NOW);
    insert_embedding_row(
        &mut store,
        doc_a,
        model_id,
        (ChunkType::Content, 0, 7),
        EmbedState::Pending,
        NOW,
    );
    insert_embedding_row(&mut store, doc_b, model_id, NAME, EmbedState::Pending, NOW);

    let identity = embedding_identity("startup-pending", 768);
    let startup = reconcile_embedding_startup(&mut store, &identity, &[], NOW).unwrap();

    assert_eq!(startup.backfilled_documents, 0);
    assert_eq!(startup.seeded_jobs, 2);
    assert_eq!(startup.model.id, model_id);
    assert_eq!(
        queued_embed_jobs(&store),
        vec![
            embed_job_payload(doc_a, model_id),
            embed_job_payload(doc_b, model_id),
        ]
    );
}

#[test]
fn startup_recovery_seeds_jobs_for_existing_stale_rows() {
    let mut store = Store::new();
    let doc_id = insert_document(&mut store, NOW, "/stale.txt");
    let model_id = register_model(&mut store, NOW, "startup-stale");
    insert_embedding_row(&mut store, doc_id, model_id, NAME, EmbedState::Stale, NOW);

    let identity = embedding_identity("startup-stale", 768);
    let startup = reconcile_embedding_startup(&mut store, &identity, &[], NOW).unwrap();

    assert_eq!(startup.backfilled_documents, 0);
    assert_eq!(startup.seeded_jobs, 1);
    assert_eq!(
        queued_embed_jobs(&store),
        vec![embed_job_payload(doc_id, model_id)]
    );
}

#[test]
fn startup_recovery_does_not_duplicate_existing_queued_or_claimed_jobs() {
    let mut store = Store::new();
    let queued_doc = insert_document(&mut store, NOW, "/queued.txt");
    let claimed_doc = insert_document(&mut store, NOW, "/claimed.txt");
    let model_id = register_model(&mut store, NOW, "startup-dedup");
    for (doc, state) in [
        (queued_doc, EmbedState::Pending),
        (claimed_doc, EmbedState::Stale),
    ] {
        insert_embedding_row(&mut store, doc, model_id, NAME, state, NOW);
        let payload = embed_job_payload(doc, model_id);
        enqueue_job(&mut store, &JobType::EmbedDocument, &payload, NOW).unwrap();
    }
    let claimed = claim_job(&mut store, NOW + 1).unwrap();
    assert!(claimed.is_some(), "one queued job should become claimed");

    let identity = embedding_identity("startup-dedup", 768);
    let startup = reconcile_embedding_startup(&mut store, &identity, &[], NOW + 2).unwrap();

    assert_eq!(startup.backfilled_documents, 0);
    assert_eq!(startup.seeded_jobs, 0);
    assert_eq!(
        queued_embed_jobs(&store),
        vec![
            embed_job_payload(queued_doc, model_id),
            embed_job_payload(claimed_doc, model_id),
        ]
    );

    let claimed_count = store
        .jobs
        .rows
        .iter()
        .filter(|row| row.claimed_at.is_some())
        .count();
    assert_eq!(claimed_count, 1);
}

#[test]
fn startup_recovery_is_idempotent_across_repeated_boots() {
    let mut store = Store::new();
    let doc_id = insert_document(&mut store, NOW, "/repeat.txt");
    let model_id = register_model(&mut store, NOW, "startup-repeat");
    insert_embedding_row(&mut store, doc_id, model_id, NAME, EmbedState::Pending, NOW);

    let identity = embedding_identity("startup-repeat", 768);
    let first = reconcile_embedding_startup(&mut store, &identity, &[], NOW).unwrap();
    let first_jobs = queued_embed_jobs(&store).len();
    let second = reconcile_embedding_startup(&mut store, &identity, &[], NOW + 1).unwrap();
    let second_jobs = queued_embed_jobs(&store).len();

    assert_eq!(first.seeded_jobs, 1);
    assert_eq!(second.seeded_jobs, 0);
    assert_eq!(first_jobs, 1);
    assert_eq!(second_jobs, 1);
}

#[test]
fn startup_recovery_does_not_seed_jobs_for_embedded_only_rows() {
    let mut store = Store::new();
    let doc_id = insert_document(&mut store, NOW, "/embedded.txt");
    let model_id = register_model(&mut store, NOW, "startup-embedded");
    insert_embedding_row(&mut store, doc_id, model_id, NAME, EmbedState::Embedded, NOW);

    let identity = embedding_identity("startup-embedded", 768);
    let startup = reconcile_embedding_startup(&mut store, &identity, &[], NOW).unwrap();

    assert_eq!(startup.backfilled_documents, 0);
    assert_eq!(startup.seeded_jobs, 0);
    assert_eq!(startup.document_count, 1);
    assert_eq!(startup.recoverable_pairs, 0);
    assert_eq!(startup.summary_kind, StartupSummaryKind::Idle);
    assert_eq!(queued_embed_jobs(&store).len(), 0);
}

#[test]
fn startup_recovery_reports_empty_database_state() {
    let mut store = Store::new();

    let identity = embedding_identity("startup-empty", 768);
    let startup = reconcile_embedding_startup(&mut store, &identity, &[], NOW).unwrap();

    assert_eq!(startup.backfilled_documents, 0);
    assert_eq!(startup.seeded_jobs, 0);
    assert_eq!(startup.document_count, 0);
    assert_eq!(startup.recoverable_pairs, 0);
    assert_eq!(startup.summary_kind, StartupSummaryKind::Empty);
    assert_eq!(startup.model.id, 1);
    assert_eq!(startup.model.created_at, NOW);
}

#[test]
fn startup_recovery_reports_recoverable_work_in_summary_state() {
    let mut store = Store::new();
    let doc_id = insert_document(&mut store, NOW, "/summary-recoverable.txt");
    let model_id = register_model(&mut store, NOW, "startup-summary-recoverable");
    insert_embedding_row(&mut store, doc_id, model_id, NAME, EmbedState::Pending, NOW);

    let identity = embedding_identity("startup-summary-recoverable", 768);
    let startup = reconcile_embedding_startup(&mut store, &identity, &[], NOW).unwrap();

    assert_eq!(startup.document_count, 1);
    assert_eq!(startup.recoverable_pairs, 1);
    assert_eq!(startup.summary_kind, StartupSummaryKind::Recovered);
}

#[test]
fn startup_recovery_reports_idle_corpus_state() {
    let mut store = Store::new();
    let doc_id = insert_document(&mut store, NOW, "/summary-idle.txt");
    let model_id = register_model(&mut store, NOW, "startup-summary-idle");
    insert_embedding_row(&mut store, doc_id, model_id, NAME, EmbedState::Embedded, NOW);

    let identity = embedding_identity("startup-summary-idle", 768);
    let startup = reconcile_embedding_startup(&mut store, &identity, &[], NOW).unwrap();

    assert_eq!(startup.document_count, 1);
    assert_eq!(startup.recoverable_pairs, 0);
    assert_eq!(startup.summary_kind, StartupSummaryKind::Idle);
}

#[test]
fn startup_with_a_new_model_queues_all_documents() {
    let mut store = Store::new();
    let doc_a = insert_document(&mut store, NOW, "/a.txt");
    let doc_b = insert_document(&mut store, NOW, "/b.txt");
    let identity = embedding_identity("startup-new", 768);
    let documents = documents_to_backfill(&store, &identity).unwrap();
    let ids: Vec<i64> = documents.iter().map(|document| document.id).collect();
    assert_eq!(ids, vec![doc_a, doc_b]);
    let sources: Vec<BackfillSource> = documents
        .into_iter()
        .map(|document| BackfillSource {
            document_id: document.id,
            filepath: document.filepath,
            content: None,
        })
        .collect();

    let startup = reconcile_embedding_startup(&mut store, &identity, &sources, NOW).unwrap();

    assert_eq!(startup.backfilled_documents, 2);
    assert_eq!(startup.seeded_jobs, 0);
    assert_eq!(startup.recoverable_pairs, 2);
    assert_eq!(queued_embed_jobs(&store).len(), 2);
    for doc in [doc_a, doc_b] {
        assert!(store.embeddings.rows.iter().any(|row| {
            row.document_id == doc
                && row.model_id == startup.model.id
                && row.state == EmbedState::Pending
        }));
    }
    assert!(documents_to_backfill(&store, &identity).unwrap().is_empty());

    let mut full = Store::new();
    full.models.last_id = i64::MAX;
    let err = reconcile_embedding_startup(&mut full, &identity, &[], NOW).unwrap_err();
    assert!(matches!(err, RepositoryError::Full));

    let mut empty = Store::new();
    let err = reconcile_embedding_startup(&mut empty, &identity, &sources, NOW).unwrap_err();
    assert!(matches!(err, RepositoryError::ForeignKey));
    assert!(empty.embeddings.rows.is_empty());
}

#[test]
fn summaries_are_told_apart() {
    assert_eq!(classify_summary(0, 0), StartupSummaryKind::Empty);
    assert_eq!(classify_summary(0, 3), StartupSummaryKind::Empty);
    assert_eq!(classify_summary(2, 1), StartupSummaryKind::Recovered);
    assert_eq!(classify_summary(2, 0), StartupSummaryKind::Idle);
}
