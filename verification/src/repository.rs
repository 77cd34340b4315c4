//! The operations on the store.
//!
//! Each operation is all or nothing: where it returns an error, the store is as it was.

use crate::json::{members_view, render_object, JsonScalar, ScalarView};
use crate::models::{
    Document, DocumentEmbedding, DocumentRow, DocumentView, EmbeddedChunk, EmbeddingIdentity,
    EmbeddingModel, EmbeddingRow, JobQueueEntry, ModelView, StoredDocument, StoredJob,
};
use crate::queue::{JobTable, Refusal};
use crate::rows::{
    first_where, is_first, lemma_first_exists, lemma_first_where, lemma_first_where_is_first,
    lemma_without_keeps, lemma_without_len, lemma_without_order, lemma_without_origin, position,
    remove_where, rows_of, without,
};
use crate::store::{
    chunk_test, embed_payload, every, has_ids_for_jobs, identity_test, known,
    lemma_ids_for_first_chunks, lemma_ids_for_first_jobs, lemma_with_chunks_wf,
    lemma_with_document_wf, lemma_with_stale_wf, lemma_without_wf, model_id_test, model_name_test,
    only, pair_test, pending_test, pending_writes, recoverable, seeded, seeded_count, ChunkWrite,
    DocumentTable, Documents, EmbeddingTable, Embeddings, Fingerprint, FingerprintRow, Store,
    Tables,
};
use crate::text::{
    lemma_text_less, lemma_text_order_total, lemma_text_order_transitive, less_text, same_text,
    text_less,
};
use crate::types::{ChunkType, DocCategory, EmbedState, InvalidName, JobType};
use vstd::prelude::*;

verus! {

/// Why an operation was not carried out.
#[derive(Clone, Debug)]
pub enum RepositoryError {
    /// Such a job is queued or in progress.
    AlreadyQueued { job_type: JobType, payload: String },
    /// A stored name is none of the expected ones.
    Invalid(InvalidName),
    /// An embedding would belong to no document or to no model.
    ForeignKey,
    /// A model with this identity is there already.
    DuplicateModel,
    /// No id is left for a new row.
    Full,
}

impl RepositoryError {
    pub open spec fn spec_message(&self) -> Seq<char> {
        match self {
            RepositoryError::AlreadyQueued { job_type, payload } => "a job with type '"@
                + job_type.name() + "' and payload '"@ + payload@
                + "' is already queued or in progress"@,
            RepositoryError::Invalid(error) => error.spec_message(),
            RepositoryError::ForeignKey => "FOREIGN KEY constraint failed"@,
            RepositoryError::DuplicateModel => "UNIQUE constraint failed: embedding_models"@,
            RepositoryError::Full => "database or disk is full"@,
        }
    }

    /// What was wrong, in words.
    pub fn message(&self) -> (text: String)
        ensures
            text@ == self.spec_message(),
    {
        match self {
            RepositoryError::AlreadyQueued { job_type, payload } => String::from_str(
                "a job with type '",
            ).concat(job_type.as_str()).concat("' and payload '").concat(payload.as_str()).concat(
                "' is already queued or in progress",
            ),
            RepositoryError::Invalid(error) => error.message(),
            RepositoryError::ForeignKey => String::from_str("FOREIGN KEY constraint failed"),
            RepositoryError::DuplicateModel => String::from_str(
                "UNIQUE constraint failed: embedding_models",
            ),
            RepositoryError::Full => String::from_str("database or disk is full"),
        }
    }
}

/// Queues a job. One that is queued or in progress is refused; one whose claim is dead
/// is set free again.
pub fn enqueue_job(store: &mut Store, job_type: &JobType, payload: &str, now: i64) -> (result:
    Result<(), RepositoryError>)
    ensures
        match result {
            Ok(()) => {
                &&& old(store)@.jobs.accepts(job_type.name(), payload@, now as int)
                &&& !old(store)@.jobs.full_for(job_type.name(), payload@)
                &&& final(store)@ == (Tables {
                    jobs: old(store)@.jobs.enqueued(job_type.name(), payload@, now),
                    ..old(store)@
                })
            },
            Err(RepositoryError::AlreadyQueued { job_type: t, payload: p }) => {
                &&& !old(store)@.jobs.accepts(job_type.name(), payload@, now as int)
                &&& t == *job_type
                &&& p@ == payload@
                &&& final(store)@ == old(store)@
            },
            Err(error) => {
                &&& error is Full
                &&& old(store)@.jobs.full_for(job_type.name(), payload@)
                &&& final(store)@ == old(store)@
            },
        },
        old(store)@.wf() ==> final(store)@.wf(),
{
    match store.jobs.enqueue(*job_type, payload, now) {
        Ok(()) => Ok(()),
        Err(Refusal::Taken) => Err(
            RepositoryError::AlreadyQueued { job_type: *job_type, payload: payload.to_owned() },
        ),
        Err(Refusal::Full) => Err(RepositoryError::Full),
    }
}

/// Claims the job that is next, if there is one.
pub fn claim_job(store: &mut Store, now: i64) -> (result: Result<
    Option<JobQueueEntry>,
    RepositoryError,
>)
    ensures
        match result {
            Ok(Some(entry)) => old(store)@.jobs.next(now as int) matches Some(i) && {
                &&& final(store)@ == (Tables {
                    jobs: old(store)@.jobs.claimed(i, now),
                    ..old(store)@
                })
                &&& entry@ == final(store)@.jobs.rows[i]
            },
            Ok(None) => old(store)@.jobs.next(now as int) is None && final(store)@ == old(store)@,
            Err(error) => old(store)@.jobs.next(now as int) matches Some(i) && {
                &&& forall|job_type: JobType|
                    old(store)@.jobs.rows[i].job_type != #[trigger] job_type.name()
                &&& error matches RepositoryError::Invalid(invalid) && invalid.enumeration@
                    == "JobType"@ && invalid.name@ == old(store)@.jobs.rows[i].job_type
                &&& final(store)@ == old(store)@
            },
        },
        old(store)@.wf() ==> final(store)@.wf(),
{
    match store.jobs.claim(now) {
        Ok(entry) => Ok(entry),
        Err(error) => Err(RepositoryError::Invalid(error)),
    }
}

/// Removes a completed job.
pub fn complete_job(store: &mut Store, job_id: i64)
    ensures
        final(store)@ == (Tables { jobs: old(store)@.jobs.completed(job_id), ..old(store)@ }),
        old(store)@.wf() ==> final(store)@.wf(),
{
    store.jobs.complete(job_id);
}

/// Sets a job aside until `retry_after_secs` seconds from now.
pub fn defer_job_for_retry(store: &mut Store, job_id: i64, now: i64, retry_after_secs: u64)
    ensures
        final(store)@ == (Tables {
            jobs: old(store)@.jobs.reclaimed_at(
                job_id,
                crate::queue::deferred_claim(now, retry_after_secs),
            ),
            ..old(store)@
        }),
        old(store)@.wf() ==> final(store)@.wf(),
{
    store.jobs.defer(job_id, now, retry_after_secs);
}

/// The payload of the job that embeds a document for a model.
pub fn embed_job_payload(document_id: i64, model_id: i64) -> (payload: String)
    ensures
        payload@ == embed_payload(document_id as int, model_id as int),
{
    let mut members: Vec<(&'static str, JsonScalar)> = Vec::new();
    members.push(("document_id", JsonScalar::Integer(document_id)));
    members.push(("model_id", JsonScalar::Integer(model_id)));
    proof {
        reveal_strlit("document_id");
        reveal_strlit("model_id");
        lemma_text_less("document_id"@, "model_id"@, 0);
        assert(members_view(members@) =~= seq![
            ("document_id"@, ScalarView::Number(document_id as int)),
            ("model_id"@, ScalarView::Number(model_id as int)),
        ]);
    }
    render_object(members)
}

fn is_recoverable(row: &DocumentEmbedding) -> (yes: bool)
    ensures
        yes == recoverable(row@),
{
    match row.state {
        EmbedState::Pending => true,
        EmbedState::Stale => true,
        EmbedState::Embedded => false,
    }
}

/// Queues a job for each selected document and model with an embedding to be made, and
/// says how many were queued. Where no id is left, some of them may have been queued.
fn seed_jobs<F: Fn(i64) -> bool>(
    jobs: &mut JobTable,
    rows: &Vec<DocumentEmbedding>,
    select: F,
    Ghost(selected): Ghost<spec_fn(i64) -> bool>,
    now: i64,
) -> (result: Option<usize>)
    requires
        forall|id: i64| call_requires(select, (id,)),
        forall|id: i64, b: bool| call_ensures(select, (id,), b) ==> b == selected(id),
    ensures
        match result {
            Some(count) => {
                &&& has_ids_for_jobs(old(jobs)@, rows_of(rows@), selected, now)
                &&& final(jobs)@ == seeded(old(jobs)@, rows_of(rows@), selected, now)
                &&& count == seeded_count(old(jobs)@, rows_of(rows@), selected, now)
            },
            None => !has_ids_for_jobs(old(jobs)@, rows_of(rows@), selected, now),
        },
        old(jobs)@.wf() ==> final(jobs)@.wf(),
{
    let ghost views = rows_of(rows@);
    let mut count: usize = 0;
    let mut i: usize = 0;
    while i < rows.len()
        invariant
            i <= rows.len(),
            views == rows_of(rows@),
            forall|id: i64| call_requires(select, (id,)),
            forall|id: i64, b: bool| call_ensures(select, (id,), b) ==> b == selected(id),
            has_ids_for_jobs(old(jobs)@, views.take(i as int), selected, now),
            jobs@ == seeded(old(jobs)@, views.take(i as int), selected, now),
            count == seeded_count(old(jobs)@, views.take(i as int), selected, now),
            count <= i,
            old(jobs)@.wf() ==> jobs@.wf(),
        decreases rows.len() - i,
    {
        proof {
            assert(views.take(i + 1).drop_last() =~= views.take(i as int));
            assert(views.take(i + 1).last() == rows@[i as int]@);
        }
        let row: &DocumentEmbedding = &rows[i];
        if is_recoverable(row) && select(row.document_id) {
            let payload: String = embed_job_payload(row.document_id, row.model_id);
            match jobs.enqueue(JobType::EmbedDocument, payload.as_str(), now) {
                Ok(()) => {
                    count = count + 1;
                },
                Err(Refusal::Taken) => {},
                Err(Refusal::Full) => {
                    proof {
                        if has_ids_for_jobs(old(jobs)@, views, selected, now) {
                            lemma_ids_for_first_jobs(old(jobs)@, views, selected, now, i + 1);
                        }
                    }
                    return None;
                },
            }
        }
        i = i + 1;
    }
    proof {
        assert(views.take(i as int) =~= views);
    }
    Some(count)
}

/// Copies of rows.
fn copy_rows<T: View, F: Fn(&T) -> T>(rows: &Vec<T>, copy: F) -> (copies: Vec<T>)
    requires
        forall|row: &T| call_requires(copy, (row,)),
        forall|row: &T, c: T| call_ensures(copy, (row,), c) ==> c@ == row@,
    ensures
        rows_of(copies@) == rows_of(rows@),
{
    let mut copies: Vec<T> = Vec::new();
    let mut i: usize = 0;
    while i < rows.len()
        invariant
            i <= rows.len(),
            copies@.len() == i,
            forall|row: &T| call_requires(copy, (row,)),
            forall|row: &T, c: T| call_ensures(copy, (row,), c) ==> c@ == row@,
            forall|j: int| 0 <= j < i ==> (#[trigger] copies@[j])@ == rows@[j]@,
        decreases rows.len() - i,
    {
        copies.push(copy(&rows[i]));
        i = i + 1;
    }
    proof {
        assert(rows_of(copies@) =~= rows_of(rows@));
    }
    copies
}

fn copy_jobs(table: &JobTable) -> (copied: JobTable)
    ensures
        copied@ == table@,
{
    let copy = |row: &StoredJob| -> (c: StoredJob)
        ensures
            c@ == row@,
        {
            StoredJob {
                id: row.id,
                job_type: row.job_type.clone(),
                payload: row.payload.clone(),
                claimed_at: row.claimed_at,
                created_at: row.created_at,
            }
        };
    JobTable { rows: copy_rows(&table.rows, copy), last_id: table.last_id }
}

fn copy_embeddings(table: &EmbeddingTable) -> (copied: EmbeddingTable)
    ensures
        copied@ == table@,
{
    let copy = |row: &DocumentEmbedding| -> (c: DocumentEmbedding)
        ensures
            c@ == row@,
        { copy_embedding(row) };
    EmbeddingTable { rows: copy_rows(&table.rows, copy), last_id: table.last_id }
}

fn copy_documents(table: &DocumentTable) -> (copied: DocumentTable)
    ensures
        copied@ == table@,
{
    let copy = |row: &StoredDocument| -> (c: StoredDocument)
        ensures
            c@ == row@,
        { copy_document(row) };
    DocumentTable { rows: copy_rows(&table.rows, copy), last_id: table.last_id }
}

/// Queues a job for each document and model with an embedding to be made, unless one
/// is queued or in progress, and says how many were queued.
pub fn seed_embed_jobs(store: &mut Store, now: i64) -> (result: Result<usize, RepositoryError>)
    ensures
        match result {
            Ok(count) => {
                &&& old(store)@.room_for_jobs(every(), now)
                &&& final(store)@ == old(store)@.with_jobs(every(), now)
                &&& count == seeded_count(
                    old(store)@.jobs,
                    old(store)@.embeddings.rows,
                    every(),
                    now,
                )
            },
            Err(error) => {
                &&& error is Full
                &&& !old(store)@.room_for_jobs(every(), now)
                &&& final(store)@ == old(store)@
            },
        },
        old(store)@.wf() ==> final(store)@.wf(),
{
    let ghost selected = every();
    let all = |id: i64| -> (yes: bool)
        ensures
            yes == selected(id),
        { true };
    let mut jobs: JobTable = copy_jobs(&store.jobs);
    match seed_jobs(&mut jobs, &store.embeddings.rows, all, Ghost(selected), now) {
        Some(count) => {
            store.jobs = jobs;
            Ok(count)
        },
        None => Err(RepositoryError::Full),
    }
}

/// A stored document, read; its category must be a known one.
fn read_document(row: &StoredDocument) -> (result: Result<Document, RepositoryError>)
    ensures
        match result {
            Ok(doc) => doc@.row() == row@,
            Err(error) => {
                &&& forall|category: DocCategory| row.doc_category@ != #[trigger] category.name()
                &&& error matches RepositoryError::Invalid(invalid) && invalid.enumeration@
                    == "DocCategory"@ && invalid.name@ == row.doc_category@
            },
        },
{
    match DocCategory::decode(row.doc_category.as_str()) {
        Ok(doc_category) => Ok(
            Document {
                id: row.id,
                filepath: row.filepath.clone(),
                file_type: row.file_type.clone(),
                doc_category,
                file_modified_at: row.file_modified_at,
                file_size: row.file_size,
                updated_at: row.updated_at,
            },
        ),
        Err(error) => Err(RepositoryError::Invalid(error)),
    }
}

/// The index of the document at `path` that was updated last.
fn latest_document(table: &DocumentTable, path: &str) -> (index: Option<usize>)
    ensures
        match index {
            Some(i) => table@.latest(path@) == Some(i as int) && i < table.rows@.len(),
            None => table@.latest(path@) is None,
        },
{
    let mut best: Option<usize> = None;
    let mut i: usize = 0;
    while i < table.rows.len()
        invariant
            i <= table.rows.len(),
            match best {
                Some(k) => table@.latest_of(path@, i as int) == Some(k as int) && k < i,
                None => table@.latest_of(path@, i as int) is None,
            },
        decreases table.rows.len() - i,
    {
        if same_text(table.rows[i].filepath.as_str(), path) {
            match best {
                Some(k) => {
                    if table.rows[k].updated_at <= table.rows[i].updated_at {
                        best = Some(i);
                    }
                },
                None => {
                    best = Some(i);
                },
            }
        }
        i = i + 1;
    }
    best
}

/// The document at `filepath`; of several, the one that was updated last.
pub fn find_document_by_path(store: &Store, filepath: &str) -> (result: Result<
    Option<Document>,
    RepositoryError,
>)
    ensures
        match result {
            Ok(Some(doc)) => store@.documents.latest(filepath@) matches Some(i) && doc@.row()
                == store@.documents.rows[i],
            Ok(None) => store@.documents.latest(filepath@) is None,
            Err(error) => {
                &&& store@.unreadable(filepath@)
                &&& error matches RepositoryError::Invalid(invalid) && invalid.enumeration@
                    == "DocCategory"@ && invalid.name@ == store@.documents.rows[
                store@.documents.latest(filepath@).unwrap()].doc_category
            },
        },
{
    match latest_document(&store.documents, filepath) {
        Some(i) => match read_document(&store.documents.rows[i]) {
            Ok(doc) => Ok(Some(doc)),
            Err(error) => Err(error),
        },
        None => Ok(None),
    }
}

/// The property to have this id.
pub open spec fn document_id_test(id: i64) -> spec_fn(DocumentRow) -> bool {
    |row: DocumentRow| row.id == id
}

/// The document with this id.
pub fn find_document_by_id(store: &Store, id: i64) -> (result: Result<
    Option<Document>,
    RepositoryError,
>)
    ensures
        match result {
            Ok(Some(doc)) => first_where(store@.documents.rows, document_id_test(id)) matches Some(i)
                && doc@.row() == store@.documents.rows[i] && doc.id == id,
            Ok(None) => !store@.documents.has(id),
            Err(error) => first_where(store@.documents.rows, document_id_test(id)) matches Some(i)
                && {
                &&& forall|category: DocCategory|
                    store@.documents.rows[i].doc_category != #[trigger] category.name()
                &&& error matches RepositoryError::Invalid(invalid) && invalid.enumeration@
                    == "DocCategory"@ && invalid.name@ == store@.documents.rows[i].doc_category
            },
        },
{
    let ghost p = document_id_test(id);
    let has_id = |row: &StoredDocument| -> (same: bool)
        ensures
            same == p(row@),
        { row.id == id };
    match position(&store.documents.rows, has_id, Ghost(p)) {
        Some(i) => match read_document(&store.documents.rows[i]) {
            Ok(doc) => Ok(Some(doc)),
            Err(error) => Err(error),
        },
        None => {
            proof {
                if store@.documents.has(id) {
                    let i = choose|i: int|
                        0 <= i < store@.documents.rows.len() && (
                        #[trigger] store@.documents.rows[i]).id == id;
                    assert(!p(rows_of(store.documents.rows@)[i]));
                }
            }
            Ok(None)
        },
    }
}

fn document_exists(table: &DocumentTable, id: i64) -> (found: bool)
    ensures
        found == table@.has(id),
{
    let mut i: usize = 0;
    while i < table.rows.len()
        invariant
            i <= table.rows.len(),
            forall|j: int| 0 <= j < i ==> (#[trigger] table@.rows[j]).id != id,
        decreases table.rows.len() - i,
    {
        if table.rows[i].id == id {
            proof {
                assert(table@.rows[i as int].id == id);
            }
            return true;
        }
        i = i + 1;
    }
    false
}

fn model_exists(store: &Store, id: i64) -> (found: bool)
    ensures
        found == store@.models.has(id),
{
    let ghost p = model_id_test(id);
    let has_id = |row: &EmbeddingModel| -> (same: bool)
        ensures
            same == p(row@),
        { row.id == id };
    position(&store.models.rows, has_id, Ghost(p)).is_some()
}

fn contains_id(ids: &[i64], id: i64) -> (found: bool)
    ensures
        found == ids@.contains(id),
{
    let mut i: usize = 0;
    while i < ids.len()
        invariant
            i <= ids.len(),
            forall|j: int| 0 <= j < i ==> ids@[j] != id,
        decreases ids.len() - i,
    {
        if ids[i] == id {
            return true;
        }
        i = i + 1;
    }
    false
}

/// Makes the embeddings with vectors of the selected documents stale.
fn mark_stale<F: Fn(i64) -> bool>(
    table: &mut EmbeddingTable,
    select: F,
    Ghost(selected): Ghost<spec_fn(i64) -> bool>,
)
    requires
        forall|id: i64| call_requires(select, (id,)),
        forall|id: i64, b: bool| call_ensures(select, (id,), b) ==> b == selected(id),
    ensures
        final(table)@ == old(table)@.marked_stale(selected),
        final(table).rows@.len() == old(table).rows@.len(),
{
    let ghost before = old(table)@.rows;
    let ghost after = old(table)@.marked_stale(selected).rows;
    let mut i: usize = 0;
    while i < table.rows.len()
        invariant
            i <= table.rows.len(),
            before == old(table)@.rows,
            after == old(table)@.marked_stale(selected).rows,
            table.last_id == old(table).last_id,
            table@.rows.len() == before.len(),
            forall|id: i64| call_requires(select, (id,)),
            forall|id: i64, b: bool| call_ensures(select, (id,), b) ==> b == selected(id),
            forall|j: int| 0 <= j < i ==> #[trigger] table@.rows[j] == after[j],
            forall|j: int| i <= j < before.len() ==> #[trigger] table@.rows[j] == before[j],
        decreases table.rows.len() - i,
    {
        let ghost rows = table@.rows;
        proof {
            assert(rows[i as int] == before[i as int]);
        }
        if let EmbedState::Embedded = table.rows[i].state {
            if select(table.rows[i].document_id) {
                table.rows[i].state = EmbedState::Stale;
            }
        }
        proof {
            assert(table@.rows =~= rows.update(i as int, after[i as int]));
        }
        i = i + 1;
    }
    proof {
        assert(table@.rows =~= after);
    }
}

/// Makes the embeddings of documents stale, for every model, and queues jobs to make
/// them again.
///
/// Only embeddings with vectors are affected. Ids of no document are passed over.
pub fn mark_documents_stale(store: &mut Store, doc_ids: &[i64], now: i64) -> (result: Result<
    (),
    RepositoryError,
>)
    ensures
        match result {
            Ok(()) => {
                let selected = known(old(store)@.documents, doc_ids@);
                let stale = old(store)@.with_stale(selected);
                &&& stale.room_for_jobs(selected, now)
                &&& final(store)@ == stale.with_jobs(selected, now)
            },
            Err(error) => {
                let selected = known(old(store)@.documents, doc_ids@);
                &&& error is Full
                &&& !old(store)@.with_stale(selected).room_for_jobs(selected, now)
                &&& final(store)@ == old(store)@
            },
        },
        old(store)@.wf() ==> final(store)@.wf(),
{
    let ghost selected = known(store@.documents, doc_ids@);
    proof {
        if store@.wf() {
            lemma_with_stale_wf(store@, store@, selected);
        }
    }
    let documents: &DocumentTable = &store.documents;
    let select = |id: i64| -> (yes: bool)
        ensures
            yes == selected(id),
        { contains_id(doc_ids, id) && document_exists(documents, id) };
    let mut embeddings: EmbeddingTable = copy_embeddings(&store.embeddings);
    let mut jobs: JobTable = copy_jobs(&store.jobs);
    mark_stale(&mut embeddings, &select, Ghost(selected));
    match seed_jobs(&mut jobs, &embeddings.rows, &select, Ghost(selected), now) {
        Some(_) => {
            store.embeddings = embeddings;
            store.jobs = jobs;
            Ok(())
        },
        None => Err(RepositoryError::Full),
    }
}

/// What is known of a document before it is written.
enum Standing {
    /// It is kept at this index, and its file has not changed.
    Unchanged(usize),
    /// It is kept at this index, and its file has changed.
    Changed(usize),
    /// It is not kept yet.
    New,
}

/// How a document stands to what is kept at its path.
fn standing(store: &Store, doc: &Document) -> (result: Result<Standing, RepositoryError>)
    ensures
        match result {
            Ok(Standing::Unchanged(i)) => {
                &&& store@.documents.latest(doc.filepath@) == Some(i as int)
                &&& i < store.documents.rows@.len()
                &&& !store@.changes(doc@)
                &&& !store@.unreadable(doc.filepath@)
            },
            Ok(Standing::Changed(i)) => {
                &&& store@.documents.latest(doc.filepath@) == Some(i as int)
                &&& i < store.documents.rows@.len()
                &&& store@.changes(doc@)
                &&& !store@.unreadable(doc.filepath@)
            },
            Ok(Standing::New) => {
                &&& store@.documents.latest(doc.filepath@) is None
                &&& store@.changes(doc@)
                &&& !store@.unreadable(doc.filepath@)
            },
            Err(error) => {
                &&& store@.unreadable(doc.filepath@)
                &&& error matches RepositoryError::Invalid(invalid) && invalid.enumeration@
                    == "DocCategory"@ && invalid.name@ == store@.documents.rows[
                store@.documents.latest(doc.filepath@).unwrap()].doc_category
            },
        },
{
    match latest_document(&store.documents, doc.filepath.as_str()) {
        Some(i) => {
            let row: &StoredDocument = &store.documents.rows[i];
            match DocCategory::decode(row.doc_category.as_str()) {
                Ok(_) => {},
                Err(error) => {
                    return Err(RepositoryError::Invalid(error));
                },
            }
            if same_text(row.file_type.as_str(), doc.file_type.as_str()) && same_text(
                row.doc_category.as_str(),
                doc.doc_category.as_str(),
            ) && row.file_modified_at == doc.file_modified_at && row.file_size == doc.file_size {
                Ok(Standing::Unchanged(i))
            } else {
                Ok(Standing::Changed(i))
            }
        },
        None => Ok(Standing::New),
    }
}

/// Brings the document at `i` up to date, and makes its embeddings stale.
fn update_document(store: &mut Store, i: usize, doc: &Document) -> (id: i64)
    requires
        old(store)@.documents.latest(doc.filepath@) == Some(i as int),
        i < old(store).documents.rows@.len(),
    ensures
        final(store)@ == old(store)@.with_document(doc@),
        id == old(store)@.id_for(doc@),
        old(store)@.wf() ==> final(store)@.wf() && final(store)@.documents.has(id),
{
    proof {
        if store@.wf() {
            lemma_with_document_wf(store@, doc@);
        }
    }
    let id: i64 = store.documents.rows[i].id;
    store.documents.rows[i].file_type = doc.file_type.clone();
    store.documents.rows[i].doc_category = doc.doc_category.as_str().to_owned();
    store.documents.rows[i].file_modified_at = doc.file_modified_at;
    store.documents.rows[i].file_size = doc.file_size;
    store.documents.rows[i].updated_at = doc.updated_at;
    proof {
        assert(store@.documents.rows =~= old(store)@.documents.updated(i as int, doc@).rows);
    }
    let ghost selected = only(id);
    let select = |other: i64| -> (yes: bool)
        ensures
            yes == selected(other),
        { other == id };
    mark_stale(&mut store.embeddings, &select, Ghost(selected));
    id
}

/// Adds a document.
fn insert_document(store: &mut Store, doc: &Document) -> (id: i64)
    requires
        old(store)@.documents.latest(doc.filepath@) is None,
        old(store).documents.last_id < i64::MAX,
    ensures
        final(store)@ == old(store)@.with_document(doc@),
        id == old(store)@.id_for(doc@),
        old(store)@.wf() ==> final(store)@.wf() && final(store)@.documents.has(id),
{
    proof {
        if store@.wf() {
            lemma_with_document_wf(store@, doc@);
        }
    }
    let id: i64 = store.documents.last_id + 1;
    store.documents.last_id = id;
    store.documents.rows.push(
        StoredDocument {
            id,
            filepath: doc.filepath.clone(),
            file_type: doc.file_type.clone(),
            doc_category: doc.doc_category.as_str().to_owned(),
            file_modified_at: doc.file_modified_at,
            file_size: doc.file_size,
            updated_at: doc.updated_at,
        },
    );
    proof {
        assert(store@.documents.rows =~= old(store)@.documents.inserted(doc@).rows);
    }
    id
}

/// Adds a document, or brings the one that is kept at its path up to date.
///
/// Gives the document's id, and whether it was new or its file had changed. Where the
/// file had changed, the document's embeddings become stale.
pub fn upsert_document(store: &mut Store, doc: &Document) -> (result: Result<
    (i64, bool),
    RepositoryError,
>)
    ensures
        match result {
            Ok((id, changed)) => {
                &&& !old(store)@.unreadable(doc.filepath@)
                &&& id == old(store)@.id_for(doc@)
                &&& changed == old(store)@.changes(doc@)
                &&& changed ==> !old(store)@.documents_full_for(doc@)
                &&& final(store)@ == if changed {
                    old(store)@.with_document(doc@)
                } else {
                    old(store)@
                }
            },
            Err(RepositoryError::Invalid(invalid)) => {
                &&& old(store)@.unreadable(doc.filepath@)
                &&& invalid.enumeration@ == "DocCategory"@
                &&& invalid.name@ == old(store)@.documents.rows[old(store)@.documents.latest(
                    doc.filepath@,
                ).unwrap()].doc_category
                &&& final(store)@ == old(store)@
            },
            Err(error) => {
                &&& error is Full
                &&& !old(store)@.unreadable(doc.filepath@)
                &&& old(store)@.changes(doc@)
                &&& old(store)@.documents_full_for(doc@)
                &&& final(store)@ == old(store)@
            },
        },
        old(store)@.wf() ==> final(store)@.wf(),
{
    match standing(store, doc) {
        Ok(Standing::Unchanged(i)) => Ok((store.documents.rows[i].id, false)),
        Ok(Standing::Changed(i)) => Ok((update_document(store, i, doc), true)),
        Ok(Standing::New) => {
            if store.documents.last_id == i64::MAX {
                return Err(RepositoryError::Full);
            }
            Ok((insert_document(store, doc), true))
        },
        Err(error) => Err(error),
    }
}

pub open spec fn bytes_view(bytes: Option<Vec<u8>>) -> Option<Seq<u8>> {
    match bytes {
        Some(bytes) => Some(bytes@),
        None => None,
    }
}

/// The view of a chunk with its vector.
spec fn chunk_write(chunk: (ChunkType, i64, i64), embedding: Option<Vec<u8>>) -> ChunkWrite {
    ChunkWrite {
        chunk_type: chunk.0,
        chunk_start: chunk.1,
        chunk_end: chunk.2,
        embedding: bytes_view(embedding),
    }
}

/// Stores one chunk: in its row, or in a new one. Says whether there was an id for it.
fn put_chunk(
    table: &mut EmbeddingTable,
    document_id: i64,
    model_id: i64,
    chunk: (ChunkType, i64, i64),
    embedding: Option<Vec<u8>>,
    now: i64,
) -> (stored: bool)
    ensures
        stored == !old(table)@.full_for(document_id, model_id, chunk_write(chunk, embedding)),
        stored ==> final(table)@ == old(table)@.put(
            document_id,
            model_id,
            chunk_write(chunk, embedding),
            now,
        ),
        !stored ==> final(table)@ == old(table)@,
{
    let (chunk_type, chunk_start, chunk_end) = chunk;
    let ghost write = ChunkWrite {
        chunk_type,
        chunk_start,
        chunk_end,
        embedding: bytes_view(embedding),
    };
    let ghost expected = old(table)@.put(document_id, model_id, write, now);
    let state: EmbedState = if embedding.is_some() {
        EmbedState::Embedded
    } else {
        EmbedState::Pending
    };
    let ghost p = chunk_test(document_id, model_id, chunk_type, chunk_start);
    let same_chunk = |row: &DocumentEmbedding| -> (same: bool)
        ensures
            same == p(row@),
        {
            row.document_id == document_id && row.model_id == model_id && row.chunk_type
                == chunk_type && row.chunk_start == chunk_start
        };
    match position(&table.rows, same_chunk, Ghost(p)) {
        Some(i) => {
            table.rows[i].chunk_end = chunk_end;
            table.rows[i].state = state;
            table.rows[i].embedding = embedding;
            table.rows[i].created_at = now;
            proof {
                assert(table@.rows =~= expected.rows);
            }
        },
        None => {
            if table.last_id == i64::MAX {
                return false;
            }
            let id: i64 = table.last_id + 1;
            table.last_id = id;
            table.rows.push(
                DocumentEmbedding {
                    id,
                    document_id,
                    model_id,
                    chunk_type,
                    chunk_start,
                    chunk_end,
                    state,
                    embedding,
                    created_at: now,
                },
            );
            proof {
                assert(table@.rows =~= expected.rows);
            }
        },
    }
    true
}

/// Stores chunks that wait for their vectors. Where no id is left, some of them may have
/// been stored.
fn put_pending(
    table: &mut EmbeddingTable,
    document_id: i64,
    model_id: i64,
    chunks: &[(ChunkType, i64, i64)],
    now: i64,
) -> (stored: bool)
    ensures
        stored == old(table)@.has_ids_for(document_id, model_id, pending_writes(chunks@), now),
        stored ==> final(table)@ == old(table)@.written(
            document_id,
            model_id,
            pending_writes(chunks@),
            now,
        ),
{
    let ghost writes = pending_writes(chunks@);
    let mut i: usize = 0;
    while i < chunks.len()
        invariant
            i <= chunks.len(),
            writes == pending_writes(chunks@),
            old(table)@.has_ids_for(document_id, model_id, writes.take(i as int), now),
            table@ == old(table)@.written(document_id, model_id, writes.take(i as int), now),
        decreases chunks.len() - i,
    {
        proof {
            assert(writes.take(i + 1).drop_last() =~= writes.take(i as int));
            assert(writes.take(i + 1).last() == writes[i as int]);
            assert(writes[i as int] == chunk_write(chunks@[i as int], None));
        }
        if !put_chunk(table, document_id, model_id, chunks[i], None, now) {
            proof {
                if old(table)@.has_ids_for(document_id, model_id, writes, now) {
                    lemma_ids_for_first_chunks(
                        old(table)@,
                        document_id,
                        model_id,
                        writes,
                        now,
                        i + 1,
                    );
                }
            }
            return false;
        }
        i = i + 1;
    }
    proof {
        assert(writes.take(i as int) =~= writes);
    }
    true
}

/// Queues chunks of a document for embedding with a model. A chunk that has an
/// embedding loses it.
pub fn insert_pending_embeddings(
    store: &mut Store,
    doc_id: i64,
    model_id: i64,
    chunks: &[(ChunkType, i64, i64)],
    now: i64,
) -> (result: Result<(), RepositoryError>)
    ensures
        match result {
            Ok(()) => {
                &&& old(store)@.may_hold(doc_id, model_id, chunks@.len())
                &&& old(store)@.room_for_chunks(doc_id, model_id, pending_writes(chunks@), now)
                &&& final(store)@ == old(store)@.with_chunks(
                    doc_id,
                    model_id,
                    pending_writes(chunks@),
                    now,
                )
            },
            Err(error) => {
                &&& error is ForeignKey && !old(store)@.may_hold(doc_id, model_id, chunks@.len())
                    || error is Full && old(store)@.may_hold(doc_id, model_id, chunks@.len())
                    && !old(store)@.room_for_chunks(
                    doc_id,
                    model_id,
                    pending_writes(chunks@),
                    now,
                )
                &&& final(store)@ == old(store)@
            },
        },
        old(store)@.wf() ==> final(store)@.wf(),
{
    if chunks.len() > 0 && !(document_exists(&store.documents, doc_id) && model_exists(
        store,
        model_id,
    )) {
        return Err(RepositoryError::ForeignKey);
    }
    proof {
        if store@.wf() && store@.room_for_chunks(doc_id, model_id, pending_writes(chunks@), now) {
            lemma_with_chunks_wf(store@, doc_id, model_id, pending_writes(chunks@), now);
        }
    }
    let mut embeddings: EmbeddingTable = copy_embeddings(&store.embeddings);
    if !put_pending(&mut embeddings, doc_id, model_id, chunks, now) {
        return Err(RepositoryError::Full);
    }
    store.embeddings = embeddings;
    Ok(())
}

/// Removes the embeddings of a document and model that wait for their vectors.
pub fn delete_pending_embeddings_for_model(store: &mut Store, doc_id: i64, model_id: i64)
    ensures
        final(store)@ == old(store)@.without_pending(doc_id, model_id),
        old(store)@.wf() ==> final(store)@.wf(),
        final(store).embeddings.rows@.len() <= old(store).embeddings.rows@.len(),
{
    let ghost p = pending_test(doc_id, model_id);
    proof {
        if store@.wf() {
            lemma_without_wf(store@, p);
        }
        lemma_without_len(store@.embeddings.rows, p);
    }
    let is_pending = |row: &DocumentEmbedding| -> (pending: bool)
        ensures
            pending == p(row@),
        {
            row.document_id == doc_id && row.model_id == model_id && row.state
                == EmbedState::Pending
        };
    remove_where(&mut store.embeddings.rows, is_pending, Ghost(p));
}

impl Tables {
    /// The tables after a document was brought up to date and its chunks were queued
    /// again.
    pub open spec fn replanned(
        self,
        doc: DocumentView,
        model_id: i64,
        chunks: Seq<(ChunkType, i64, i64)>,
        now: i64,
    ) -> Tables {
        let id = self.id_for(doc);
        self.with_document(doc).without_pending(id, model_id).with_chunks(
            id,
            model_id,
            pending_writes(chunks),
            now,
        ).with_jobs(every(), now)
    }

    /// Whether there is an id for each chunk that has no row yet once a document was
    /// brought up to date, and then for each job that is due.
    pub open spec fn room_to_replan(
        self,
        doc: DocumentView,
        model_id: i64,
        chunks: Seq<(ChunkType, i64, i64)>,
        now: i64,
    ) -> bool {
        let id = self.id_for(doc);
        let cleared = self.with_document(doc).without_pending(id, model_id);
        let writes = pending_writes(chunks);
        &&& cleared.room_for_chunks(id, model_id, writes, now)
        &&& cleared.with_chunks(id, model_id, writes, now).room_for_jobs(every(), now)
    }

    /// Whether a changed document can be replanned: there is a model to hold its
    /// chunks.
    pub open spec fn has_model_for(self, model_id: i64, chunks: nat) -> bool {
        chunks == 0 || self.models.has(model_id)
    }
}

/// Brings a document up to date and queues its chunks again.
fn replan_document(
    store: &mut Store,
    existing: Option<usize>,
    doc: &Document,
    model_id: i64,
    chunks: &[(ChunkType, i64, i64)],
    now: i64,
) -> (result: Result<i64, RepositoryError>)
    requires
        match existing {
            Some(i) => old(store)@.documents.latest(doc.filepath@) == Some(i as int) && i < old(
                store,
            ).documents.rows@.len(),
            None => old(store)@.documents.latest(doc.filepath@) is None,
        },
    ensures
        match result {
            Ok(id) => {
                &&& old(store)@.has_model_for(model_id, chunks@.len())
                &&& !old(store)@.documents_full_for(doc@)
                &&& old(store)@.room_to_replan(doc@, model_id, chunks@, now)
                &&& id == old(store)@.id_for(doc@)
                &&& final(store)@ == old(store)@.replanned(doc@, model_id, chunks@, now)
            },
            Err(error) => {
                &&& error is ForeignKey && !old(store)@.has_model_for(model_id, chunks@.len())
                    || error is Full && old(store)@.has_model_for(model_id, chunks@.len()) && (old(
                    store,
                )@.documents_full_for(doc@) || !old(store)@.room_to_replan(doc@, model_id, chunks@, now))
                &&& final(store)@ == old(store)@
            },
        },
        old(store)@.wf() ==> final(store)@.wf(),
{
    if chunks.len() > 0 && !model_exists(store, model_id) {
        return Err(RepositoryError::ForeignKey);
    }
    let documents: DocumentTable = copy_documents(&store.documents);
    let embeddings: EmbeddingTable = copy_embeddings(&store.embeddings);
    let id: i64;
    match existing {
        Some(i) => {
            id = update_document(store, i, doc);
        },
        None => {
            if store.documents.last_id == i64::MAX {
                return Err(RepositoryError::Full);
            }
            id = insert_document(store, doc);
        },
    }
    delete_pending_embeddings_for_model(store, id, model_id);
    let ghost cleared = store@;
    let ghost writes = pending_writes(chunks@);
    proof {
        if old(store)@.wf() && cleared.room_for_chunks(id, model_id, writes, now) {
            lemma_with_chunks_wf(cleared, id, model_id, writes, now);
        }
    }
    let mut stored: bool = put_pending(&mut store.embeddings, id, model_id, chunks, now);
    if stored {
        let mut jobs: JobTable = copy_jobs(&store.jobs);
        let ghost selected = every();
        let all = |id: i64| -> (yes: bool)
            ensures
                yes == selected(id),
            { true };
        match seed_jobs(&mut jobs, &store.embeddings.rows, all, Ghost(selected), now) {
            Some(_) => {
                store.jobs = jobs;
            },
            None => {
                stored = false;
            },
        }
    }
    if !stored {
        store.documents = documents;
        store.embeddings = embeddings;
        return Err(RepositoryError::Full);
    }
    Ok(id)
}

/// Adds or updates a document and, where it was new or its file had changed, replaces
/// its chunks that wait for embedding with a model by new ones and queues jobs for all
/// embeddings that have to be made.
///
/// Gives the document's id, and whether it was new or its file had changed.
pub fn upsert_document_and_replace_pending_embeddings(
    store: &mut Store,
    doc: &Document,
    model_id: i64,
    chunks: &[(ChunkType, i64, i64)],
    now: i64,
) -> (result: Result<(i64, bool), RepositoryError>)
    ensures
        match result {
            Ok((id, changed)) => {
                &&& !old(store)@.unreadable(doc.filepath@)
                &&& id == old(store)@.id_for(doc@)
                &&& changed == old(store)@.changes(doc@)
                &&& changed ==> old(store)@.has_model_for(model_id, chunks@.len()) && !old(
                    store,
                )@.documents_full_for(doc@) && old(store)@.room_to_replan(doc@, model_id, chunks@, now)
                &&& final(store)@ == if changed {
                    old(store)@.replanned(doc@, model_id, chunks@, now)
                } else {
                    old(store)@
                }
            },
            Err(RepositoryError::Invalid(invalid)) => {
                &&& old(store)@.unreadable(doc.filepath@)
                &&& invalid.enumeration@ == "DocCategory"@
                &&& invalid.name@ == old(store)@.documents.rows[old(store)@.documents.latest(
                    doc.filepath@,
                ).unwrap()].doc_category
                &&& final(store)@ == old(store)@
            },
            Err(error) => {
                &&& !old(store)@.unreadable(doc.filepath@)
                &&& old(store)@.changes(doc@)
                &&& error is ForeignKey && !old(store)@.has_model_for(model_id, chunks@.len())
                    || error is Full && old(store)@.has_model_for(model_id, chunks@.len()) && (old(
                    store,
                )@.documents_full_for(doc@) || !old(store)@.room_to_replan(doc@, model_id, chunks@, now))
                &&& final(store)@ == old(store)@
            },
        },
        old(store)@.wf() ==> final(store)@.wf(),
{
    let existing: Option<usize> = match standing(store, doc) {
        Ok(Standing::Unchanged(i)) => {
            return Ok((store.documents.rows[i].id, false));
        },
        Ok(Standing::Changed(i)) => Some(i),
        Ok(Standing::New) => None,
        Err(error) => {
            return Err(error);
        },
    };
    match replan_document(store, existing, doc, model_id, chunks, now) {
        Ok(id) => Ok((id, true)),
        Err(error) => Err(error),
    }
}

/// Why a document was not written by an operation with a step of the caller's in it.
#[derive(Clone, Debug)]
pub enum HookError<E> {
    /// The store refused it.
    Repository(RepositoryError),
    /// The caller's step failed.
    Hook(E),
}

/// As [`upsert_document_and_replace_pending_embeddings`], with a step of the caller's
/// before anything is written for a document that is new or has changed. Where that
/// step fails, nothing is written.
pub fn upsert_document_and_replace_pending_embeddings_with_hook<E, F: FnOnce() -> Result<(), E>>(
    store: &mut Store,
    doc: &Document,
    model_id: i64,
    chunks: &[(ChunkType, i64, i64)],
    now: i64,
    before_queue: F,
) -> (result: Result<(i64, bool), HookError<E>>)
    requires
        call_requires(before_queue, ()),
    ensures
        match result {
            Ok((id, changed)) => {
                &&& !old(store)@.unreadable(doc.filepath@)
                &&& id == old(store)@.id_for(doc@)
                &&& changed == old(store)@.changes(doc@)
                &&& changed ==> call_ensures(before_queue, (), Ok(()))
                &&& changed ==> old(store)@.has_model_for(model_id, chunks@.len()) && !old(
                    store,
                )@.documents_full_for(doc@) && old(store)@.room_to_replan(doc@, model_id, chunks@, now)
                &&& final(store)@ == if changed {
                    old(store)@.replanned(doc@, model_id, chunks@, now)
                } else {
                    old(store)@
                }
            },
            Err(HookError::Hook(error)) => {
                &&& old(store)@.changes(doc@)
                &&& !old(store)@.unreadable(doc.filepath@)
                &&& call_ensures(before_queue, (), Err(error))
                &&& final(store)@ == old(store)@
            },
            Err(HookError::Repository(RepositoryError::Invalid(invalid))) => {
                &&& old(store)@.unreadable(doc.filepath@)
                &&& invalid.enumeration@ == "DocCategory"@
                &&& invalid.name@ == old(store)@.documents.rows[old(store)@.documents.latest(
                    doc.filepath@,
                ).unwrap()].doc_category
                &&& final(store)@ == old(store)@
            },
            Err(HookError::Repository(error)) => {
                &&& !old(store)@.unreadable(doc.filepath@)
                &&& old(store)@.changes(doc@)
                &&& call_ensures(before_queue, (), Ok(()))
                &&& error is ForeignKey && !old(store)@.has_model_for(model_id, chunks@.len())
                    || error is Full && old(store)@.has_model_for(model_id, chunks@.len()) && (old(
                    store,
                )@.documents_full_for(doc@) || !old(store)@.room_to_replan(doc@, model_id, chunks@, now))
                &&& final(store)@ == old(store)@
            },
        },
        old(store)@.wf() ==> final(store)@.wf(),
{
    let existing: Option<usize> = match standing(store, doc) {
        Ok(Standing::Unchanged(i)) => {
            return Ok((store.documents.rows[i].id, false));
        },
        Ok(Standing::Changed(i)) => Some(i),
        Ok(Standing::New) => None,
        Err(error) => {
            return Err(HookError::Repository(error));
        },
    };
    let outcome = before_queue();
    match outcome {
        Ok(done) => {
            proof {
                assert(done == ());
                assert(outcome == Ok::<(), E>(()));
            }
        },
        Err(error) => {
            return Err(HookError::Hook(error));
        },
    }
    match replan_document(store, existing, doc, model_id, chunks, now) {
        Ok(id) => Ok((id, true)),
        Err(error) => Err(HookError::Repository(error)),
    }
}

/// The chunks, each with its vector.
pub open spec fn embedded_writes(chunks: Seq<EmbeddedChunk>) -> Seq<ChunkWrite> {
    chunks.map_values(
        |chunk: EmbeddedChunk|
            ChunkWrite {
                chunk_type: chunk.chunk_type,
                chunk_start: chunk.chunk_start,
                chunk_end: chunk.chunk_end,
                embedding: Some(chunk.embedding@),
            },
    )
}

/// Replaces all embeddings of a document for a model by new ones.
pub fn replace_embeddings_for_document_model(
    store: &mut Store,
    doc_id: i64,
    model_id: i64,
    chunks: &[EmbeddedChunk],
    now: i64,
) -> (result: Result<(), RepositoryError>)
    ensures
        match result {
            Ok(()) => {
                &&& old(store)@.may_hold(doc_id, model_id, chunks@.len())
                &&& old(store)@.without_pair(doc_id, model_id).room_for_chunks(
                    doc_id,
                    model_id,
                    embedded_writes(chunks@),
                    now,
                )
                &&& final(store)@ == old(store)@.without_pair(doc_id, model_id).with_chunks(
                    doc_id,
                    model_id,
                    embedded_writes(chunks@),
                    now,
                )
            },
            Err(error) => {
                &&& error is ForeignKey && !old(store)@.may_hold(doc_id, model_id, chunks@.len())
                    || error is Full && old(store)@.may_hold(doc_id, model_id, chunks@.len())
                    && !old(store)@.without_pair(doc_id, model_id).room_for_chunks(
                    doc_id,
                    model_id,
                    embedded_writes(chunks@),
                    now,
                )
                &&& final(store)@ == old(store)@
            },
        },
        old(store)@.wf() ==> final(store)@.wf(),
{
    if chunks.len() > 0 && !(document_exists(&store.documents, doc_id) && model_exists(
        store,
        model_id,
    )) {
        return Err(RepositoryError::ForeignKey);
    }
    let ghost p = pair_test(doc_id, model_id);
    let ghost writes = embedded_writes(chunks@);
    let ghost cleared = store@.without_pair(doc_id, model_id);
    proof {
        if store@.wf() && cleared.room_for_chunks(doc_id, model_id, writes, now) {
            lemma_without_wf(store@, p);
            lemma_with_chunks_wf(cleared, doc_id, model_id, writes, now);
        }
    }
    let of_pair = |row: &DocumentEmbedding| -> (same: bool)
        ensures
            same == p(row@),
        { row.document_id == doc_id && row.model_id == model_id };
    let mut table: EmbeddingTable = copy_embeddings(&store.embeddings);
    remove_where(&mut table.rows, of_pair, Ghost(p));
    let mut i: usize = 0;
    while i < chunks.len()
        invariant
            i <= chunks.len(),
            writes == embedded_writes(chunks@),
            store@ == old(store)@,
            cleared == old(store)@.without_pair(doc_id, model_id),
            old(store)@.may_hold(doc_id, model_id, chunks@.len()),
            cleared.embeddings.has_ids_for(doc_id, model_id, writes.take(i as int), now),
            table@ == cleared.embeddings.written(doc_id, model_id, writes.take(i as int), now),
        decreases chunks.len() - i,
    {
        let chunk: &EmbeddedChunk = &chunks[i];
        let bytes: Vec<u8> = vstd::slice::slice_to_vec(chunk.embedding.as_slice());
        let parts: (ChunkType, i64, i64) = (chunk.chunk_type, chunk.chunk_start, chunk.chunk_end);
        proof {
            assert(writes.take(i + 1).drop_last() =~= writes.take(i as int));
            assert(writes.take(i + 1).last() == writes[i as int]);
            assert(writes[i as int] == chunk_write(parts, Some(bytes)));
        }
        if !put_chunk(&mut table, doc_id, model_id, parts, Some(bytes), now) {
            proof {
                if cleared.embeddings.has_ids_for(doc_id, model_id, writes, now) {
                    lemma_ids_for_first_chunks(
                        cleared.embeddings,
                        doc_id,
                        model_id,
                        writes,
                        now,
                        i + 1,
                    );
                }
            }
            return Err(RepositoryError::Full);
        }
        i = i + 1;
    }
    proof {
        assert(writes.take(i as int) =~= writes);
    }
    store.embeddings = table;
    Ok(())
}

/// The property to belong to this document.
pub open spec fn document_test(document_id: i64) -> spec_fn(EmbeddingRow) -> bool {
    |row: EmbeddingRow| row.document_id == document_id
}

/// The property to belong to this document.
pub open spec fn fingerprint_test(document_id: i64) -> spec_fn(FingerprintRow) -> bool {
    |row: FingerprintRow| row.document_id == document_id
}

impl Tables {
    /// The tables without a document and all that belongs to it.
    pub open spec fn without_document(self, id: i64) -> Tables {
        Tables {
            documents: Documents {
                rows: without(self.documents.rows, document_id_test(id)),
                ..self.documents
            },
            embeddings: Embeddings {
                rows: without(self.embeddings.rows, document_test(id)),
                ..self.embeddings
            },
            fingerprints: without(self.fingerprints, fingerprint_test(id)),
            ..self
        }
    }
}

/// To remove a document with its embeddings keeps the tables well formed.
pub proof fn lemma_without_document_wf(tables: Tables, id: i64)
    requires
        tables.wf(),
    ensures
        tables.without_document(id).wf(),
        !tables.without_document(id).documents.has(id),
{
    let after = tables.without_document(id);
    let before = tables.documents.rows;
    let rows = after.documents.rows;
    let p = document_id_test(id);
    let q = document_test(id);
    assert forall|i: int| 0 <= i < rows.len() implies 0 < (#[trigger] rows[i]).id
        <= tables.documents.last_id && rows[i].id != id by {
        let o = lemma_without_origin(before, p, i);
        assert(before[o].id > 0);
    }
    assert forall|i: int, j: int| 0 <= i < j < rows.len() implies (#[trigger] rows[i]).id < (
    #[trigger] rows[j]).id by {
        let o = lemma_without_order(before, p, i, j);
        assert(before[o.0].id < before[o.1].id);
    }
    lemma_without_wf(tables, q);
    assert forall|k: int| 0 <= k < after.embeddings.rows.len() implies after.documents.has(
        (#[trigger] after.embeddings.rows[k]).document_id,
    ) && after.models.has(after.embeddings.rows[k].model_id) by {
        let o = lemma_without_origin(tables.embeddings.rows, q, k);
        let owner = tables.embeddings.rows[o].document_id;
        assert(tables.documents.has(owner));
        let d = choose|d: int| 0 <= d < before.len() && (#[trigger] before[d]).id == owner;
        let e = lemma_without_keeps(before, p, d);
        assert(rows[e].id == owner);
    }
}

/// Removes a document and all that belongs to it.
pub fn delete_document(store: &mut Store, id: i64)
    ensures
        final(store)@ == old(store)@.without_document(id),
        old(store)@.wf() ==> final(store)@.wf(),
{
    proof {
        if store@.wf() {
            lemma_without_document_wf(store@, id);
        }
    }
    let ghost p = document_id_test(id);
    let ghost q = document_test(id);
    let ghost r = fingerprint_test(id);
    let is_document = |row: &StoredDocument| -> (same: bool)
        ensures
            same == p(row@),
        { row.id == id };
    let of_document = |row: &DocumentEmbedding| -> (same: bool)
        ensures
            same == q(row@),
        { row.document_id == id };
    let of_file = |row: &Fingerprint| -> (same: bool)
        ensures
            same == r(row@),
        { row.document_id == id };
    remove_where(&mut store.documents.rows, is_document, Ghost(p));
    remove_where(&mut store.embeddings.rows, of_document, Ghost(q));
    remove_where(&mut store.fingerprints, of_file, Ghost(r));
}

fn copy_model(row: &EmbeddingModel) -> (copy: EmbeddingModel)
    ensures
        copy@ == row@,
{
    EmbeddingModel {
        id: row.id,
        name: row.name.clone(),
        dimensions: row.dimensions,
        chunk_size: row.chunk_size,
        chunk_overlap: row.chunk_overlap,
        created_at: row.created_at,
    }
}

/// The model with this id.
pub fn find_model_by_id(store: &Store, id: i64) -> (model: Option<EmbeddingModel>)
    ensures
        match model {
            Some(model) => first_where(store@.models.rows, model_id_test(id)) matches Some(i)
                && model@ == store@.models.rows[i] && model.id == id,
            None => !store@.models.has(id),
        },
{
    let ghost p = model_id_test(id);
    let has_id = |row: &EmbeddingModel| -> (same: bool)
        ensures
            same == p(row@),
        { row.id == id };
    match position(&store.models.rows, has_id, Ghost(p)) {
        Some(i) => Some(copy_model(&store.models.rows[i])),
        None => None,
    }
}

/// The first model with this name.
pub fn find_model_by_name(store: &Store, name: &str) -> (model: Option<EmbeddingModel>)
    ensures
        match model {
            Some(model) => first_where(store@.models.rows, model_name_test(name@)) matches Some(i)
                && model@ == store@.models.rows[i] && model.name@ == name@,
            None => first_where(store@.models.rows, model_name_test(name@)) is None,
        },
{
    let ghost p = model_name_test(name@);
    let has_name = |row: &EmbeddingModel| -> (same: bool)
        ensures
            same == p(row@),
        { same_text(row.name.as_str(), name) };
    match position(&store.models.rows, has_name, Ghost(p)) {
        Some(i) => Some(copy_model(&store.models.rows[i])),
        None => None,
    }
}

/// The index of the model with this identity.
fn identity_position(
    store: &Store,
    name: &str,
    dimensions: i64,
    chunk_size: i64,
    chunk_overlap: i64,
) -> (index: Option<usize>)
    ensures
        ({
            let p = identity_test(
                crate::models::IdentityView { name: name@, dimensions, chunk_size, chunk_overlap },
            );
            match index {
                Some(i) => first_where(store@.models.rows, p) == Some(i as int) && is_first(
                    store@.models.rows,
                    p,
                    i as int,
                ),
                None => first_where(store@.models.rows, p) is None && forall|i: int|
                    0 <= i < store@.models.rows.len() ==> !p(#[trigger] store@.models.rows[i]),
            }
        }),
{
    let ghost p = identity_test(
        crate::models::IdentityView { name: name@, dimensions, chunk_size, chunk_overlap },
    );
    let same_identity = |row: &EmbeddingModel| -> (same: bool)
        ensures
            same == p(row@),
        {
            same_text(row.name.as_str(), name) && row.dimensions == dimensions && row.chunk_size
                == chunk_size && row.chunk_overlap == chunk_overlap
        };
    position(&store.models.rows, same_identity, Ghost(p))
}

/// The model with this identity.
pub fn find_model_by_identity(store: &Store, identity: &EmbeddingIdentity) -> (model: Option<
    EmbeddingModel,
>)
    ensures
        match model {
            Some(model) => first_where(store@.models.rows, identity_test(identity@)) matches Some(i)
                && model@ == store@.models.rows[i] && model@.identity() == identity@,
            None => first_where(store@.models.rows, identity_test(identity@)) is None,
        },
{
    match identity_position(
        store,
        identity.name.as_str(),
        identity.dimensions,
        identity.chunk_size,
        identity.chunk_overlap,
    ) {
        Some(i) => Some(copy_model(&store.models.rows[i])),
        None => None,
    }
}

/// To add a model whose identity is new keeps the tables well formed.
pub proof fn lemma_with_model_wf(before: Tables, model: ModelView)
    requires
        before.wf(),
        first_where(before.models.rows, identity_test(model.identity())) is None,
        before.models.last_id < i64::MAX,
    ensures
        (Tables { models: before.models.inserted(model), ..before }).wf(),
        before.models.inserted(model).has((before.models.last_id + 1) as i64),
{
    let after = Tables { models: before.models.inserted(model), ..before };
    let n = before.models.rows.len() as int;
    let id = (before.models.last_id + 1) as i64;
    let p = identity_test(model.identity());
    lemma_first_where_is_first(before.models.rows, p);
    assert forall|i: int, j: int| 0 <= i < j < after.models.rows.len() implies (
    #[trigger] after.models.rows[i]).id < (#[trigger] after.models.rows[j]).id
        && after.models.rows[i].identity() != after.models.rows[j].identity() by {
        assert(before.models.rows[i] == after.models.rows[i]);
        if j == n {
            assert(!p(before.models.rows[i]));
        }
    }
    assert forall|k: int| 0 <= k < after.embeddings.rows.len() implies after.documents.has(
        (#[trigger] after.embeddings.rows[k]).document_id,
    ) && after.models.has(after.embeddings.rows[k].model_id) by {
        let owner = before.embeddings.rows[k].model_id;
        assert(before.models.has(owner));
        lemma_first_where_is_first(before.models.rows, model_id_test(owner));
        let m = first_where(before.models.rows, model_id_test(owner)).unwrap();
        assert(is_first(before.models.rows, model_id_test(owner), m));
        lemma_first_exists(after.models.rows, model_id_test(owner), m);
    }
    assert(after.models.rows[n].id == id);
    lemma_first_exists(after.models.rows, model_id_test(id), n);
}

/// Adds a model and gives its id. A model whose identity is there already is refused.
pub fn insert_model(store: &mut Store, model: &EmbeddingModel) -> (result: Result<
    i64,
    RepositoryError,
>)
    ensures
        match result {
            Ok(id) => {
                &&& first_where(old(store)@.models.rows, identity_test(model@.identity())) is None
                &&& old(store).models.last_id < i64::MAX
                &&& id == old(store).models.last_id + 1
                &&& final(store)@ == (Tables {
                    models: old(store)@.models.inserted(model@),
                    ..old(store)@
                })
            },
            Err(error) => {
                &&& error is DuplicateModel && first_where(
                    old(store)@.models.rows,
                    identity_test(model@.identity()),
                ) is Some || error is Full && first_where(
                    old(store)@.models.rows,
                    identity_test(model@.identity()),
                ) is None && old(store).models.last_id == i64::MAX
                &&& final(store)@ == old(store)@
            },
        },
        old(store)@.wf() ==> final(store)@.wf(),
{
    let found: Option<usize> = identity_position(
        store,
        model.name.as_str(),
        model.dimensions,
        model.chunk_size,
        model.chunk_overlap,
    );
    if found.is_some() {
        return Err(RepositoryError::DuplicateModel);
    }
    if store.models.last_id == i64::MAX {
        return Err(RepositoryError::Full);
    }
    let id: i64 = store.models.last_id + 1;
    let mut row: EmbeddingModel = copy_model(model);
    row.id = id;
    store.models.last_id = id;
    store.models.rows.push(row);
    proof {
        assert(store@.models.rows =~= old(store)@.models.inserted(model@).rows);
        if old(store)@.wf() {
            lemma_with_model_wf(old(store)@, model@);
        }
    }
    Ok(id)
}

fn copy_embedding(row: &DocumentEmbedding) -> (copy: DocumentEmbedding)
    ensures
        copy@ == row@,
{
    let embedding: Option<Vec<u8>> = match &row.embedding {
        Some(bytes) => Some(vstd::slice::slice_to_vec(bytes.as_slice())),
        None => None,
    };
    DocumentEmbedding {
        id: row.id,
        document_id: row.document_id,
        model_id: row.model_id,
        chunk_type: row.chunk_type,
        chunk_start: row.chunk_start,
        chunk_end: row.chunk_end,
        state: row.state,
        embedding,
        created_at: row.created_at,
    }
}

/// The property to be an embedding of this document for this model that has to be made.
pub open spec fn recoverable_test(document_id: i64, model_id: i64) -> spec_fn(
    EmbeddingRow,
) -> bool {
    |row: EmbeddingRow|
        row.document_id == document_id && row.model_id == model_id && recoverable(row)
}

/// The embeddings of a document for a model that have to be made, or made again.
pub fn list_recoverable_embeddings_for_model(store: &Store, doc_id: i64, model_id: i64) -> (rows:
    Vec<DocumentEmbedding>)
    ensures
        rows_of(rows@) == store@.embeddings.rows.filter(recoverable_test(doc_id, model_id)),
{
    let ghost all = store@.embeddings.rows;
    let ghost p = recoverable_test(doc_id, model_id);
    let mut rows: Vec<DocumentEmbedding> = Vec::new();
    let mut i: usize = 0;
    proof {
        reveal(Seq::filter);
        assert(rows_of(rows@) =~= all.take(0).filter(p));
    }
    while i < store.embeddings.rows.len()
        invariant
            i <= store.embeddings.rows.len(),
            all == store@.embeddings.rows,
            p == recoverable_test(doc_id, model_id),
            rows_of(rows@) == all.take(i as int).filter(p),
        decreases store.embeddings.rows.len() - i,
    {
        proof {
            reveal(Seq::filter);
            assert(all.take(i + 1).drop_last() =~= all.take(i as int));
        }
        let row: &DocumentEmbedding = &store.embeddings.rows[i];
        let ghost before = rows_of(rows@);
        if row.document_id == doc_id && row.model_id == model_id && is_recoverable(row) {
            rows.push(copy_embedding(row));
            proof {
                assert(rows_of(rows@) =~= before.push(row@));
            }
        }
        i = i + 1;
    }
    proof {
        assert(all.take(i as int) =~= all);
    }
    rows
}

fn copy_document(row: &StoredDocument) -> (copy: StoredDocument)
    ensures
        copy@ == row@,
{
    StoredDocument {
        id: row.id,
        filepath: row.filepath.clone(),
        file_type: row.file_type.clone(),
        doc_category: row.doc_category.clone(),
        file_modified_at: row.file_modified_at,
        file_size: row.file_size,
        updated_at: row.updated_at,
    }
}

/// The property to stand after `path`.
pub open spec fn after_test(path: Seq<char>) -> spec_fn(DocumentRow) -> bool {
    |row: DocumentRow| text_less(path, row.filepath)
}

/// A row put in its place among rows that are in the order of their paths: before the
/// first that stands after it.
pub open spec fn placed(rows: Seq<DocumentRow>, row: DocumentRow) -> Seq<DocumentRow> {
    match first_where(rows, after_test(row.filepath)) {
        Some(i) => rows.insert(i, row),
        None => rows.push(row),
    }
}

/// The rows in the order of their paths; those with the same path keep their order.
pub open spec fn by_path(rows: Seq<DocumentRow>) -> Seq<DocumentRow>
    decreases rows.len(),
{
    if rows.len() == 0 {
        seq![]
    } else {
        placed(by_path(rows.drop_last()), rows.last())
    }
}

/// `by_path` gives all rows, and in the order of their paths.
pub proof fn lemma_by_path(rows: Seq<DocumentRow>)
    ensures
        by_path(rows).to_multiset() == rows.to_multiset(),
        forall|i: int, j: int|
            0 <= i < j < by_path(rows).len() ==> !text_less(
                (#[trigger] by_path(rows)[j]).filepath,
                (#[trigger] by_path(rows)[i]).filepath,
            ),
    decreases rows.len(),
{
    broadcast use vstd::seq_lib::group_to_multiset_ensures;

    if rows.len() > 0 {
        let head = rows.drop_last();
        let row = rows.last();
        lemma_by_path(head);
        let sorted = by_path(head);
        let p = after_test(row.filepath);
        lemma_first_where_is_first(sorted, p);
        assert(head.push(row) =~= rows);
        let all = placed(sorted, row);
        let k = match first_where(sorted, p) {
            Some(i) => i,
            None => sorted.len() as int,
        };
        assert(all =~= sorted.insert(k, row));
        assert forall|i: int, j: int| 0 <= i < j < all.len() implies !text_less(
            (#[trigger] all[j]).filepath,
            (#[trigger] all[i]).filepath,
        ) by {
            if j < k {
                assert(!text_less(sorted[j].filepath, sorted[i].filepath));
            } else if i > k {
                assert(!text_less(sorted[j - 1].filepath, sorted[i - 1].filepath));
            } else if i < k && j == k {
                assert(!p(sorted[i]));
            } else if i < k {
                assert(!text_less(sorted[j - 1].filepath, sorted[i].filepath));
            } else {
                let first = sorted[k];
                assert(p(first));
                if j - 1 > k {
                    assert(!text_less(sorted[j - 1].filepath, first.filepath));
                }
                lemma_text_order_total(row.filepath, first.filepath);
                lemma_text_order_total(first.filepath, sorted[j - 1].filepath);
                if text_less(sorted[j - 1].filepath, row.filepath) {
                    lemma_text_order_transitive(
                        sorted[j - 1].filepath,
                        row.filepath,
                        first.filepath,
                    );
                }
            }
        }
    } else {
        assert(by_path(rows) =~= rows);
    }
}

pub open spec fn documents_of(documents: Seq<Document>) -> Seq<DocumentRow> {
    documents.map_values(|document: Document| document@.row())
}

/// The property to have a category that is none of the known ones.
pub open spec fn unreadable_test() -> spec_fn(DocumentRow) -> bool {
    |row: DocumentRow|
        forall|category: DocCategory| row.doc_category != #[trigger] category.name()
}

/// All documents, in the order of their paths. Where one has an unknown category, the
/// error names the first such category.
pub fn list_documents(store: &Store) -> (result: Result<Vec<Document>, RepositoryError>)
    ensures
        match result {
            Ok(documents) => documents_of(documents@) == by_path(store@.documents.rows),
            Err(error) => first_where(
                by_path(store@.documents.rows),
                unreadable_test(),
            ) matches Some(i) && error matches RepositoryError::Invalid(invalid)
                && invalid.enumeration@ == "DocCategory"@ && invalid.name@ == by_path(
                store@.documents.rows,
            )[i].doc_category,
        },
{
    let ghost all = store@.documents.rows;
    let mut sorted: Vec<StoredDocument> = Vec::new();
    let mut i: usize = 0;
    proof {
        assert(rows_of(sorted@) =~= by_path(all.take(0)));
    }
    while i < store.documents.rows.len()
        invariant
            i <= store.documents.rows.len(),
            all == store@.documents.rows,
            rows_of(sorted@) == by_path(all.take(i as int)),
        decreases store.documents.rows.len() - i,
    {
        proof {
            assert(all.take(i + 1).drop_last() =~= all.take(i as int));
        }
        let row: StoredDocument = copy_document(&store.documents.rows[i]);
        let path: &str = row.filepath.as_str();
        let ghost before = rows_of(sorted@);
        let ghost p = after_test(row@.filepath);
        let stands_after = |other: &StoredDocument| -> (after: bool)
            ensures
                after == p(other@),
            { less_text(path, other.filepath.as_str()) };
        let place: Option<usize> = position(&sorted, stands_after, Ghost(p));
        match place {
            Some(k) => {
                sorted.insert(k, row);
            },
            None => {
                sorted.push(row);
            },
        }
        proof {
            assert(rows_of(sorted@) =~= placed(before, all[i as int]));
        }
        i = i + 1;
    }
    proof {
        assert(all.take(i as int) =~= all);
    }
    let ghost rows = rows_of(sorted@);
    let mut documents: Vec<Document> = Vec::new();
    let mut j: usize = 0;
    while j < sorted.len()
        invariant
            j <= sorted.len(),
            rows == rows_of(sorted@),
            rows == by_path(store@.documents.rows),
            documents_of(documents@) == rows.take(j as int),
            forall|k: int| 0 <= k < j ==> !unreadable_test()(#[trigger] rows[k]),
        decreases sorted.len() - j,
    {
        match read_document(&sorted[j]) {
            Ok(document) => {
                let ghost before = documents@;
                let ghost row = document@.row();
                documents.push(document);
                proof {
                    assert(rows[j as int] == row);
                    assert(rows[j as int].doc_category == document.doc_category.name());
                    assert(documents_of(documents@) =~= documents_of(before).push(row));
                    assert(documents_of(documents@) =~= rows.take(j + 1));
                }
            },
            Err(error) => {
                proof {
                    assert(rows[j as int] == sorted@[j as int]@);
                    assert(is_first(rows, unreadable_test(), j as int));
                    lemma_first_where(rows, unreadable_test(), j as int);
                }
                return Err(error);
            },
        }
        j = j + 1;
    }
    proof {
        assert(rows.take(j as int) =~= rows);
    }
    Ok(documents)
}

impl Tables {
    /// The hash that a document's file had when it was last read.
    pub open spec fn stored_hash(self, document_id: i64) -> Option<Seq<char>> {
        match first_where(self.fingerprints, fingerprint_test(document_id)) {
            Some(i) => Some(self.fingerprints[i].file_hash),
            None => None,
        }
    }

    /// Whether a document's file is known to have had other bytes.
    pub open spec fn had_other_bytes(self, document_id: i64, file_hash: Seq<char>) -> bool {
        match self.stored_hash(document_id) {
            Some(stored) => stored != file_hash,
            None => false,
        }
    }

    /// Whether a document is new, or its file has changed or has other bytes.
    pub open spec fn differs(self, doc: DocumentView, file_hash: Seq<char>) -> bool {
        self.changes(doc) || self.had_other_bytes(self.id_for(doc), file_hash)
    }

    /// The tables with a document's fingerprint replaced.
    pub open spec fn with_fingerprint(self, row: FingerprintRow) -> Tables {
        Tables {
            fingerprints: without(self.fingerprints, fingerprint_test(row.document_id)).push(row),
            ..self
        }
    }
}

/// The hash that a document's file had when it was last read.
pub fn document_hash(store: &Store, document_id: i64) -> (hash: Option<String>)
    ensures
        match hash {
            Some(hash) => store@.stored_hash(document_id) == Some(hash@),
            None => store@.stored_hash(document_id) is None,
        },
{
    let ghost p = fingerprint_test(document_id);
    let of_document = |row: &Fingerprint| -> (same: bool)
        ensures
            same == p(row@),
        { row.document_id == document_id };
    match position(&store.fingerprints, of_document, Ghost(p)) {
        Some(i) => Some(store.fingerprints[i].file_hash.clone()),
        None => None,
    }
}

/// Whether a document's file is known to have had other bytes.
pub fn has_other_bytes(store: &Store, document_id: i64, file_hash: &str) -> (yes: bool)
    ensures
        yes == store@.had_other_bytes(document_id, file_hash@),
{
    match document_hash(store, document_id) {
        Some(stored) => !same_text(stored.as_str(), file_hash),
        None => false,
    }
}

/// Keeps what a document's file held.
fn set_fingerprint(store: &mut Store, document_id: i64, file_hash: &str, metadata_json: &str)
    ensures
        final(store)@ == old(store)@.with_fingerprint(
            FingerprintRow {
                document_id,
                file_hash: file_hash@,
                metadata_json: metadata_json@,
            },
        ),
        old(store)@.wf() ==> final(store)@.wf(),
{
    let ghost p = fingerprint_test(document_id);
    let of_document = |row: &Fingerprint| -> (same: bool)
        ensures
            same == p(row@),
        { row.document_id == document_id };
    remove_where(&mut store.fingerprints, of_document, Ghost(p));
    let ghost kept = rows_of(store.fingerprints@);
    let row = Fingerprint {
        document_id,
        file_hash: file_hash.to_owned(),
        metadata_json: metadata_json.to_owned(),
    };
    let ghost view = row@;
    store.fingerprints.push(row);
    proof {
        assert(rows_of(store.fingerprints@) =~= kept.push(view));
    }
}

/// As [`upsert_document_and_replace_pending_embeddings`], for a file whose bytes were
/// hashed: other bytes count as a change, too.
pub fn ingest_document(
    store: &mut Store,
    doc: &Document,
    file_hash: &str,
    metadata_json: &str,
    model_id: i64,
    chunks: &[(ChunkType, i64, i64)],
    now: i64,
) -> (result: Result<(i64, bool), RepositoryError>)
    ensures
        match result {
            Ok((id, changed)) => {
                &&& !old(store)@.unreadable(doc.filepath@)
                &&& id == old(store)@.id_for(doc@)
                &&& changed == old(store)@.differs(doc@, file_hash@)
                &&& changed ==> old(store)@.has_model_for(model_id, chunks@.len()) && !old(
                    store,
                )@.documents_full_for(doc@) && old(store)@.room_to_replan(doc@, model_id, chunks@, now)
                &&& final(store)@ == if changed {
                    old(store)@.replanned(doc@, model_id, chunks@, now).with_fingerprint(
                        FingerprintRow {
                            document_id: id,
                            file_hash: file_hash@,
                            metadata_json: metadata_json@,
                        },
                    )
                } else {
                    old(store)@
                }
            },
            Err(RepositoryError::Invalid(invalid)) => {
                &&& old(store)@.unreadable(doc.filepath@)
                &&& invalid.enumeration@ == "DocCategory"@
                &&& invalid.name@ == old(store)@.documents.rows[old(store)@.documents.latest(
                    doc.filepath@,
                ).unwrap()].doc_category
                &&& final(store)@ == old(store)@
            },
            Err(error) => {
                &&& !old(store)@.unreadable(doc.filepath@)
                &&& old(store)@.differs(doc@, file_hash@)
                &&& error is ForeignKey && !old(store)@.has_model_for(model_id, chunks@.len())
                    || error is Full && old(store)@.has_model_for(model_id, chunks@.len()) && (old(
                    store,
                )@.documents_full_for(doc@) || !old(store)@.room_to_replan(doc@, model_id, chunks@, now))
                &&& final(store)@ == old(store)@
            },
        },
        old(store)@.wf() ==> final(store)@.wf(),
{
    let existing: Option<usize> = match standing(store, doc) {
        Ok(Standing::Unchanged(i)) => {
            let id: i64 = store.documents.rows[i].id;
            if !has_other_bytes(store, id, file_hash) {
                return Ok((id, false));
            }
            Some(i)
        },
        Ok(Standing::Changed(i)) => Some(i),
        Ok(Standing::New) => None,
        Err(error) => {
            return Err(error);
        },
    };
    match replan_document(store, existing, doc, model_id, chunks, now) {
        Ok(id) => {
            set_fingerprint(store, id, file_hash, metadata_json);
            Ok((id, true))
        },
        Err(error) => Err(error),
    }
}

/// To remove a document removes its row, its embeddings and its fingerprint, and leaves all
/// other rows as they are.
pub proof fn lemma_without_document(tables: Tables, id: i64)
    ensures
        ({
            let after = tables.without_document(id);
            &&& forall|i: int|
                0 <= i < after.documents.rows.len() ==> (#[trigger] after.documents.rows[i]).id
                    != id && tables.documents.rows.contains(after.documents.rows[i])
            &&& forall|i: int|
                0 <= i < tables.documents.rows.len() && (#[trigger] tables.documents.rows[i]).id
                    != id ==> after.documents.rows.contains(tables.documents.rows[i])
            &&& forall|i: int|
                0 <= i < after.embeddings.rows.len() ==> (
                #[trigger] after.embeddings.rows[i]).document_id != id
                    && tables.embeddings.rows.contains(after.embeddings.rows[i])
            &&& forall|i: int|
                0 <= i < tables.embeddings.rows.len() && (
                #[trigger] tables.embeddings.rows[i]).document_id != id
                    ==> after.embeddings.rows.contains(tables.embeddings.rows[i])
            &&& forall|i: int|
                0 <= i < after.fingerprints.len() ==> (
                #[trigger] after.fingerprints[i]).document_id != id
                    && tables.fingerprints.contains(after.fingerprints[i])
            &&& forall|i: int|
                0 <= i < tables.fingerprints.len() && (
                #[trigger] tables.fingerprints[i]).document_id != id
                    ==> after.fingerprints.contains(tables.fingerprints[i])
            &&& after.models == tables.models
            &&& after.jobs == tables.jobs
        }),
{
    lemma_kept(tables.documents.rows, document_id_test(id));
    lemma_kept(tables.embeddings.rows, document_test(id));
    lemma_kept(tables.fingerprints, fingerprint_test(id));
}

/// The rows that are kept are those without the property.
proof fn lemma_kept<R>(rows: Seq<R>, p: spec_fn(R) -> bool)
    ensures
        forall|i: int|
            0 <= i < without(rows, p).len() ==> !p(#[trigger] without(rows, p)[i])
                && rows.contains(without(rows, p)[i]),
        forall|i: int|
            0 <= i < rows.len() && !p(#[trigger] rows[i]) ==> without(rows, p).contains(rows[i]),
{
    let kept = without(rows, p);
    assert forall|i: int| 0 <= i < kept.len() implies !p(#[trigger] kept[i]) && rows.contains(
        kept[i],
    ) by {
        let o = lemma_without_origin(rows, p, i);
        assert(rows[o] == kept[i]);
    }
    assert forall|i: int| 0 <= i < rows.len() && !p(#[trigger] rows[i]) implies kept.contains(
        rows[i],
    ) by {
        let k = lemma_without_keeps(rows, p, i);
        assert(kept[k] == rows[i]);
    }
}

} // verus!
