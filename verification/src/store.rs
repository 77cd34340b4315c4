//! What the service keeps: documents, embedding models, embeddings and jobs.
//!
//! The tables hold their rows in the order of their ids. The view of a [`Store`] is a
//! [`Tables`], over which the operations of the `repository` module are stated.

use crate::json::{object_text, ScalarView};
use crate::models::{
    DocumentEmbedding, DocumentRow, DocumentView, EmbeddingModel, EmbeddingRow, IdentityView,
    ModelView, StoredDocument,
};
use crate::queue::{lemma_enqueue_wf, JobTable, Jobs};
use crate::rows::{
    first_where, lemma_first_where_is_first, lemma_without_order, lemma_without_origin, rows_of,
    without,
};
use crate::types::{ChunkType, DocCategory, EmbedState, JobType};

use vstd::prelude::*;

verus! {

/// The documents, and the last id that was given out.
#[derive(Clone, Debug)]
pub struct DocumentTable {
    pub rows: Vec<StoredDocument>,
    pub last_id: i64,
}

/// The view of a [`DocumentTable`].
pub struct Documents {
    pub rows: Seq<DocumentRow>,
    pub last_id: i64,
}

impl View for DocumentTable {
    type V = Documents;

    open spec fn view(&self) -> Documents {
        Documents { rows: rows_of(self.rows@), last_id: self.last_id }
    }
}

/// The embedding models, and the last id that was given out.
#[derive(Clone, Debug)]
pub struct ModelTable {
    pub rows: Vec<EmbeddingModel>,
    pub last_id: i64,
}

/// The view of a [`ModelTable`].
pub struct Models {
    pub rows: Seq<ModelView>,
    pub last_id: i64,
}

impl View for ModelTable {
    type V = Models;

    open spec fn view(&self) -> Models {
        Models { rows: rows_of(self.rows@), last_id: self.last_id }
    }
}

/// The embeddings, and the last id that was given out.
#[derive(Clone, Debug)]
pub struct EmbeddingTable {
    pub rows: Vec<DocumentEmbedding>,
    pub last_id: i64,
}

/// The view of an [`EmbeddingTable`].
pub struct Embeddings {
    pub rows: Seq<EmbeddingRow>,
    pub last_id: i64,
}

impl View for EmbeddingTable {
    type V = Embeddings;

    open spec fn view(&self) -> Embeddings {
        Embeddings { rows: rows_of(self.rows@), last_id: self.last_id }
    }
}

/// What a document's file held when it was last read: the hash of its bytes, and how
/// its content was split.
#[derive(Clone, Debug, PartialEq, Eq)]
pub struct Fingerprint {
    pub document_id: i64,
    pub file_hash: String,
    pub metadata_json: String,
}

/// The view of a [`Fingerprint`].
pub struct FingerprintRow {
    pub document_id: i64,
    pub file_hash: Seq<char>,
    pub metadata_json: Seq<char>,
}

impl View for Fingerprint {
    type V = FingerprintRow;

    open spec fn view(&self) -> FingerprintRow {
        FingerprintRow {
            document_id: self.document_id,
            file_hash: self.file_hash@,
            metadata_json: self.metadata_json@,
        }
    }
}

/// Everything that is kept.
#[derive(Clone, Debug)]
pub struct Store {
    pub documents: DocumentTable,
    pub models: ModelTable,
    pub embeddings: EmbeddingTable,
    pub fingerprints: Vec<Fingerprint>,
    pub jobs: JobTable,
}

/// The view of a [`Store`].
pub struct Tables {
    pub documents: Documents,
    pub models: Models,
    pub embeddings: Embeddings,
    pub fingerprints: Seq<FingerprintRow>,
    pub jobs: Jobs,
}

impl View for Store {
    type V = Tables;

    open spec fn view(&self) -> Tables {
        Tables {
            documents: self.documents@,
            models: self.models@,
            embeddings: self.embeddings@,
            fingerprints: rows_of(self.fingerprints@),
            jobs: self.jobs@,
        }
    }
}

impl Store {
    /// A store that keeps nothing yet.
    pub fn new() -> (store: Store)
        ensures
            store@ == (Tables {
                documents: Documents { rows: seq![], last_id: 0 },
                models: Models { rows: seq![], last_id: 0 },
                embeddings: Embeddings { rows: seq![], last_id: 0 },
                fingerprints: seq![],
                jobs: Jobs { rows: seq![], last_id: 0 },
            }),
            store@.wf(),
    {
        let store = Store {
            documents: DocumentTable { rows: Vec::new(), last_id: 0 },
            models: ModelTable { rows: Vec::new(), last_id: 0 },
            embeddings: EmbeddingTable { rows: Vec::new(), last_id: 0 },
            fingerprints: Vec::new(),
            jobs: JobTable { rows: Vec::new(), last_id: 0 },
        };
        proof {
            assert(store@.documents.rows =~= seq![]);
            assert(store@.models.rows =~= seq![]);
            assert(store@.embeddings.rows =~= seq![]);
            assert(store@.fingerprints =~= seq![]);
            assert(store@.jobs.rows =~= seq![]);
        }
        store
    }
}

impl Documents {
    /// Ids are positive, grow from row to row and do not exceed the last one.
    pub open spec fn wf(self) -> bool {
        &&& self.last_id >= 0
        &&& forall|i: int|
            0 <= i < self.rows.len() ==> 0 < (#[trigger] self.rows[i]).id <= self.last_id
        &&& forall|i: int, j: int|
            0 <= i < j < self.rows.len() ==> (#[trigger] self.rows[i]).id < (
            #[trigger] self.rows[j]).id
    }

    /// Whether there is a document with this id.
    pub open spec fn has(self, id: i64) -> bool {
        exists|i: int| 0 <= i < self.rows.len() && (#[trigger] self.rows[i]).id == id
    }

    /// Among the first `n` documents, the index of the one at `path` that was updated
    /// last; of several, the last.
    pub open spec fn latest_of(self, path: Seq<char>, n: int) -> Option<int>
        decreases n,
    {
        if n <= 0 {
            None
        } else {
            let row = self.rows[n - 1];
            match self.latest_of(path, n - 1) {
                Some(k) => if row.filepath == path && self.rows[k].updated_at <= row.updated_at {
                    Some(n - 1)
                } else {
                    Some(k)
                },
                None => if row.filepath == path {
                    Some(n - 1)
                } else {
                    None
                },
            }
        }
    }

    /// The index of the document at `path` that was updated last.
    pub open spec fn latest(self, path: Seq<char>) -> Option<int> {
        self.latest_of(path, self.rows.len() as int)
    }

    /// The documents with the one at `i` brought up to date.
    pub open spec fn updated(self, i: int, doc: DocumentView) -> Documents {
        Documents {
            rows: self.rows.update(
                i,
                DocumentRow { id: self.rows[i].id, filepath: self.rows[i].filepath, ..doc.row() },
            ),
            ..self
        }
    }

    /// The documents with a new one.
    pub open spec fn inserted(self, doc: DocumentView) -> Documents {
        Documents {
            rows: self.rows.push(DocumentRow { id: (self.last_id + 1) as i64, ..doc.row() }),
            last_id: (self.last_id + 1) as i64,
        }
    }
}

/// Whether a file is as it was: the same type, category, time and size.
pub open spec fn same_file(row: DocumentRow, doc: DocumentView) -> bool {
    &&& row.file_type == doc.file_type
    &&& row.doc_category == doc.doc_category.name()
    &&& row.file_modified_at == doc.file_modified_at
    &&& row.file_size == doc.file_size
}

/// The property to have this identity.
pub open spec fn identity_test(identity: IdentityView) -> spec_fn(ModelView) -> bool {
    |row: ModelView| row.identity() == identity
}

/// The property to have this id.
pub open spec fn model_id_test(id: i64) -> spec_fn(ModelView) -> bool {
    |row: ModelView| row.id == id
}

/// The property to have this name.
pub open spec fn model_name_test(name: Seq<char>) -> spec_fn(ModelView) -> bool {
    |row: ModelView| row.name == name
}

impl Models {
    /// Ids are positive, grow from row to row and do not exceed the last one; no two
    /// models have the same identity.
    pub open spec fn wf(self) -> bool {
        &&& self.last_id >= 0
        &&& forall|i: int|
            0 <= i < self.rows.len() ==> 0 < (#[trigger] self.rows[i]).id <= self.last_id
        &&& forall|i: int, j: int|
            0 <= i < j < self.rows.len() ==> (#[trigger] self.rows[i]).id < (
            #[trigger] self.rows[j]).id && self.rows[i].identity() != self.rows[j].identity()
    }

    /// Whether there is a model with this id.
    pub open spec fn has(self, id: i64) -> bool {
        first_where(self.rows, model_id_test(id)) is Some
    }

    /// The models with a new one.
    pub open spec fn inserted(self, model: ModelView) -> Models {
        Models {
            rows: self.rows.push(ModelView { id: (self.last_id + 1) as i64, ..model }),
            last_id: (self.last_id + 1) as i64,
        }
    }
}

/// A chunk to be stored: with its vector, or waiting for one.
pub struct ChunkWrite {
    pub chunk_type: ChunkType,
    pub chunk_start: i64,
    pub chunk_end: i64,
    pub embedding: Option<Seq<u8>>,
}

/// The property to be the embedding of this chunk for this model.
pub open spec fn chunk_test(
    document_id: i64,
    model_id: i64,
    chunk_type: ChunkType,
    chunk_start: i64,
) -> spec_fn(EmbeddingRow) -> bool {
    |row: EmbeddingRow|
        row.document_id == document_id && row.model_id == model_id && row.chunk_type == chunk_type
            && row.chunk_start == chunk_start
}

/// The property to belong to this document and model.
pub open spec fn pair_test(document_id: i64, model_id: i64) -> spec_fn(EmbeddingRow) -> bool {
    |row: EmbeddingRow| row.document_id == document_id && row.model_id == model_id
}

/// The property to wait for a vector of this model for this document.
pub open spec fn pending_test(document_id: i64, model_id: i64) -> spec_fn(EmbeddingRow) -> bool {
    |row: EmbeddingRow|
        row.document_id == document_id && row.model_id == model_id && row.state
            == EmbedState::Pending
}

/// Whether an embedding has to be made, or made again.
pub open spec fn recoverable(row: EmbeddingRow) -> bool {
    row.state == EmbedState::Pending || row.state == EmbedState::Stale
}

impl Embeddings {
    /// Ids are positive, grow from row to row and do not exceed the last one; a chunk
    /// has one embedding for each model.
    pub open spec fn wf(self) -> bool {
        &&& self.last_id >= 0
        &&& forall|i: int|
            0 <= i < self.rows.len() ==> 0 < (#[trigger] self.rows[i]).id <= self.last_id
        &&& forall|i: int, j: int|
            0 <= i < j < self.rows.len() ==> (#[trigger] self.rows[i]).id < (
            #[trigger] self.rows[j]).id && !chunk_test(
                self.rows[i].document_id,
                self.rows[i].model_id,
                self.rows[i].chunk_type,
                self.rows[i].chunk_start,
            )(self.rows[j])
    }

    /// The embeddings after one chunk was stored: in its row, or in a new one.
    pub open spec fn put(self, document_id: i64, model_id: i64, write: ChunkWrite, now: i64)
        -> Embeddings {
        let state = if write.embedding is Some {
            EmbedState::Embedded
        } else {
            EmbedState::Pending
        };
        match first_where(
            self.rows,
            chunk_test(document_id, model_id, write.chunk_type, write.chunk_start),
        ) {
            Some(i) => Embeddings {
                rows: self.rows.update(
                    i,
                    EmbeddingRow {
                        chunk_end: write.chunk_end,
                        state,
                        embedding: write.embedding,
                        created_at: now,
                        ..self.rows[i]
                    },
                ),
                ..self
            },
            None => Embeddings {
                rows: self.rows.push(
                    EmbeddingRow {
                        id: (self.last_id + 1) as i64,
                        document_id,
                        model_id,
                        chunk_type: write.chunk_type,
                        chunk_start: write.chunk_start,
                        chunk_end: write.chunk_end,
                        state,
                        embedding: write.embedding,
                        created_at: now,
                    },
                ),
                last_id: (self.last_id + 1) as i64,
            },
        }
    }

    /// The embeddings after chunks were stored, one after another.
    pub open spec fn written(
        self,
        document_id: i64,
        model_id: i64,
        writes: Seq<ChunkWrite>,
        now: i64,
    ) -> Embeddings
        decreases writes.len(),
    {
        if writes.len() == 0 {
            self
        } else {
            self.written(document_id, model_id, writes.drop_last(), now).put(
                document_id,
                model_id,
                writes.last(),
                now,
            )
        }
    }

    /// Whether there is an id for each row that storing chunks adds.
    pub open spec fn has_ids_for(
        self,
        document_id: i64,
        model_id: i64,
        writes: Seq<ChunkWrite>,
        now: i64,
    ) -> bool
        decreases writes.len(),
    {
        writes.len() > 0 ==> {
            let before = self.written(document_id, model_id, writes.drop_last(), now);
            &&& self.has_ids_for(document_id, model_id, writes.drop_last(), now)
            &&& !before.full_for(document_id, model_id, writes.last())
        }
    }

    /// Whether storing a chunk needs a new row, and there is no id left for it.
    pub open spec fn full_for(self, document_id: i64, model_id: i64, write: ChunkWrite) -> bool {
        &&& first_where(
            self.rows,
            chunk_test(document_id, model_id, write.chunk_type, write.chunk_start),
        ) is None
        &&& self.last_id == i64::MAX
    }

    /// The embeddings after those with vectors of the selected documents became stale.
    pub open spec fn marked_stale(self, selected: spec_fn(i64) -> bool) -> Embeddings {
        Embeddings {
            rows: self.rows.map_values(
                |row: EmbeddingRow|
                    if row.state == EmbedState::Embedded && selected(row.document_id) {
                        EmbeddingRow { state: EmbedState::Stale, ..row }
                    } else {
                        row
                    },
            ),
            ..self
        }
    }
}

/// The payload of the job that embeds a document for a model.
pub open spec fn embed_payload(document_id: int, model_id: int) -> Seq<char> {
    object_text(
        seq![
            ("document_id"@, ScalarView::Number(document_id)),
            ("model_id"@, ScalarView::Number(model_id)),
        ],
    )
}

/// Whether an embedding makes a new job necessary.
pub open spec fn needs_job(
    jobs: Jobs,
    row: EmbeddingRow,
    selected: spec_fn(i64) -> bool,
    now: int,
) -> bool {
    recoverable(row) && selected(row.document_id) && jobs.accepts(
        JobType::EmbedDocument.name(),
        embed_payload(row.document_id as int, row.model_id as int),
        now,
    )
}

/// The jobs after one was queued for each selected document and model with an
/// embedding to be made, where none is queued or in progress.
pub open spec fn seeded(
    jobs: Jobs,
    rows: Seq<EmbeddingRow>,
    selected: spec_fn(i64) -> bool,
    now: i64,
) -> Jobs
    decreases rows.len(),
{
    if rows.len() == 0 {
        jobs
    } else {
        let before = seeded(jobs, rows.drop_last(), selected, now);
        let row = rows.last();
        if needs_job(before, row, selected, now as int) {
            before.enqueued(
                JobType::EmbedDocument.name(),
                embed_payload(row.document_id as int, row.model_id as int),
                now,
            )
        } else {
            before
        }
    }
}

/// Whether there is an id for each row that `seeded` adds.
pub open spec fn has_ids_for_jobs(
    jobs: Jobs,
    rows: Seq<EmbeddingRow>,
    selected: spec_fn(i64) -> bool,
    now: i64,
) -> bool
    decreases rows.len(),
{
    rows.len() > 0 ==> {
        let before = seeded(jobs, rows.drop_last(), selected, now);
        let row = rows.last();
        &&& has_ids_for_jobs(jobs, rows.drop_last(), selected, now)
        &&& needs_job(before, row, selected, now as int) ==> !before.full_for(
            JobType::EmbedDocument.name(),
            embed_payload(row.document_id as int, row.model_id as int),
        )
    }
}

/// The number of jobs that `seeded` queues.
pub open spec fn seeded_count(
    jobs: Jobs,
    rows: Seq<EmbeddingRow>,
    selected: spec_fn(i64) -> bool,
    now: i64,
) -> nat
    decreases rows.len(),
{
    if rows.len() == 0 {
        0
    } else {
        let before = seeded(jobs, rows.drop_last(), selected, now);
        seeded_count(jobs, rows.drop_last(), selected, now) + if needs_job(
            before,
            rows.last(),
            selected,
            now as int,
        ) {
            1nat
        } else {
            0nat
        }
    }
}

impl Tables {
    /// Each table is well formed, and embeddings belong to documents and models that
    /// are there.
    pub open spec fn wf(self) -> bool {
        &&& self.documents.wf()
        &&& self.models.wf()
        &&& self.embeddings.wf()
        &&& self.jobs.wf()
        &&& forall|i: int|
            0 <= i < self.embeddings.rows.len() ==> self.documents.has(
                (#[trigger] self.embeddings.rows[i]).document_id,
            ) && self.models.has(self.embeddings.rows[i].model_id)
    }

    /// Whether there is an id for each job that is due for the selected documents.
    pub open spec fn room_for_jobs(self, selected: spec_fn(i64) -> bool, now: i64) -> bool {
        has_ids_for_jobs(self.jobs, self.embeddings.rows, selected, now)
    }

    /// The tables after jobs were queued for the selected documents.
    pub open spec fn with_jobs(self, selected: spec_fn(i64) -> bool, now: i64) -> Tables {
        Tables { jobs: seeded(self.jobs, self.embeddings.rows, selected, now), ..self }
    }

    /// The tables after the embeddings of the selected documents became stale.
    pub open spec fn with_stale(self, selected: spec_fn(i64) -> bool) -> Tables {
        Tables { embeddings: self.embeddings.marked_stale(selected), ..self }
    }
}

/// The selection of one document.
pub open spec fn only(id: i64) -> spec_fn(i64) -> bool {
    |document_id: i64| document_id == id
}

/// The selection of all documents.
pub open spec fn every() -> spec_fn(i64) -> bool {
    |document_id: i64| true
}

/// The selection of the documents among `ids` that are there.
pub open spec fn known(documents: Documents, ids: Seq<i64>) -> spec_fn(i64) -> bool {
    |document_id: i64| ids.contains(document_id) && documents.has(document_id)
}

/// The chunks of a plan, each waiting for its vector.
pub open spec fn pending_writes(chunks: Seq<(ChunkType, i64, i64)>) -> Seq<ChunkWrite> {
    chunks.map_values(
        |chunk: (ChunkType, i64, i64)|
            ChunkWrite {
                chunk_type: chunk.0,
                chunk_start: chunk.1,
                chunk_end: chunk.2,
                embedding: None,
            },
    )
}

impl Tables {
    /// Whether a document is new or its file has changed.
    pub open spec fn changes(self, doc: DocumentView) -> bool {
        match self.documents.latest(doc.filepath) {
            Some(i) => !same_file(self.documents.rows[i], doc),
            None => true,
        }
    }

    /// The id under which a document is kept, or will be.
    pub open spec fn id_for(self, doc: DocumentView) -> i64 {
        match self.documents.latest(doc.filepath) {
            Some(i) => self.documents.rows[i].id,
            None => (self.documents.last_id + 1) as i64,
        }
    }

    /// Whether a document is new, and no id is left for it.
    pub open spec fn documents_full_for(self, doc: DocumentView) -> bool {
        self.documents.latest(doc.filepath) is None && self.documents.last_id == i64::MAX
    }

    /// Whether the document that is kept at the path has a category that is none of the
    /// known ones.
    pub open spec fn unreadable(self, path: Seq<char>) -> bool {
        match self.documents.latest(path) {
            Some(i) => forall|category: DocCategory|
                self.documents.rows[i].doc_category != #[trigger] category.name(),
            None => false,
        }
    }

    /// The tables with a document brought up to date, and its embeddings stale.
    pub open spec fn with_document(self, doc: DocumentView) -> Tables {
        match self.documents.latest(doc.filepath) {
            Some(i) => Tables { documents: self.documents.updated(i, doc), ..self }.with_stale(
                only(self.id_for(doc)),
            ),
            None => Tables { documents: self.documents.inserted(doc), ..self },
        }
    }

    /// The tables without the embeddings of this document and model that wait for
    /// their vectors.
    pub open spec fn without_pending(self, document_id: i64, model_id: i64) -> Tables {
        Tables {
            embeddings: Embeddings {
                rows: without(self.embeddings.rows, pending_test(document_id, model_id)),
                ..self.embeddings
            },
            ..self
        }
    }

    /// The tables without the embeddings of this document and model.
    pub open spec fn without_pair(self, document_id: i64, model_id: i64) -> Tables {
        Tables {
            embeddings: Embeddings {
                rows: without(self.embeddings.rows, pair_test(document_id, model_id)),
                ..self.embeddings
            },
            ..self
        }
    }

    /// The tables after chunks were stored.
    pub open spec fn with_chunks(
        self,
        document_id: i64,
        model_id: i64,
        writes: Seq<ChunkWrite>,
        now: i64,
    ) -> Tables {
        Tables { embeddings: self.embeddings.written(document_id, model_id, writes, now), ..self }
    }

    /// Whether chunks of this document for this model may be stored.
    pub open spec fn may_hold(self, document_id: i64, model_id: i64, chunks: nat) -> bool {
        chunks == 0 || (self.documents.has(document_id) && self.models.has(model_id))
    }

    /// Whether there is an id for each chunk that has no row yet.
    pub open spec fn room_for_chunks(
        self,
        document_id: i64,
        model_id: i64,
        writes: Seq<ChunkWrite>,
        now: i64,
    ) -> bool {
        self.embeddings.has_ids_for(document_id, model_id, writes, now)
    }
}

/// What `latest_of` is: a document at the path, and none there was updated later.
pub proof fn lemma_latest(documents: Documents, path: Seq<char>, n: int)
    requires
        0 <= n <= documents.rows.len(),
    ensures
        match documents.latest_of(path, n) {
            Some(k) => {
                &&& 0 <= k < n
                &&& documents.rows[k].filepath == path
                &&& forall|j: int|
                    0 <= j < n && (#[trigger] documents.rows[j]).filepath == path ==> {
                        ||| documents.rows[j].updated_at < documents.rows[k].updated_at
                        ||| documents.rows[j].updated_at == documents.rows[k].updated_at && j <= k
                    }
            },
            None => forall|j: int|
                0 <= j < n ==> (#[trigger] documents.rows[j]).filepath != path,
        },
    decreases n,
{
    if n > 0 {
        lemma_latest(documents, path, n - 1);
    }
}

/// To bring a document up to date keeps the tables well formed.
pub proof fn lemma_with_document_wf(tables: Tables, doc: DocumentView)
    requires
        tables.wf(),
        !tables.documents_full_for(doc),
    ensures
        tables.with_document(doc).wf(),
        tables.with_document(doc).documents.has(tables.id_for(doc)),
{
    let after = tables.with_document(doc);
    lemma_latest(tables.documents, doc.filepath, tables.documents.rows.len() as int);
    match tables.documents.latest(doc.filepath) {
        Some(i) => {
            assert(after.documents.rows[i].id == tables.id_for(doc));
            lemma_with_stale_wf(
                Tables { documents: tables.documents.updated(i, doc), ..tables },
                tables,
                only(tables.id_for(doc)),
            );
        },
        None => {
            let n = tables.documents.rows.len() as int;
            assert(after.documents.rows[n].id == tables.id_for(doc));
            assert forall|k: int| 0 <= k < after.embeddings.rows.len() implies after.documents.has(
                (#[trigger] after.embeddings.rows[k]).document_id,
            ) && after.models.has(after.embeddings.rows[k].model_id) by {
                let id = tables.embeddings.rows[k].document_id;
                let d = choose|d: int|
                    0 <= d < n && (#[trigger] tables.documents.rows[d]).id == id;
                assert(after.documents.rows[d].id == id);
            }
        },
    }
}

/// To mark embeddings as stale keeps the tables well formed; documents may have changed
/// in anything but their ids.
pub proof fn lemma_with_stale_wf(tables: Tables, before: Tables, selected: spec_fn(i64) -> bool)
    requires
        before.wf(),
        tables.documents.rows.len() == before.documents.rows.len(),
        tables.documents.last_id == before.documents.last_id,
        forall|i: int|
            0 <= i < before.documents.rows.len() ==> (#[trigger] tables.documents.rows[i]).id
                == before.documents.rows[i].id,
        tables.models == before.models,
        tables.embeddings == before.embeddings,
        tables.jobs == before.jobs,
    ensures
        tables.with_stale(selected).wf(),
{
    let after = tables.with_stale(selected);
    assert forall|i: int, j: int| 0 <= i < j < after.embeddings.rows.len() implies (
    #[trigger] after.embeddings.rows[i]).id < (#[trigger] after.embeddings.rows[j]).id
        && !chunk_test(
        after.embeddings.rows[i].document_id,
        after.embeddings.rows[i].model_id,
        after.embeddings.rows[i].chunk_type,
        after.embeddings.rows[i].chunk_start,
    )(after.embeddings.rows[j]) by {
        assert(before.embeddings.rows[i].id < before.embeddings.rows[j].id);
    }
    assert forall|k: int| 0 <= k < after.embeddings.rows.len() implies after.documents.has(
        (#[trigger] after.embeddings.rows[k]).document_id,
    ) && after.models.has(after.embeddings.rows[k].model_id) by {
        let id = before.embeddings.rows[k].document_id;
        assert(before.documents.has(id));
        let d = choose|d: int|
            0 <= d < before.documents.rows.len() && (#[trigger] before.documents.rows[d]).id == id;
        assert(after.documents.rows[d].id == id);
    }
}

/// To remove embeddings keeps the tables well formed.
pub proof fn lemma_without_wf(tables: Tables, p: spec_fn(EmbeddingRow) -> bool)
    requires
        tables.wf(),
    ensures
        (Tables {
            embeddings: Embeddings {
                rows: without(tables.embeddings.rows, p),
                ..tables.embeddings
            },
            ..tables
        }).wf(),
{
    let before = tables.embeddings.rows;
    let rows = without(before, p);
    assert forall|i: int| 0 <= i < rows.len() implies 0 < (#[trigger] rows[i]).id
        <= tables.embeddings.last_id && tables.documents.has(rows[i].document_id)
        && tables.models.has(rows[i].model_id) by {
        let o = lemma_without_origin(before, p, i);
        assert(before[o].id > 0);
    }
    assert forall|i: int, j: int| 0 <= i < j < rows.len() implies (#[trigger] rows[i]).id < (
    #[trigger] rows[j]).id && !chunk_test(
        rows[i].document_id,
        rows[i].model_id,
        rows[i].chunk_type,
        rows[i].chunk_start,
    )(rows[j]) by {
        let o = lemma_without_order(before, p, i, j);
        assert(before[o.0].id < before[o.1].id);
    }
}

/// To store chunks keeps the tables well formed.
pub proof fn lemma_with_chunks_wf(
    tables: Tables,
    document_id: i64,
    model_id: i64,
    writes: Seq<ChunkWrite>,
    now: i64,
)
    requires
        tables.wf(),
        tables.may_hold(document_id, model_id, writes.len()),
        tables.room_for_chunks(document_id, model_id, writes, now),
    ensures
        tables.with_chunks(document_id, model_id, writes, now).wf(),
        tables.embeddings.written(document_id, model_id, writes, now).last_id
            <= tables.embeddings.last_id + writes.len(),
        tables.embeddings.written(document_id, model_id, writes, now).rows.len()
            <= tables.embeddings.rows.len() + writes.len(),
    decreases writes.len(),
{
    if writes.len() > 0 {
        lemma_with_chunks_wf(tables, document_id, model_id, writes.drop_last(), now);
        let before = tables.with_chunks(document_id, model_id, writes.drop_last(), now);
        let after = tables.with_chunks(document_id, model_id, writes, now);
        let write = writes.last();
        let p = chunk_test(document_id, model_id, write.chunk_type, write.chunk_start);
        lemma_first_where_is_first(before.embeddings.rows, p);
        let b = before.embeddings.rows;
        let a = after.embeddings.rows;
        assert forall|i: int, j: int| 0 <= i < j < a.len() implies (#[trigger] a[i]).id < (
        #[trigger] a[j]).id && !chunk_test(
            a[i].document_id,
            a[i].model_id,
            a[i].chunk_type,
            a[i].chunk_start,
        )(a[j]) by {
            if j < b.len() {
                assert(b[i].id < b[j].id);
            } else {
                assert(!p(b[i]));
            }
        }
    }
}

/// To queue jobs keeps the tables well formed.
pub proof fn lemma_seeded_wf(
    jobs: Jobs,
    rows: Seq<EmbeddingRow>,
    selected: spec_fn(i64) -> bool,
    now: i64,
)
    requires
        jobs.wf(),
        has_ids_for_jobs(jobs, rows, selected, now),
    ensures
        seeded(jobs, rows, selected, now).wf(),
        seeded(jobs, rows, selected, now).last_id <= jobs.last_id + rows.len(),
    decreases rows.len(),
{
    if rows.len() > 0 {
        lemma_seeded_wf(jobs, rows.drop_last(), selected, now);
        let before = seeded(jobs, rows.drop_last(), selected, now);
        let row = rows.last();
        if needs_job(before, row, selected, now as int) {
            lemma_enqueue_wf(
                before,
                JobType::EmbedDocument.name(),
                embed_payload(row.document_id as int, row.model_id as int),
                now,
            );
        }
    }
}

/// Where there are ids for all jobs, there are for those of the first rows.
pub proof fn lemma_ids_for_first_jobs(
    jobs: Jobs,
    rows: Seq<EmbeddingRow>,
    selected: spec_fn(i64) -> bool,
    now: i64,
    n: int,
)
    requires
        has_ids_for_jobs(jobs, rows, selected, now),
        0 <= n <= rows.len(),
    ensures
        has_ids_for_jobs(jobs, rows.take(n), selected, now),
    decreases rows.len(),
{
    if n < rows.len() {
        lemma_ids_for_first_jobs(jobs, rows.drop_last(), selected, now, n);
        assert(rows.drop_last().take(n) =~= rows.take(n));
    } else {
        assert(rows.take(n) =~= rows);
    }
}

/// Where there are ids for all chunks, there are for the first ones.
pub proof fn lemma_ids_for_first_chunks(
    embeddings: Embeddings,
    document_id: i64,
    model_id: i64,
    writes: Seq<ChunkWrite>,
    now: i64,
    n: int,
)
    requires
        embeddings.has_ids_for(document_id, model_id, writes, now),
        0 <= n <= writes.len(),
    ensures
        embeddings.has_ids_for(document_id, model_id, writes.take(n), now),
    decreases writes.len(),
{
    if n < writes.len() {
        lemma_ids_for_first_chunks(
            embeddings,
            document_id,
            model_id,
            writes.drop_last(),
            now,
            n,
        );
        assert(writes.drop_last().take(n) =~= writes.take(n));
    } else {
        assert(writes.take(n) =~= writes);
    }
}

/// There are ids for all jobs where there is one for each embedding.
pub proof fn lemma_ids_left_for_jobs(
    jobs: Jobs,
    rows: Seq<EmbeddingRow>,
    selected: spec_fn(i64) -> bool,
    now: i64,
)
    requires
        jobs.last_id + rows.len() <= i64::MAX,
    ensures
        has_ids_for_jobs(jobs, rows, selected, now),
        seeded(jobs, rows, selected, now).last_id <= jobs.last_id + rows.len(),
    decreases rows.len(),
{
    if rows.len() > 0 {
        lemma_ids_left_for_jobs(jobs, rows.drop_last(), selected, now);
    }
}

/// There are ids for all chunks where there is one for each.
pub proof fn lemma_ids_left_for_chunks(
    embeddings: Embeddings,
    document_id: i64,
    model_id: i64,
    writes: Seq<ChunkWrite>,
    now: i64,
)
    requires
        embeddings.last_id + writes.len() <= i64::MAX,
    ensures
        embeddings.has_ids_for(document_id, model_id, writes, now),
        embeddings.written(document_id, model_id, writes, now).last_id <= embeddings.last_id
            + writes.len(),
    decreases writes.len(),
{
    if writes.len() > 0 {
        lemma_ids_left_for_chunks(embeddings, document_id, model_id, writes.drop_last(), now);
    }
}

/// Which documents are selected: just the one, all of them, or those of a list that are
/// there.
pub proof fn lemma_selected(documents: Documents, ids: Seq<i64>, id: i64, other: i64)
    ensures
        only(id)(other) <==> other == id,
        every()(id),
        known(documents, ids)(id) <==> documents.has(id) && exists|i: int|
            0 <= i < ids.len() && #[trigger] ids[i] == id,
{
    if ids.contains(id) {
        let i = choose|i: int| 0 <= i < ids.len() && ids[i] == id;
        assert(ids[i] == id);
    }
}

} // verus!
