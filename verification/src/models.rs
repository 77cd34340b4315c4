//! The rows that the store keeps and the values that are read from them.
//!
//! Each type has a view, in which texts are sequences of characters.

use crate::types::{ChunkType, DocCategory, EmbedState, JobType};
use vstd::prelude::*;

verus! {

/// The pattern that an ingest uses where the request names none: every path.
pub const DEFAULT_FILE_PATTERN: &'static str = ".*";

/// A tracked file on the host machine.
#[derive(Clone, Debug, PartialEq, Eq)]
pub struct Document {
    pub id: i64,
    pub filepath: String,
    pub file_type: String,
    pub doc_category: DocCategory,
    pub file_modified_at: i64,
    pub file_size: i64,
    pub updated_at: i64,
}

/// The view of a [`Document`].
pub struct DocumentView {
    pub id: i64,
    pub filepath: Seq<char>,
    pub file_type: Seq<char>,
    pub doc_category: DocCategory,
    pub file_modified_at: i64,
    pub file_size: i64,
    pub updated_at: i64,
}

impl View for Document {
    type V = DocumentView;

    open spec fn view(&self) -> DocumentView {
        DocumentView {
            id: self.id,
            filepath: self.filepath@,
            file_type: self.file_type@,
            doc_category: self.doc_category,
            file_modified_at: self.file_modified_at,
            file_size: self.file_size,
            updated_at: self.updated_at,
        }
    }
}

/// A document as the store keeps it, with its category by name.
#[derive(Clone, Debug, PartialEq, Eq)]
pub struct StoredDocument {
    pub id: i64,
    pub filepath: String,
    pub file_type: String,
    pub doc_category: String,
    pub file_modified_at: i64,
    pub file_size: i64,
    pub updated_at: i64,
}

/// The view of a [`StoredDocument`].
pub struct DocumentRow {
    pub id: i64,
    pub filepath: Seq<char>,
    pub file_type: Seq<char>,
    pub doc_category: Seq<char>,
    pub file_modified_at: i64,
    pub file_size: i64,
    pub updated_at: i64,
}

impl View for StoredDocument {
    type V = DocumentRow;

    open spec fn view(&self) -> DocumentRow {
        DocumentRow {
            id: self.id,
            filepath: self.filepath@,
            file_type: self.file_type@,
            doc_category: self.doc_category@,
            file_modified_at: self.file_modified_at,
            file_size: self.file_size,
            updated_at: self.updated_at,
        }
    }
}

impl DocumentView {
    /// The row that keeps this document.
    pub open spec fn row(self) -> DocumentRow {
        DocumentRow {
            id: self.id,
            filepath: self.filepath,
            file_type: self.file_type,
            doc_category: self.doc_category.name(),
            file_modified_at: self.file_modified_at,
            file_size: self.file_size,
            updated_at: self.updated_at,
        }
    }
}

/// What decides whether stored embeddings can be used again: how they were made, not
/// where.
#[derive(Clone, Debug, PartialEq, Eq)]
pub struct EmbeddingIdentity {
    /// The name by which the provider knows the model.
    pub name: String,
    /// The number of values of each vector.
    pub dimensions: i64,
    /// The size that content is split by.
    pub chunk_size: i64,
    /// How much neighbouring chunks share.
    pub chunk_overlap: i64,
}

/// The view of an [`EmbeddingIdentity`].
pub struct IdentityView {
    pub name: Seq<char>,
    pub dimensions: i64,
    pub chunk_size: i64,
    pub chunk_overlap: i64,
}

impl View for EmbeddingIdentity {
    type V = IdentityView;

    open spec fn view(&self) -> IdentityView {
        IdentityView {
            name: self.name@,
            dimensions: self.dimensions,
            chunk_size: self.chunk_size,
            chunk_overlap: self.chunk_overlap,
        }
    }
}

/// An embedding model known to the system.
#[derive(Clone, Debug, PartialEq, Eq)]
pub struct EmbeddingModel {
    pub id: i64,
    pub name: String,
    pub dimensions: i64,
    pub chunk_size: i64,
    pub chunk_overlap: i64,
    pub created_at: i64,
}

/// The view of an [`EmbeddingModel`].
pub struct ModelView {
    pub id: i64,
    pub name: Seq<char>,
    pub dimensions: i64,
    pub chunk_size: i64,
    pub chunk_overlap: i64,
    pub created_at: i64,
}

impl View for EmbeddingModel {
    type V = ModelView;

    open spec fn view(&self) -> ModelView {
        ModelView {
            id: self.id,
            name: self.name@,
            dimensions: self.dimensions,
            chunk_size: self.chunk_size,
            chunk_overlap: self.chunk_overlap,
            created_at: self.created_at,
        }
    }
}

impl ModelView {
    pub open spec fn identity(self) -> IdentityView {
        IdentityView {
            name: self.name,
            dimensions: self.dimensions,
            chunk_size: self.chunk_size,
            chunk_overlap: self.chunk_overlap,
        }
    }
}

/// One embedding: of a chunk of a document, for a model.
#[derive(Clone, Debug, PartialEq, Eq)]
pub struct DocumentEmbedding {
    pub id: i64,
    pub document_id: i64,
    pub model_id: i64,
    pub chunk_type: ChunkType,
    pub chunk_start: i64,
    pub chunk_end: i64,
    pub state: EmbedState,
    pub embedding: Option<Vec<u8>>,
    pub created_at: i64,
}

/// The view of a [`DocumentEmbedding`].
pub struct EmbeddingRow {
    pub id: i64,
    pub document_id: i64,
    pub model_id: i64,
    pub chunk_type: ChunkType,
    pub chunk_start: i64,
    pub chunk_end: i64,
    pub state: EmbedState,
    pub embedding: Option<Seq<u8>>,
    pub created_at: i64,
}

impl View for DocumentEmbedding {
    type V = EmbeddingRow;

    open spec fn view(&self) -> EmbeddingRow {
        EmbeddingRow {
            id: self.id,
            document_id: self.document_id,
            model_id: self.model_id,
            chunk_type: self.chunk_type,
            chunk_start: self.chunk_start,
            chunk_end: self.chunk_end,
            state: self.state,
            embedding: match self.embedding {
                Some(bytes) => Some(bytes@),
                None => None,
            },
            created_at: self.created_at,
        }
    }
}

/// One embedding, ready to be stored.
#[derive(Clone, Debug, PartialEq, Eq)]
pub struct EmbeddedChunk {
    /// Whether the filename or a chunk of the content is embedded.
    pub chunk_type: ChunkType,
    /// The first byte of the chunk in the text.
    pub chunk_start: i64,
    /// The byte after the last one of the chunk in the text.
    pub chunk_end: i64,
    /// The bytes of the vector.
    pub embedding: Vec<u8>,
}

/// A job that was claimed from the queue.
#[derive(Clone, Debug, PartialEq, Eq)]
pub struct JobQueueEntry {
    pub id: i64,
    pub job_type: JobType,
    pub payload: String,
    pub claimed_at: Option<i64>,
    pub created_at: i64,
}

/// A job as the store keeps it, with its type by name.
///
/// No two jobs of the queue have the same type and payload, so that no two workers do
/// the same work.
#[derive(Clone, Debug, PartialEq, Eq)]
pub struct StoredJob {
    pub id: i64,
    pub job_type: String,
    pub payload: String,
    pub claimed_at: Option<i64>,
    pub created_at: i64,
}

/// The view of a [`StoredJob`].
pub struct JobRow {
    pub id: i64,
    pub job_type: Seq<char>,
    pub payload: Seq<char>,
    pub claimed_at: Option<i64>,
    pub created_at: i64,
}

impl View for StoredJob {
    type V = JobRow;

    open spec fn view(&self) -> JobRow {
        JobRow {
            id: self.id,
            job_type: self.job_type@,
            payload: self.payload@,
            claimed_at: self.claimed_at,
            created_at: self.created_at,
        }
    }
}

impl View for JobQueueEntry {
    type V = JobRow;

    open spec fn view(&self) -> JobRow {
        JobRow {
            id: self.id,
            job_type: self.job_type.name(),
            payload: self.payload@,
            claimed_at: self.claimed_at,
            created_at: self.created_at,
        }
    }
}

/// A chunk that was found near a query, with its document.
#[derive(Clone, Debug, PartialEq, Eq)]
pub struct DocumentSearchResult {
    pub document_id: i64,
    pub filepath: String,
    pub file_type: String,
    pub doc_category: DocCategory,
    pub file_modified_at: i64,
    pub file_size: i64,
    pub document_updated_at: i64,
    pub embedding_id: i64,
    pub model_id: i64,
    pub chunk_type: ChunkType,
    pub chunk_start: i64,
    pub chunk_end: i64,
    /// The distance from the query: the bits of a double precision number.
    pub distance: u64,
}

/// A document whose path was found near a query.
#[derive(Clone, Debug, PartialEq, Eq)]
pub struct DocumentFilepathSearchResult {
    pub document_id: i64,
    pub filepath: String,
    /// How near it is: the bits of a double precision number.
    pub match_score: u64,
}

/// What an ingest job works on.
#[derive(Clone, Debug, PartialEq, Eq)]
pub struct IngestFolderPayload {
    pub root_path: String,
    pub file_pattern: String,
}

/// What an embedding job works on.
#[derive(Clone, Copy, Debug, PartialEq, Eq, Structural)]
pub struct EmbedDocumentPayload {
    pub document_id: i64,
    pub model_id: i64,
}

} // verus!
