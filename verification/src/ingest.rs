//! Ingest: which files count, what is queued for them, and what a new model needs.

use crate::chunking::{plan_chunks, planned_spans, smaller, ChunkPlan, ChunkSpan, ChunkStrategy};
use crate::content::{ContentReadPlan, CONTENT_BYTE_BUDGET};
use crate::git::{binary_extension, lower_text, should_skip_git_candidate};
use crate::json::{members_view, object_text, render_object, JsonScalar, ScalarView};
use crate::models::{Document, DocumentView, EmbeddingModel, ModelView};
use crate::paths::{
    extension, is_name, lemma_file_name, normalize_relative_path, spec_extension, spec_join,
    spec_relative_path,
};
use crate::patterns::{compile_file_pattern, compiled_pattern, FilePattern, PatternError};
use crate::repository::{
    find_model_by_id, ingest_document, insert_pending_embeddings, seed_embed_jobs, RepositoryError,
};
use crate::rows::first_where;
use crate::store::{every, model_id_test, pending_writes, FingerprintRow, Store, Tables};
use crate::text::{lemma_text_less, signed_decimal, signed_decimal_of};
use crate::types::{ChunkType, DocCategory};
use vstd::prelude::*;

verus! {

/// A size that is kept as a signed number, as a size: nothing negative limits anything.
pub open spec fn spec_size(n: i64) -> int {
    if n < 0 {
        usize::MAX as int
    } else {
        smaller(n as int, usize::MAX as int)
    }
}

pub(crate) fn to_size(n: i64) -> (size: usize)
    ensures
        size == spec_size(n),
{
    if n < 0 || n as u64 > usize::MAX as u64 {
        usize::MAX
    } else {
        n as usize
    }
}

/// A place in a text, as it is kept.
pub open spec fn spec_offset(n: int) -> i64 {
    smaller(n, i64::MAX as int) as i64
}

pub(crate) fn to_offset(n: usize) -> (offset: i64)
    ensures
        offset == spec_offset(n as int),
{
    if n as u64 > i64::MAX as u64 {
        i64::MAX
    } else {
        n as i64
    }
}

/// The chunks that are queued for a document, and how they were planned.
#[derive(Clone, Debug, PartialEq, Eq)]
pub struct PlannedEmbeddings {
    pub chunks: Vec<(ChunkType, i64, i64)>,
    pub metadata_json: String,
}

/// The spans of the content of a document for a model.
pub open spec fn content_spans(content: Option<Seq<char>>, model: ModelView) -> Seq<ChunkSpan> {
    match content {
        Some(content) => planned_spans(
            content,
            spec_size(model.chunk_size),
            spec_size(model.chunk_overlap),
        ),
        None => seq![],
    }
}

/// The chunks of a document: its filename, and the spans of its content.
pub open spec fn planned_chunks(spans: Seq<ChunkSpan>) -> Seq<(ChunkType, i64, i64)> {
    seq![(ChunkType::Filename, 0i64, 0i64)] + spans.map_values(
        |span: ChunkSpan|
            (ChunkType::Content, spec_offset(span.start as int), spec_offset(span.end as int)),
    )
}

/// How a document's chunks were planned, in JSON.
pub open spec fn spec_metadata_json(
    strategy: Seq<char>,
    chunk_count: int,
    content_utf8: bool,
    content_truncated: bool,
    content_bytes_indexed: int,
    content_byte_budget: int,
) -> Seq<char> {
    object_text(
        seq![
            ("content_byte_budget"@, ScalarView::Number(content_byte_budget)),
            ("content_bytes_indexed"@, ScalarView::Number(content_bytes_indexed)),
            ("content_truncated"@, ScalarView::Flag(content_truncated)),
            ("content_utf8"@, ScalarView::Flag(content_utf8)),
            ("planned_chunk_count"@, ScalarView::Number(chunk_count)),
            ("strategy"@, ScalarView::Text(strategy)),
        ],
    )
}

/// How a document's chunks were planned, in JSON.
pub fn metadata_json(
    strategy: &str,
    chunk_count: usize,
    content_utf8: bool,
    content_truncated: bool,
    content_bytes_indexed: usize,
    content_byte_budget: usize,
) -> (text: String)
    ensures
        text@ == spec_metadata_json(
            strategy@,
            chunk_count as int,
            content_utf8,
            content_truncated,
            content_bytes_indexed as int,
            content_byte_budget as int,
        ),
{
    let mut members: Vec<(&'static str, JsonScalar)> = Vec::new();
    members.push(("content_byte_budget", JsonScalar::Count(content_byte_budget)));
    members.push(("content_bytes_indexed", JsonScalar::Count(content_bytes_indexed)));
    members.push(("content_truncated", JsonScalar::Flag(content_truncated)));
    members.push(("content_utf8", JsonScalar::Flag(content_utf8)));
    members.push(("planned_chunk_count", JsonScalar::Count(chunk_count)));
    members.push(("strategy", JsonScalar::Text(strategy.to_owned())));
    proof {
        lemma_metadata_keys();
        assert(members_view(members@) =~= seq![
            ("content_byte_budget"@, ScalarView::Number(content_byte_budget as int)),
            ("content_bytes_indexed"@, ScalarView::Number(content_bytes_indexed as int)),
            ("content_truncated"@, ScalarView::Flag(content_truncated)),
            ("content_utf8"@, ScalarView::Flag(content_utf8)),
            ("planned_chunk_count"@, ScalarView::Number(chunk_count as int)),
            ("strategy"@, ScalarView::Text(strategy@)),
        ]);
    }
    render_object(members)
}

/// The keys are in their order.
proof fn lemma_metadata_keys()
    ensures
        crate::text::text_less("content_byte_budget"@, "content_bytes_indexed"@),
        crate::text::text_less("content_bytes_indexed"@, "content_truncated"@),
        crate::text::text_less("content_truncated"@, "content_utf8"@),
        crate::text::text_less("content_utf8"@, "planned_chunk_count"@),
        crate::text::text_less("planned_chunk_count"@, "strategy"@),
{
    reveal_strlit("content_byte_budget");
    reveal_strlit("content_bytes_indexed");
    reveal_strlit("content_truncated");
    reveal_strlit("content_utf8");
    reveal_strlit("planned_chunk_count");
    reveal_strlit("strategy");
    lemma_text_less("content_byte_budget"@, "content_bytes_indexed"@, 12);
    lemma_text_less("content_bytes_indexed"@, "content_truncated"@, 8);
    lemma_text_less("content_truncated"@, "content_utf8"@, 8);
    lemma_text_less("content_utf8"@, "planned_chunk_count"@, 0);
    lemma_text_less("planned_chunk_count"@, "strategy"@, 0);
}

/// Plans the chunks of the document at `path` for a model: its filename and, where it
/// has content, the spans of its content.
pub fn plan_pending_embeddings_for_content(
    path: &str,
    content: Option<&str>,
    content_truncated: bool,
    content_bytes_indexed: usize,
    content_byte_budget: usize,
    model: &EmbeddingModel,
) -> (planned: PlannedEmbeddings)
    ensures
        ({
            let text = match content {
                Some(content) => if content@.len() > 0 {
                    Some(content@)
                } else {
                    None
                },
                None => None,
            };
            let spans = content_spans(text, model@);
            &&& planned.chunks@ == planned_chunks(spans)
            &&& planned.metadata_json@ == spec_metadata_json(
                ChunkStrategy::Structure.spec_as_str(),
                spans.len() as int,
                text is Some,
                content_truncated,
                content_bytes_indexed as int,
                content_byte_budget as int,
            )
        }),
{
    let mut chunks: Vec<(ChunkType, i64, i64)> = Vec::new();
    chunks.push((ChunkType::Filename, 0, 0));
    let plan: Option<ChunkPlan> = match content {
        Some(content) => if content.is_empty() {
            None
        } else {
            Some(
                plan_chunks(
                    path,
                    content,
                    to_size(model.chunk_size),
                    to_size(model.chunk_overlap),
                ),
            )
        },
        None => None,
    };
    match plan {
        Some(plan) => {
            let ghost spans = plan.spans@;
            let ghost all = planned_chunks(spans);
            let mut i: usize = 0;
            proof {
                assert(chunks@ =~= all.take(1));
            }
            while i < plan.spans.len()
                invariant
                    i <= plan.spans.len(),
                    spans == plan.spans@,
                    all == planned_chunks(spans),
                    chunks@ == all.take(i + 1),
                decreases plan.spans.len() - i,
            {
                let span: ChunkSpan = plan.spans[i];
                chunks.push((ChunkType::Content, to_offset(span.start), to_offset(span.end)));
                proof {
                    assert(chunks@ =~= all.take(i + 2));
                }
                i = i + 1;
            }
            proof {
                assert(all.take(i + 1) =~= all);
            }
            PlannedEmbeddings {
                chunks,
                metadata_json: plan_metadata_json(
                    &plan,
                    content_truncated,
                    content_bytes_indexed,
                    content_byte_budget,
                ),
            }
        },
        None => {
            proof {
                assert(chunks@ =~= planned_chunks(seq![]));
            }
            PlannedEmbeddings {
                chunks,
                metadata_json: metadata_json(
                    "structure",
                    0,
                    false,
                    content_truncated,
                    content_bytes_indexed,
                    content_byte_budget,
                ),
            }
        },
    }
}

fn plan_metadata_json(
    plan: &ChunkPlan,
    content_truncated: bool,
    content_bytes_indexed: usize,
    content_byte_budget: usize,
) -> (text: String)
    ensures
        text@ == spec_metadata_json(
            plan.strategy@,
            plan.spans@.len() as int,
            true,
            content_truncated,
            content_bytes_indexed as int,
            content_byte_budget as int,
        ),
{
    metadata_json(
        plan.strategy,
        plan.spans.len(),
        true,
        content_truncated,
        content_bytes_indexed,
        content_byte_budget,
    )
}

/// The content that was read, if there is any.
pub open spec fn read_text(plan: ContentReadPlan) -> Option<Seq<char>> {
    match plan.content {
        Some(content) => if content@.len() > 0 {
            Some(content@)
        } else {
            None
        },
        None => None,
    }
}

/// What is queued for a file of which `plan` was read.
pub open spec fn is_planned(
    planned: PlannedEmbeddings,
    plan: ContentReadPlan,
    model: ModelView,
) -> bool {
    let spans = content_spans(read_text(plan), model);
    &&& planned.chunks@ == planned_chunks(spans)
    &&& planned.metadata_json@ == spec_metadata_json(
        ChunkStrategy::Structure.spec_as_str(),
        spans.len() as int,
        read_text(plan) is Some,
        plan.content_truncated,
        plan.content_bytes_indexed as int,
        plan.content_byte_budget as int,
    )
}

/// Plans the chunks of a file of which `content_plan` was read.
pub fn plan_pending_embeddings_for_read_plan(
    path: &str,
    content_plan: &ContentReadPlan,
    model: &EmbeddingModel,
) -> (planned: PlannedEmbeddings)
    ensures
        is_planned(planned, *content_plan, model@),
{
    let content: Option<&str> = match &content_plan.content {
        Some(content) => Some(content.as_str()),
        None => None,
    };
    plan_pending_embeddings_for_content(
        path,
        content,
        content_plan.content_truncated,
        content_plan.content_bytes_indexed,
        content_plan.content_byte_budget,
        model,
    )
}

/// Whether a file that was come across is ingested: it lies below the root of the
/// request, the pattern selects its path there, and, if `apply_git_filters`, it holds
/// text by its extension.
pub open spec fn spec_wants_candidate(
    request_root: Seq<char>,
    candidate: Seq<char>,
    pattern: Set<Seq<char>>,
    apply_git_filters: bool,
) -> bool {
    &&& spec_relative_path(request_root, candidate) matches Some(relative) && pattern.contains(
        relative,
    )
    &&& apply_git_filters ==> !(spec_extension(candidate) matches Some(e) && binary_extension(
        lower_text(e),
    ))
}

/// Whether a file that was come across is ingested.
pub fn wants_candidate(
    request_root: &str,
    candidate_path: &str,
    file_pattern: &FilePattern,
    apply_git_filters: bool,
) -> (wanted: bool)
    ensures
        wanted == spec_wants_candidate(
            request_root@,
            candidate_path@,
            file_pattern@,
            apply_git_filters,
        ),
{
    match normalize_relative_path(request_root, candidate_path) {
        Some(relative) => {
            if !file_pattern.is_match(relative.as_str()) {
                return false;
            }
            !(apply_git_filters && should_skip_git_candidate(candidate_path))
        },
        None => false,
    }
}

/// What a job that ingests a directory starts with.
pub enum IngestStart {
    /// The directory is gone; the job is done with.
    Gone,
    /// The pattern that selects files, and the model to embed them with.
    Ready { pattern: FilePattern, model: EmbeddingModel },
}

/// Why a job that ingests a directory cannot start.
#[derive(Clone, Debug, PartialEq, Eq)]
pub enum IngestStartError {
    /// Its pattern is no regular expression.
    Pattern { job_id: i64, error: PatternError },
    /// The model is not there.
    ModelNotFound { model_id: i64, job_id: i64 },
}

impl IngestStartError {
    pub open spec fn spec_message(&self) -> Seq<char> {
        match self {
            IngestStartError::Pattern { job_id, error } =>
            "failed to compile file pattern for job "@ + signed_decimal(*job_id as int) + ": "@
                + error.message@,
            IngestStartError::ModelNotFound { model_id, job_id } => "embedding model "@
                + signed_decimal(*model_id as int) + " not found for job "@ + signed_decimal(
                *job_id as int,
            ),
        }
    }

    /// What was wrong, in words.
    pub fn message(&self) -> (text: String)
        ensures
            text@ == self.spec_message(),
    {
        match self {
            IngestStartError::Pattern { job_id, error } => String::from_str(
                "failed to compile file pattern for job ",
            ).concat(signed_decimal_of(*job_id).as_str()).concat(": ").concat(
                error.message.as_str(),
            ),
            IngestStartError::ModelNotFound { model_id, job_id } => String::from_str(
                "embedding model ",
            ).concat(signed_decimal_of(*model_id).as_str()).concat(" not found for job ").concat(
                signed_decimal_of(*job_id).as_str(),
            ),
        }
    }
}

/// Decides how a job that ingests a directory starts. A pattern that is no regular
/// expression fails it before anything else is looked at; a directory that is gone is
/// no failure; without its model the job fails.
pub fn begin_ingest(
    store: &Store,
    file_pattern: &str,
    root_is_dir: bool,
    model_id: i64,
    job_id: i64,
) -> (result: Result<IngestStart, IngestStartError>)
    ensures
        match result {
            Ok(IngestStart::Gone) => {
                &&& compiled_pattern(file_pattern@) is Ok
                &&& !root_is_dir
            },
            Ok(IngestStart::Ready { pattern, model }) => {
                &&& compiled_pattern(file_pattern@) == Ok::<Set<Seq<char>>, Seq<char>>(pattern@)
                &&& root_is_dir
                &&& first_where(store@.models.rows, model_id_test(model_id)) matches Some(i)
                    && model@ == store@.models.rows[i] && model.id == model_id
            },
            Err(IngestStartError::Pattern { job_id: j, error }) => {
                &&& compiled_pattern(file_pattern@) is Err
                &&& j == job_id
                &&& error.message@ == "invalid file pattern stored in queued job: "@
                    + file_pattern@
            },
            Err(IngestStartError::ModelNotFound { model_id: m, job_id: j }) => {
                &&& compiled_pattern(file_pattern@) is Ok
                &&& root_is_dir
                &&& !store@.models.has(model_id)
                &&& m == model_id
                &&& j == job_id
            },
        },
{
    let pattern: FilePattern = match compile_file_pattern(file_pattern) {
        Ok(pattern) => pattern,
        Err(error) => {
            return Err(IngestStartError::Pattern { job_id, error });
        },
    };
    if !root_is_dir {
        return Ok(IngestStart::Gone);
    }
    match find_model_by_id(store, model_id) {
        Some(model) => Ok(IngestStart::Ready { pattern, model }),
        None => Err(IngestStartError::ModelNotFound { model_id, job_id }),
    }
}

/// What was found out of a file before it is ingested.
#[derive(Clone, Debug)]
pub enum CandidateFacts {
    /// Its path, metadata or bytes could not be read, or it is no file.
    Unusable,
    /// A file.
    File {
        /// Its canonical path.
        filepath: String,
        /// When it was modified, if that is known.
        modified_at: Option<i64>,
        size: i64,
        hash: String,
        /// What was read of it; `None` where that failed.
        content: Option<ContentReadPlan>,
    },
}

/// The document that stands for a file.
pub open spec fn document_for(
    filepath: Seq<char>,
    modified_at: Option<i64>,
    size: i64,
    now: i64,
) -> DocumentView {
    DocumentView {
        id: 0,
        filepath,
        file_type: match spec_extension(filepath) {
            Some(e) => e,
            None => seq![],
        },
        doc_category: DocCategory::Resource,
        file_modified_at: match modified_at {
            Some(t) => t,
            None => now,
        },
        file_size: size,
        updated_at: now,
    }
}

fn make_document(filepath: &str, modified_at: Option<i64>, size: i64, now: i64) -> (doc: Document)
    ensures
        doc@ == document_for(filepath@, modified_at, size, now),
{
    let file_type: String = match extension(filepath) {
        Some(e) => e,
        None => {
            let none = String::new();
            proof {
                assert(none@ =~= Seq::<char>::empty());
            }
            none
        },
    };
    Document {
        id: 0,
        filepath: filepath.to_owned(),
        file_type,
        doc_category: DocCategory::Resource,
        file_modified_at: match modified_at {
            Some(t) => t,
            None => now,
        },
        file_size: size,
        updated_at: now,
    }
}

/// The content of a file of which `content` was read; `None` where that failed.
pub open spec fn facts_text(content: Option<ContentReadPlan>) -> Option<Seq<char>> {
    match content {
        Some(plan) => read_text(plan),
        None => None,
    }
}

/// The chunks that are queued for a file of which `content` was read: its filename
/// alone where that failed.
pub open spec fn facts_chunks(content: Option<ContentReadPlan>, model: ModelView) -> Seq<
    (ChunkType, i64, i64),
> {
    planned_chunks(content_spans(facts_text(content), model))
}

/// How they were planned.
pub open spec fn facts_metadata(content: Option<ContentReadPlan>, model: ModelView) -> Seq<char> {
    let spans = content_spans(facts_text(content), model);
    spec_metadata_json(
        ChunkStrategy::Structure.spec_as_str(),
        spans.len() as int,
        facts_text(content) is Some,
        match content {
            Some(plan) => plan.content_truncated,
            None => false,
        },
        match content {
            Some(plan) => plan.content_bytes_indexed as int,
            None => 0,
        },
        match content {
            Some(plan) => plan.content_byte_budget as int,
            None => CONTENT_BYTE_BUDGET as int,
        },
    )
}

/// Plans the chunks of a file of which `content` was read.
fn plan_for_facts(path: &str, content: &Option<ContentReadPlan>, model: &EmbeddingModel) -> (planned:
    PlannedEmbeddings)
    ensures
        planned.chunks@ == facts_chunks(*content, model@),
        planned.metadata_json@ == facts_metadata(*content, model@),
{
    match content {
        Some(plan) => plan_pending_embeddings_for_read_plan(path, plan, model),
        None => plan_pending_embeddings_for_read_plan(
            path,
            &ContentReadPlan::filename_only(),
            model,
        ),
    }
}

impl Tables {
    /// The tables after a file was ingested.
    pub open spec fn ingested(
        self,
        doc: DocumentView,
        hash: Seq<char>,
        content: Option<ContentReadPlan>,
        model: ModelView,
        now: i64,
    ) -> Tables {
        if self.differs(doc, hash) {
            self.replanned(doc, model.id, facts_chunks(content, model), now).with_fingerprint(
                FingerprintRow {
                    document_id: self.id_for(doc),
                    file_hash: hash,
                    metadata_json: facts_metadata(content, model),
                },
            )
        } else {
            self
        }
    }

    /// Whether a file can be ingested: what is kept at its path can be read and, where
    /// there is something to write, there is a model and there are ids for it.
    pub open spec fn takes(
        self,
        doc: DocumentView,
        hash: Seq<char>,
        chunks: Seq<(ChunkType, i64, i64)>,
        model_id: i64,
        now: i64,
    ) -> bool {
        &&& !self.unreadable(doc.filepath)
        &&& self.differs(doc, hash) ==> self.has_model_for(model_id, chunks.len())
            && !self.documents_full_for(doc) && self.room_to_replan(doc, model_id, chunks, now)
    }

    /// Why a file cannot be ingested.
    pub open spec fn refuses(
        self,
        error: RepositoryError,
        doc: DocumentView,
        hash: Seq<char>,
        chunks: Seq<(ChunkType, i64, i64)>,
        model_id: i64,
        now: i64,
    ) -> bool {
        match error {
            RepositoryError::Invalid(invalid) => {
                &&& self.unreadable(doc.filepath)
                &&& invalid.enumeration@ == "DocCategory"@
                &&& invalid.name@ == self.documents.rows[self.documents.latest(
                    doc.filepath,
                ).unwrap()].doc_category
            },
            RepositoryError::ForeignKey => {
                &&& !self.unreadable(doc.filepath)
                &&& self.differs(doc, hash)
                &&& !self.has_model_for(model_id, chunks.len())
            },
            RepositoryError::Full => {
                &&& !self.unreadable(doc.filepath)
                &&& self.differs(doc, hash)
                &&& self.has_model_for(model_id, chunks.len())
                &&& self.documents_full_for(doc) || !self.room_to_replan(
                    doc,
                    model_id,
                    chunks,
                    now,
                )
            },
            _ => false,
        }
    }
}

/// Ingests a file of which `facts` were found out; one that is of no use is passed
/// over. Gives the document's id and whether it was new or had changed.
pub fn ingest_candidate_file(
    store: &mut Store,
    facts: &CandidateFacts,
    model: &EmbeddingModel,
    now: i64,
) -> (result: Result<Option<(i64, bool)>, RepositoryError>)
    ensures
        match *facts {
            CandidateFacts::Unusable => result == Ok::<_, RepositoryError>(
                None::<(i64, bool)>,
            ) && final(store)@ == old(store)@,
            CandidateFacts::File { filepath, modified_at, size, hash, content } => {
                let doc = document_for(filepath@, modified_at, size, now);
                match result {
                    Ok(outcome) => {
                        &&& outcome == Some(
                            (old(store)@.id_for(doc), old(store)@.differs(doc, hash@)),
                        )
                        &&& old(store)@.takes(
                            doc,
                            hash@,
                            facts_chunks(content, model@),
                            model.id,
                            now,
                        )
                        &&& final(store)@ == old(store)@.ingested(
                            doc,
                            hash@,
                            content,
                            model@,
                            now,
                        )
                    },
                    Err(error) => {
                        &&& old(store)@.refuses(
                            error,
                            doc,
                            hash@,
                            facts_chunks(content, model@),
                            model.id,
                            now,
                        )
                        &&& final(store)@ == old(store)@
                    },
                }
            },
        },
        old(store)@.wf() ==> final(store)@.wf(),
{
    match facts {
        CandidateFacts::Unusable => Ok(None),
        CandidateFacts::File { filepath, modified_at, size, hash, content } => {
            let doc: Document = make_document(filepath.as_str(), *modified_at, *size, now);
            let planned: PlannedEmbeddings = plan_for_facts(filepath.as_str(), content, model);
            match ingest_document(
                store,
                &doc,
                hash.as_str(),
                planned.metadata_json.as_str(),
                model.id,
                planned.chunks.as_slice(),
                now,
            ) {
                Ok(outcome) => Ok(Some(outcome)),
                Err(error) => Err(error),
            }
        },
    }
}

/// A document as its file is now.
pub open spec fn refreshed(
    doc: DocumentView,
    modified_at: Option<i64>,
    size: i64,
    now: i64,
) -> DocumentView {
    DocumentView {
        file_modified_at: match modified_at {
            Some(t) => t,
            None => now,
        },
        file_size: size,
        updated_at: now,
        ..doc
    }
}

/// Plans a document again whose file has changed since its chunks were queued.
pub fn replan_document_from_path(
    store: &mut Store,
    doc: &Document,
    modified_at: Option<i64>,
    size: i64,
    hash: &str,
    content_plan: ContentReadPlan,
    model: &EmbeddingModel,
    now: i64,
) -> (result: Result<(i64, bool), RepositoryError>)
    ensures
        ({
            let updated = refreshed(doc@, modified_at, size, now);
            match result {
                Ok((id, changed)) => {
                    &&& id == old(store)@.id_for(updated)
                    &&& changed == old(store)@.differs(updated, hash@)
                    &&& old(store)@.takes(
                        updated,
                        hash@,
                        facts_chunks(Some(content_plan), model@),
                        model.id,
                        now,
                    )
                    &&& final(store)@ == old(store)@.ingested(
                        updated,
                        hash@,
                        Some(content_plan),
                        model@,
                        now,
                    )
                },
                Err(error) => {
                    &&& old(store)@.refuses(
                        error,
                        updated,
                        hash@,
                        facts_chunks(Some(content_plan), model@),
                        model.id,
                        now,
                    )
                    &&& final(store)@ == old(store)@
                },
            }
        }),
        old(store)@.wf() ==> final(store)@.wf(),
{
    let updated = Document {
        id: doc.id,
        filepath: doc.filepath.clone(),
        file_type: doc.file_type.clone(),
        doc_category: doc.doc_category,
        file_modified_at: match modified_at {
            Some(t) => t,
            None => now,
        },
        file_size: size,
        updated_at: now,
    };
    let content: Option<ContentReadPlan> = Some(content_plan);
    let planned: PlannedEmbeddings = plan_for_facts(doc.filepath.as_str(), &content, model);
    ingest_document(
        store,
        &updated,
        hash,
        planned.metadata_json.as_str(),
        model.id,
        planned.chunks.as_slice(),
        now,
    )
}

/// Queues the chunks of a document for a model.
pub fn queue_pending_embeddings_for_document(
    store: &mut Store,
    path: &str,
    doc_id: i64,
    content: &Option<ContentReadPlan>,
    model: &EmbeddingModel,
    now: i64,
) -> (result: Result<(), RepositoryError>)
    ensures
        ({
            let chunks = facts_chunks(*content, model@);
            match result {
                Ok(()) => {
                    &&& old(store)@.may_hold(doc_id, model.id, chunks.len())
                    &&& old(store)@.room_for_chunks(doc_id, model.id, pending_writes(chunks), now)
                    &&& final(store)@ == old(store)@.with_chunks(
                        doc_id,
                        model.id,
                        pending_writes(chunks),
                        now,
                    )
                },
                Err(error) => {
                    &&& error is ForeignKey && !old(store)@.may_hold(
                        doc_id,
                        model.id,
                        chunks.len(),
                    ) || error is Full && old(store)@.may_hold(doc_id, model.id, chunks.len())
                        && !old(store)@.room_for_chunks(
                        doc_id,
                        model.id,
                        pending_writes(chunks),
                        now,
                    )
                    &&& final(store)@ == old(store)@
                },
            }
        }),
        old(store)@.wf() ==> final(store)@.wf(),
{
    let planned: PlannedEmbeddings = plan_for_facts(path, content, model);
    insert_pending_embeddings(store, doc_id, model.id, planned.chunks.as_slice(), now)
}

/// A document of which the content was read for a new model.
#[derive(Clone, Debug)]
pub struct BackfillSource {
    pub document_id: i64,
    pub filepath: String,
    /// What was read of its file; `None` where that failed.
    pub content: Option<ContentReadPlan>,
}

impl Tables {
    /// The tables after the chunks of documents were queued for a model.
    pub open spec fn backfilled(
        self,
        sources: Seq<BackfillSource>,
        model: ModelView,
        now: i64,
    ) -> Tables
        decreases sources.len(),
    {
        if sources.len() == 0 {
            self
        } else {
            self.backfilled(sources.drop_last(), model, now).with_chunks(
                sources.last().document_id,
                model.id,
                pending_writes(facts_chunks(sources.last().content, model)),
                now,
            )
        }
    }

    /// Whether the chunks of documents can be queued for a model, one document after
    /// the other.
    pub open spec fn takes_backfill(
        self,
        sources: Seq<BackfillSource>,
        model: ModelView,
        now: i64,
    ) -> bool
        decreases sources.len(),
    {
        sources.len() > 0 ==> {
            let before = self.backfilled(sources.drop_last(), model, now);
            let chunks = facts_chunks(sources.last().content, model);
            let id = sources.last().document_id;
            &&& self.takes_backfill(sources.drop_last(), model, now)
            &&& before.may_hold(id, model.id, chunks.len())
            &&& before.room_for_chunks(id, model.id, pending_writes(chunks), now)
        }
    }

    /// Why the chunks of documents cannot be queued for a model, and what was queued:
    /// the chunks of the documents before the first that is refused.
    pub open spec fn backfill_stops(
        self,
        error: RepositoryError,
        sources: Seq<BackfillSource>,
        model: ModelView,
        now: i64,
        after: Tables,
    ) -> bool {
        exists|k: int| #[trigger]
            self.backfill_stops_at(k, error, sources, model, now, after)
    }

    /// Whether the document at `k` is the first that is refused, or, past the last
    /// document, whether there are no ids for the jobs.
    pub open spec fn backfill_stops_at(
        self,
        k: int,
        error: RepositoryError,
        sources: Seq<BackfillSource>,
        model: ModelView,
        now: i64,
        after: Tables,
    ) -> bool {
        &&& 0 <= k <= sources.len()
        &&& self.takes_backfill(sources.take(k), model, now)
        &&& after == self.backfilled(sources.take(k), model, now)
        &&& if k == sources.len() {
            error is Full && !after.room_for_jobs(every(), now)
        } else {
            let chunks = facts_chunks(sources[k].content, model);
            let id = sources[k].document_id;
            let held = after.may_hold(id, model.id, chunks.len());
            error is ForeignKey && !held || error is Full && held && !after.room_for_chunks(
                id,
                model.id,
                pending_writes(chunks),
                now,
            )
        }
    }
}

/// Where all documents can be queued, so can each after those before it.
proof fn lemma_takes_each(
    tables: Tables,
    sources: Seq<BackfillSource>,
    model: ModelView,
    now: i64,
    k: int,
)
    requires
        tables.takes_backfill(sources, model, now),
        0 <= k < sources.len(),
    ensures
        ({
            let before = tables.backfilled(sources.take(k), model, now);
            let chunks = facts_chunks(sources[k].content, model);
            let id = sources[k].document_id;
            &&& before.may_hold(id, model.id, chunks.len())
            &&& before.room_for_chunks(id, model.id, pending_writes(chunks), now)
        }),
    decreases sources.len(),
{
    let head = sources.drop_last();
    if k < head.len() {
        lemma_takes_each(tables, head, model, now, k);
        assert(head.take(k) =~= sources.take(k));
    } else {
        assert(head =~= sources.take(k));
    }
}

/// Where queueing documents stops, they cannot all be queued.
pub proof fn lemma_stops_is_refused(
    tables: Tables,
    error: RepositoryError,
    sources: Seq<BackfillSource>,
    model: ModelView,
    now: i64,
    after: Tables,
)
    requires
        tables.backfill_stops(error, sources, model, now, after),
    ensures
        !(tables.takes_backfill(sources, model, now) && tables.backfilled(
            sources,
            model,
            now,
        ).room_for_jobs(every(), now)),
{
    let k = choose|k: int| #[trigger]
        tables.backfill_stops_at(k, error, sources, model, now, after);
    if k < sources.len() {
        if tables.takes_backfill(sources, model, now) {
            lemma_takes_each(tables, sources, model, now, k);
        }
    } else {
        assert(sources.take(k) =~= sources);
    }
}

/// Queues the chunks of existing documents for a new model, and jobs to embed them.
/// Gives the number of documents. Where a document is refused, those before it stay
/// queued.
pub fn backfill_pending_for_model(
    store: &mut Store,
    model: &EmbeddingModel,
    sources: &[BackfillSource],
    now: i64,
) -> (result: Result<usize, RepositoryError>)
    ensures
        match result {
            Ok(count) => {
                &&& count == sources@.len()
                &&& old(store)@.takes_backfill(sources@, model@, now)
                &&& old(store)@.backfilled(sources@, model@, now).room_for_jobs(
                    every(),
                    now,
                )
                &&& final(store)@ == old(store)@.backfilled(sources@, model@, now).with_jobs(
                    every(),
                    now,
                )
            },
            Err(error) => old(store)@.backfill_stops(error, sources@, model@, now, final(store)@),
        },
        old(store)@.wf() ==> final(store)@.wf(),
{
    let mut count: usize = 0;
    proof {
        assert(sources@.take(0) =~= Seq::<BackfillSource>::empty());
    }
    while count < sources.len()
        invariant
            count <= sources.len(),
            store@ == old(store)@.backfilled(sources@.take(count as int), model@, now),
            old(store)@.takes_backfill(sources@.take(count as int), model@, now),
            old(store)@.wf() ==> store@.wf(),
        decreases sources.len() - count,
    {
        let source: &BackfillSource = &sources[count];
        proof {
            let next = sources@.take(count + 1);
            assert(next.drop_last() =~= sources@.take(count as int));
            assert(next.last() == sources@[count as int]);
        }
        match queue_pending_embeddings_for_document(
            store,
            source.filepath.as_str(),
            source.document_id,
            &source.content,
            model,
            now,
        ) {
            Ok(()) => {},
            Err(error) => {
                proof {
                    assert(old(store)@.backfill_stops_at(
                        count as int,
                        error,
                        sources@,
                        model@,
                        now,
                        store@,
                    ));
                }
                return Err(error);
            },
        }
        count = count + 1;
    }
    proof {
        assert(sources@.take(count as int) =~= sources@);
    }
    match seed_embed_jobs(store, now) {
        Ok(_) => Ok(count),
        Err(error) => {
            proof {
                assert(old(store)@.backfill_stops_at(
                    count as int,
                    error,
                    sources@,
                    model@,
                    now,
                    store@,
                ));
            }
            Err(error)
        },
    }
}

/// The chunks of a document, told one by one: first its filename, then each span of its
/// content at the place where it stands.
pub proof fn lemma_planned_chunks(spans: Seq<ChunkSpan>, i: int)
    requires
        0 <= i < spans.len(),
    ensures
        planned_chunks(spans).len() == 1 + spans.len(),
        planned_chunks(spans)[0] == (ChunkType::Filename, 0i64, 0i64),
        planned_chunks(spans)[1 + i].0 == ChunkType::Content,
        spans[i].start <= i64::MAX ==> planned_chunks(spans)[1 + i].1 == spans[i].start,
        spans[i].end <= i64::MAX ==> planned_chunks(spans)[1 + i].2 == spans[i].end,
{
}

/// A size that is kept is that size, as far as sizes go.
pub proof fn lemma_size(n: i64)
    ensures
        0 <= n <= usize::MAX ==> spec_size(n) == n,
        n < 0 || n > usize::MAX ==> spec_size(n) == usize::MAX,
{
}

/// The document that stands for a file: a resource at its path, as new as the file and as
/// large, and of the type that its name says.
pub proof fn lemma_document_for(
    dir: Seq<char>,
    stem: Seq<char>,
    e: Seq<char>,
    modified_at: i64,
    size: i64,
    now: i64,
)
    requires
        dir.len() > 0,
        stem.len() > 0,
        is_name(stem.push('.') + e),
        forall|i: int| 0 <= i < e.len() ==> #[trigger] e[i] != '.',
    ensures
        ({
            let path = spec_join(dir, stem.push('.') + e);
            let doc = document_for(path, Some(modified_at), size, now);
            &&& doc.filepath == path
            &&& doc.file_type == e
            &&& doc.doc_category == DocCategory::Resource
            &&& doc.file_modified_at == modified_at
            &&& doc.file_size == size
            &&& doc.updated_at == now
            &&& document_for(path, None, size, now).file_modified_at == now
        }),
{
    lemma_file_name(dir, stem, e);
}

/// A document that is refreshed keeps its id, path, type and category, and takes the time
/// and the size of its file.
pub proof fn lemma_refreshed(doc: DocumentView, modified_at: i64, size: i64, now: i64)
    ensures
        ({
            let after = refreshed(doc, Some(modified_at), size, now);
            &&& after.id == doc.id
            &&& after.filepath == doc.filepath
            &&& after.file_type == doc.file_type
            &&& after.doc_category == doc.doc_category
            &&& after.file_modified_at == modified_at
            &&& after.file_size == size
            &&& after.updated_at == now
            &&& refreshed(doc, None, size, now).file_modified_at == now
        }),
{
}

/// How a document was planned, member by member.
pub open spec fn told(
    budget: int,
    indexed: int,
    truncated: bool,
    has_text: bool,
    count: int,
) -> Seq<(Seq<char>, ScalarView)> {
    seq![
        ("content_byte_budget"@, ScalarView::Number(budget)),
        ("content_bytes_indexed"@, ScalarView::Number(indexed)),
        ("content_truncated"@, ScalarView::Flag(truncated)),
        ("content_utf8"@, ScalarView::Flag(has_text)),
        ("planned_chunk_count"@, ScalarView::Number(count)),
        ("strategy"@, ScalarView::Text("structure"@)),
    ]
}

proof fn lemma_told(budget: int, indexed: int, truncated: bool, has_text: bool, count: int)
    ensures
        spec_metadata_json("structure"@, count, has_text, truncated, indexed, budget)
            == object_text(told(budget, indexed, truncated, has_text, count)),
{
    assert(told(budget, indexed, truncated, has_text, count) =~= seq![
        ("content_byte_budget"@, ScalarView::Number(budget)),
        ("content_bytes_indexed"@, ScalarView::Number(indexed)),
        ("content_truncated"@, ScalarView::Flag(truncated)),
        ("content_utf8"@, ScalarView::Flag(has_text)),
        ("planned_chunk_count"@, ScalarView::Number(count)),
        ("strategy"@, ScalarView::Text("structure"@)),
    ]);
}

/// What is kept of how a document was planned: whether it has text and whether that was cut
/// off, how much was read of how much, and one less than its chunks.
pub proof fn lemma_facts_metadata(plan: ContentReadPlan, model: ModelView)
    ensures
        facts_metadata(Some(plan), model) == object_text(
            told(
                plan.content_byte_budget as int,
                plan.content_bytes_indexed as int,
                plan.content_truncated,
                plan.content matches Some(text) && text@.len() > 0,
                facts_chunks(Some(plan), model).len() - 1,
            ),
        ),
{
    let spans = content_spans(facts_text(Some(plan)), model);
    let count = facts_chunks(Some(plan), model).len() - 1;
    let has_text = plan.content matches Some(text) && text@.len() > 0;
    assert(count == spans.len());
    assert(has_text == (facts_text(Some(plan)) is Some));
    lemma_told(
        plan.content_byte_budget as int,
        plan.content_bytes_indexed as int,
        plan.content_truncated,
        has_text,
        count,
    );
}

} // verus!
