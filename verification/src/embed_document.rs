//! The job that embeds a document: what is handed to the model, and what is kept of its
//! answer.

use crate::chunking::{
    larger, lemma_structure_spans_cover, plan_chunks, sound_span, structure_spans, ChunkPlan,
    ChunkSpan,
};
use crate::embeddings::EmbeddingError;
use crate::ingest::{content_spans, planned_chunks, spec_offset, spec_size, to_offset, to_size};
use crate::models::{
    Document, DocumentEmbedding, EmbeddedChunk, EmbeddingModel, EmbeddingRow, ModelView,
};
use crate::paths::{file_name, is_name, lemma_join, spec_file_name, spec_join};
use crate::repository::{
    complete_job, delete_document, document_hash, document_id_test, embedded_writes,
    find_document_by_id, find_model_by_id, list_recoverable_embeddings_for_model, recoverable_test,
    replace_embeddings_for_document_model, unreadable_test, RepositoryError,
};
use crate::rows::{first_where, rows_of};
use crate::store::{model_id_test, ChunkWrite, Store, Tables};
use crate::text::{decimal, decimal_of, same_text, signed_decimal, signed_decimal_of};
use crate::types::ChunkType;
use crate::worker::HandlerResult;
use vstd::prelude::*;
use vstd::utf8::{
    encode_utf8, encode_utf8_decode_utf8, encode_utf8_valid_utf8, is_char_boundary,
    length_of_first_scalar, pop_first_scalar, valid_utf8,
};

verus! {

/// A chunk, with the text that is handed to the model.
#[derive(Clone, Debug, PartialEq, Eq)]
pub struct PreparedChunk {
    pub chunk_type: ChunkType,
    pub chunk_start: i64,
    pub chunk_end: i64,
    pub input: String,
}

/// Why the chunks of a document could not be prepared.
#[derive(Clone, Debug, PartialEq, Eq)]
pub enum PrepareError {
    /// There are chunks of content, and the file is no text.
    NotText { document_id: i64 },
    /// A chunk starts before the text.
    StartOutOfRange,
    /// A chunk ends before the text.
    EndOutOfRange,
    /// The content that has to be read ends before the text.
    ContentEndOutOfRange,
    /// A chunk is no part of the text.
    InvalidRange { start: i64, end: i64, document_id: i64 },
}

impl PrepareError {
    pub open spec fn spec_message(&self) -> Seq<char> {
        match self {
            PrepareError::NotText { document_id } => "document "@ + signed_decimal(
                *document_id as int,
            ) + " has content rows but is not valid UTF-8"@,
            PrepareError::StartOutOfRange => "chunk_start must fit into usize"@,
            PrepareError::EndOutOfRange => "chunk_end must fit into usize"@,
            PrepareError::ContentEndOutOfRange => "content chunk_end must fit into usize"@,
            PrepareError::InvalidRange { start, end, document_id } => "stored chunk range "@
                + signed_decimal(*start as int) + ".."@ + signed_decimal(*end as int)
                + " is invalid for document "@ + signed_decimal(*document_id as int),
        }
    }

    /// What was wrong, in words.
    pub fn message(&self) -> (text: String)
        ensures
            text@ == self.spec_message(),
    {
        match self {
            PrepareError::NotText { document_id } => String::from_str("document ").concat(
                signed_decimal_of(*document_id).as_str(),
            ).concat(" has content rows but is not valid UTF-8"),
            PrepareError::StartOutOfRange => String::from_str("chunk_start must fit into usize"),
            PrepareError::EndOutOfRange => String::from_str("chunk_end must fit into usize"),
            PrepareError::ContentEndOutOfRange => String::from_str(
                "content chunk_end must fit into usize",
            ),
            PrepareError::InvalidRange { start, end, document_id } => String::from_str(
                "stored chunk range ",
            ).concat(signed_decimal_of(*start).as_str()).concat("..").concat(
                signed_decimal_of(*end).as_str(),
            ).concat(" is invalid for document ").concat(
                signed_decimal_of(*document_id).as_str(),
            ),
        }
    }
}

/// The end of the last chunk of content among the first `n` rows.
pub open spec fn content_end(rows: Seq<EmbeddingRow>, n: int) -> Option<int>
    decreases n,
{
    if n <= 0 {
        None
    } else {
        let row = rows[n - 1];
        match content_end(rows, n - 1) {
            Some(end) => if row.chunk_type == ChunkType::Content {
                Some(larger(end, row.chunk_end as int))
            } else {
                Some(end)
            },
            None => if row.chunk_type == ChunkType::Content {
                Some(row.chunk_end as int)
            } else {
                None
            },
        }
    }
}

/// Where the last chunk of content ends, if there is one.
pub fn max_content_end(rows: &[DocumentEmbedding]) -> (end: Option<i64>)
    ensures
        match end {
            Some(end) => content_end(rows_of(rows@), rows@.len() as int) == Some(end as int),
            None => content_end(rows_of(rows@), rows@.len() as int) is None,
        },
{
    let ghost views = rows_of(rows@);
    let mut best: Option<i64> = None;
    let mut i: usize = 0;
    while i < rows.len()
        invariant
            i <= rows.len(),
            views == rows_of(rows@),
            match best {
                Some(end) => content_end(views, i as int) == Some(end as int),
                None => content_end(views, i as int) is None,
            },
        decreases rows.len() - i,
    {
        if rows[i].chunk_type == ChunkType::Content {
            best = match best {
                Some(end) => if rows[i].chunk_end > end {
                    Some(rows[i].chunk_end)
                } else {
                    Some(end)
                },
                None => Some(rows[i].chunk_end),
            };
        }
        i = i + 1;
    }
    best
}

/// How many bytes of a document have to be read for its chunks: none where there is no
/// chunk of content.
pub fn content_budget(rows: &[DocumentEmbedding]) -> (result: Result<Option<usize>, PrepareError>)
    ensures
        ({
            let end = content_end(rows_of(rows@), rows@.len() as int);
            match result {
                Ok(Some(budget)) => end == Some(budget as int),
                Ok(None) => end is None,
                Err(error) => {
                    &&& error is ContentEndOutOfRange
                    &&& end matches Some(end) && !(0 <= end <= usize::MAX)
                },
            }
        }),
{
    match max_content_end(rows) {
        Some(end) => if end < 0 || end as u64 > usize::MAX as u64 {
            Err(PrepareError::ContentEndOutOfRange)
        } else {
            Ok(Some(end as usize))
        },
        None => Ok(None),
    }
}

/// The filename of a document, or its path where it has none.
pub open spec fn spec_filename(path: Seq<char>) -> Seq<char> {
    match spec_file_name(path) {
        Some(name) => if name.len() > 0 {
            name
        } else {
            path
        },
        None => path,
    }
}

/// Whether `start..end` is a part of a text that cuts no character.
pub open spec fn is_part(bytes: Seq<u8>, start: int, end: int) -> bool {
    start <= end <= bytes.len() && is_char_boundary(bytes, start) && is_char_boundary(bytes, end)
}

/// What is wrong with a chunk.
pub open spec fn chunk_error(row: EmbeddingRow, content: Option<Seq<char>>, document_id: i64)
    -> Option<PrepareError> {
    if row.chunk_type == ChunkType::Filename {
        None
    } else {
        match content {
            None => Some(PrepareError::NotText { document_id }),
            Some(text) => if row.chunk_start < 0 || row.chunk_start > usize::MAX {
                Some(PrepareError::StartOutOfRange)
            } else if row.chunk_end < 0 || row.chunk_end > usize::MAX {
                Some(PrepareError::EndOutOfRange)
            } else if !is_part(encode_utf8(text), row.chunk_start as int, row.chunk_end as int) {
                Some(
                    PrepareError::InvalidRange {
                        start: row.chunk_start,
                        end: row.chunk_end,
                        document_id,
                    },
                )
            } else {
                None
            },
        }
    }
}

/// Whether a chunk was prepared as its row says.
pub open spec fn is_prepared(
    chunk: PreparedChunk,
    row: EmbeddingRow,
    path: Seq<char>,
    content: Option<Seq<char>>,
) -> bool {
    &&& chunk.chunk_type == row.chunk_type
    &&& chunk.chunk_start == row.chunk_start
    &&& chunk.chunk_end == row.chunk_end
    &&& match row.chunk_type {
        ChunkType::Filename => chunk.input@ == spec_filename(path),
        ChunkType::Content => encode_utf8(chunk.input@) == encode_utf8(
            content.unwrap(),
        ).subrange(row.chunk_start as int, row.chunk_end as int),
    }
}

/// A boundary after another one is a boundary of the rest.
proof fn lemma_boundary_of_rest(bytes: Seq<u8>, start: int, end: int)
    requires
        valid_utf8(bytes),
        0 <= start <= end,
        is_char_boundary(bytes, start),
        is_char_boundary(bytes, end),
    ensures
        start <= bytes.len(),
        valid_utf8(bytes.subrange(start, bytes.len() as int)),
        is_char_boundary(bytes.subrange(start, bytes.len() as int), end - start),
    decreases bytes.len(),
{
    if start == 0 {
        assert(bytes.subrange(0, bytes.len() as int) =~= bytes);
    } else {
        let n = length_of_first_scalar(bytes);
        let tail = pop_first_scalar(bytes);
        assert(0 < n <= bytes.len());
        if start - n < 0 {
            assert(!is_char_boundary(tail, start - n));
        }
        lemma_boundary_of_rest(tail, start - n, end - n);
        assert(tail.subrange(start - n, tail.len() as int) =~= bytes.subrange(
            start,
            bytes.len() as int,
        ));
    }
}

/// The text of `start..end`.
fn part(content: &str, start: usize, end: usize) -> (text: String)
    requires
        is_part(encode_utf8(content@), start as int, end as int),
    ensures
        encode_utf8(text@) == encode_utf8(content@).subrange(start as int, end as int),
{
    let ghost bytes = encode_utf8(content@);
    proof {
        encode_utf8_valid_utf8(content@);
        lemma_boundary_of_rest(bytes, start as int, end as int);
    }
    let (_, rest) = content.split_at(start);
    let (found, _) = rest.split_at(end - start);
    proof {
        assert(encode_utf8(rest@) == bytes.subrange(start as int, bytes.len() as int));
        assert(encode_utf8(found@) =~= bytes.subrange(start as int, end as int));
    }
    found.to_owned()
}

/// The filename of a document, or its path where it has none.
fn filename_of(path: &str) -> (filename: String)
    ensures
        filename@ == spec_filename(path@),
{
    match file_name(path) {
        Some(name) => if name.as_str().is_empty() {
            path.to_owned()
        } else {
            name
        },
        None => path.to_owned(),
    }
}

pub open spec fn text_of(content: Option<&str>) -> Option<Seq<char>> {
    match content {
        Some(content) => Some(content@),
        None => None,
    }
}

/// Prepares the chunks of a document: the filename stands for itself, a chunk of
/// content for its part of the text.
pub fn prepare_embedded_chunks(
    path: &str,
    document_id: i64,
    rows: &[DocumentEmbedding],
    content: Option<&str>,
) -> (result: Result<Vec<PreparedChunk>, PrepareError>)
    ensures
        ({
            let text = text_of(content);
            match result {
                Ok(chunks) => {
                    &&& chunks@.len() == rows@.len()
                    &&& forall|i: int|
                        0 <= i < rows@.len() ==> chunk_error(
                            #[trigger] rows@[i]@,
                            text,
                            document_id,
                        ) is None && is_prepared(chunks@[i], rows@[i]@, path@, text)
                },
                Err(error) => exists|i: int|
                    {
                        &&& 0 <= i < rows@.len()
                        &&& #[trigger] chunk_error(rows@[i]@, text, document_id) == Some(error)
                        &&& forall|j: int|
                            0 <= j < i ==> chunk_error(
                                #[trigger] rows@[j]@,
                                text,
                                document_id,
                            ) is None
                    },
            }
        }),
{
    let filename: String = filename_of(path);
    let ghost text = text_of(content);
    let mut chunks: Vec<PreparedChunk> = Vec::new();
    let mut i: usize = 0;
    while i < rows.len()
        invariant
            i <= rows.len(),
            text == text_of(content),
            filename@ == spec_filename(path@),
            chunks@.len() == i,
            forall|j: int|
                0 <= j < i ==> chunk_error(#[trigger] rows@[j]@, text, document_id) is None
                    && is_prepared(chunks@[j], rows@[j]@, path@, text),
        decreases rows.len() - i,
    {
        let row: &DocumentEmbedding = &rows[i];
        let input: String = match row.chunk_type {
            ChunkType::Filename => filename.clone(),
            ChunkType::Content => {
                let content: &str = match content {
                    Some(content) => content,
                    None => {
                        let error = PrepareError::NotText { document_id };
                        proof {
                            assert(chunk_error(rows@[i as int]@, text, document_id) == Some(error));
                        }
                        return Err(error);
                    },
                };
                if row.chunk_start < 0 || row.chunk_start as u64 > usize::MAX as u64 {
                    let error = PrepareError::StartOutOfRange;
                    proof {
                        assert(chunk_error(rows@[i as int]@, text, document_id) == Some(error));
                    }
                    return Err(error);
                }
                if row.chunk_end < 0 || row.chunk_end as u64 > usize::MAX as u64 {
                    let error = PrepareError::EndOutOfRange;
                    proof {
                        assert(chunk_error(rows@[i as int]@, text, document_id) == Some(error));
                    }
                    return Err(error);
                }
                let start: usize = row.chunk_start as usize;
                let end: usize = row.chunk_end as usize;
                if !(start <= end && end <= content.as_bytes().len() && content.is_char_boundary(
                    start,
                ) && content.is_char_boundary(end)) {
                    let error = PrepareError::InvalidRange {
                        start: row.chunk_start,
                        end: row.chunk_end,
                        document_id,
                    };
                    proof {
                        assert(chunk_error(rows@[i as int]@, text, document_id) == Some(error));
                    }
                    return Err(error);
                }
                part(content, start, end)
            },
        };
        chunks.push(
            PreparedChunk {
                chunk_type: row.chunk_type,
                chunk_start: row.chunk_start,
                chunk_end: row.chunk_end,
                input,
            },
        );
        i = i + 1;
    }
    Ok(chunks)
}

/// The content of a document, if there is any.
pub open spec fn content_of(content: Option<&str>) -> Option<Seq<char>> {
    match content {
        Some(content) => if content@.len() > 0 {
            Some(content@)
        } else {
            None
        },
        None => None,
    }
}

/// Whether a chunk stands for a span of a text.
pub open spec fn stands_for(chunk: PreparedChunk, span: ChunkSpan, text: Seq<char>) -> bool {
    &&& chunk.chunk_type == ChunkType::Content
    &&& chunk.chunk_start == spec_offset(span.start as int)
    &&& chunk.chunk_end == spec_offset(span.end as int)
    &&& encode_utf8(chunk.input@) == encode_utf8(text).subrange(
        span.start as int,
        span.end as int,
    )
}

/// A text without bytes is empty.
proof fn lemma_no_bytes(text: Seq<char>)
    requires
        encode_utf8(text).len() == 0,
    ensures
        text.len() == 0,
{
    encode_utf8_decode_utf8(text);
    encode_utf8_decode_utf8(seq![]);
    assert(encode_utf8(text) =~= encode_utf8(seq![]));
}

/// The spans that are planned for a text are parts of it.
proof fn lemma_planned_span_is_part(text: Seq<char>, model: ModelView, i: int)
    requires
        0 < encode_utf8(text).len() <= usize::MAX,
        0 <= i < content_spans(Some(text), model).len(),
    ensures
        ({
            let span = content_spans(Some(text), model)[i];
            is_part(encode_utf8(text), span.start as int, span.end as int)
        }),
{
    let size = spec_size(model.chunk_size);
    let overlap = spec_size(model.chunk_overlap);
    let spans = content_spans(Some(text), model);
    if size > 0 {
        lemma_structure_spans_cover(text, size, overlap, larger(size / 2, 1));
        assert(sound_span(encode_utf8(text), spans[i]));
    } else {
        assert(structure_spans(text, size, overlap, larger(size / 2, 1)).len() == 0);
    }
}

/// Prepares all chunks of a document, planned anew: its filename, and the spans of its
/// content.
pub fn prepare_whole_document(path: &str, content: Option<&str>, model: &EmbeddingModel) -> (chunks:
    Vec<PreparedChunk>)
    ensures
        ({
            let text = content_of(content);
            let spans = content_spans(text, model@);
            &&& chunks@.len() == 1 + spans.len()
            &&& chunks@[0].chunk_type == ChunkType::Filename
            &&& chunks@[0].chunk_start == 0
            &&& chunks@[0].chunk_end == 0
            &&& chunks@[0].input@ == spec_filename(path@)
            &&& forall|i: int|
                0 <= i < spans.len() ==> stands_for(
                    chunks@[i + 1],
                    #[trigger] spans[i],
                    text.unwrap(),
                )
        }),
{
    let mut chunks: Vec<PreparedChunk> = Vec::new();
    chunks.push(
        PreparedChunk {
            chunk_type: ChunkType::Filename,
            chunk_start: 0,
            chunk_end: 0,
            input: filename_of(path),
        },
    );
    let content: &str = match content {
        Some(content) => content,
        None => {
            return chunks;
        },
    };
    if content.is_empty() {
        return chunks;
    }
    let ghost first = chunks@[0];
    let ghost text = content@;
    let plan: ChunkPlan = plan_chunks(
        path,
        content,
        to_size(model.chunk_size),
        to_size(model.chunk_overlap),
    );
    let bytes: usize = content.as_bytes().len();
    proof {
        assert(plan.spans@ == content_spans(Some(text), model@));
        if bytes == 0 {
            lemma_no_bytes(text);
        }
    }
    let mut i: usize = 0;
    while i < plan.spans.len()
        invariant
            i <= plan.spans.len(),
            text == content@,
            0 < encode_utf8(text).len() <= usize::MAX,
            plan.spans@ == content_spans(Some(text), model@),
            chunks@.len() == 1 + i,
            chunks@[0] == first,
            forall|j: int|
                0 <= j < i ==> stands_for(chunks@[j + 1], #[trigger] plan.spans@[j], text),
        decreases plan.spans.len() - i,
    {
        let span: ChunkSpan = plan.spans[i];
        proof {
            lemma_planned_span_is_part(text, model@, i as int);
        }
        chunks.push(
            PreparedChunk {
                chunk_type: ChunkType::Content,
                chunk_start: to_offset(span.start),
                chunk_end: to_offset(span.end),
                input: part(content, span.start, span.end),
            },
        );
        i = i + 1;
    }
    chunks
}

/// What an ingest plans can be embedded: with the same text, nothing is wrong with any
/// chunk that was planned for it.
pub proof fn lemma_planned_chunks_are_sound(
    text: Seq<char>,
    model: ModelView,
    row: EmbeddingRow,
    i: int,
)
    requires
        0 < encode_utf8(text).len() <= usize::MAX,
        encode_utf8(text).len() <= i64::MAX,
        0 <= i < planned_chunks(content_spans(Some(text), model)).len(),
        (row.chunk_type, row.chunk_start, row.chunk_end) == planned_chunks(
            content_spans(Some(text), model),
        )[i],
    ensures
        chunk_error(row, Some(text), row.document_id) is None,
{
    let spans = content_spans(Some(text), model);
    if i > 0 {
        let span = spans[i - 1];
        assert(planned_chunks(spans)[i] == (
            ChunkType::Content,
            spec_offset(span.start as int),
            spec_offset(span.end as int),
        ));
        lemma_planned_span_is_part(text, model, i - 1);
    }
}

/// The four bytes of a value, the lowest first.
pub open spec fn le_bytes(bits: u32) -> Seq<u8> {
    seq![
        (bits % 256) as u8,
        (bits / 256 % 256) as u8,
        (bits / 65536 % 256) as u8,
        (bits / 16777216) as u8,
    ]
}

/// The bytes of a vector: those of its values, one after another.
pub open spec fn vector_bytes(vector: Seq<u32>) -> Seq<u8>
    decreases vector.len(),
{
    if vector.len() == 0 {
        seq![]
    } else {
        vector_bytes(vector.drop_last()) + le_bytes(vector.last())
    }
}

/// The bytes of a vector of single precision numbers, each given by its bits.
pub fn serialize_embedding(vector: &[u32]) -> (bytes: Vec<u8>)
    ensures
        bytes@ == vector_bytes(vector@),
{
    let mut bytes: Vec<u8> = Vec::new();
    let mut i: usize = 0;
    while i < vector.len()
        invariant
            i <= vector.len(),
            bytes@ == vector_bytes(vector@.take(i as int)),
        decreases vector.len() - i,
    {
        let bits: u32 = vector[i];
        let ghost before = bytes@;
        bytes.push((bits % 256) as u8);
        bytes.push((bits / 256 % 256) as u8);
        bytes.push((bits / 65536 % 256) as u8);
        bytes.push((bits / 16777216) as u8);
        proof {
            assert(bytes@ =~= before + le_bytes(bits));
            assert(vector@.take(i + 1).drop_last() =~= vector@.take(i as int));
        }
        i = i + 1;
    }
    proof {
        assert(vector@.take(i as int) =~= vector@);
    }
    bytes
}

/// A vector takes four bytes for each of its values, and the bytes determine it.
pub proof fn lemma_vector_bytes(a: Seq<u32>, b: Seq<u32>)
    ensures
        vector_bytes(a).len() == 4 * a.len(),
        vector_bytes(a) == vector_bytes(b) ==> a == b,
    decreases a.len(),
{
    lemma_vector_bytes_len(a);
    lemma_vector_bytes_len(b);
    if vector_bytes(a) == vector_bytes(b) {
        if a.len() > 0 {
            let x = vector_bytes(a);
            let n = x.len() as int;
            lemma_vector_bytes_len(a.drop_last());
            lemma_vector_bytes_len(b.drop_last());
            assert(x.take(n - 4) =~= vector_bytes(a.drop_last()));
            assert(x.take(n - 4) =~= vector_bytes(b.drop_last()));
            assert(x.skip(n - 4) =~= le_bytes(a.last()));
            assert(x.skip(n - 4) =~= le_bytes(b.last()));
            lemma_le_bytes(a.last(), b.last());
            lemma_vector_bytes(a.drop_last(), b.drop_last());
            assert(a.drop_last().push(a.last()) =~= a);
            assert(b.drop_last().push(b.last()) =~= b);
        } else {
            assert(a =~= b);
        }
    }
}

proof fn lemma_vector_bytes_len(a: Seq<u32>)
    ensures
        vector_bytes(a).len() == 4 * a.len(),
    decreases a.len(),
{
    if a.len() > 0 {
        lemma_vector_bytes_len(a.drop_last());
    }
}

proof fn lemma_le_sum(bits: u32)
    ensures
        bits == bits % 256 + 256 * (bits / 256 % 256) + 65536 * (bits / 65536 % 256) + 16777216 * (
        bits / 16777216),
        bits / 16777216 < 256,
{
    let p = bits as int / 256;
    let q = bits as int / 65536;
    assert(q == p / 256);
    assert(bits as int / 16777216 == q / 256);
}

proof fn lemma_le_bytes(a: u32, b: u32)
    requires
        le_bytes(a) == le_bytes(b),
    ensures
        a == b,
{
    lemma_le_sum(a);
    lemma_le_sum(b);
    let x = le_bytes(a);
    let y = le_bytes(b);
    assert(x[0] == (a % 256) as u8 && y[0] == (b % 256) as u8);
    assert(x[1] == (a / 256 % 256) as u8 && y[1] == (b / 256 % 256) as u8);
    assert(x[2] == (a / 65536 % 256) as u8 && y[2] == (b / 65536 % 256) as u8);
    assert(x[3] == (a / 16777216) as u8 && y[3] == (b / 16777216) as u8);
    assert(a % 256 == b % 256);
    assert(a / 256 % 256 == b / 256 % 256);
    assert(a / 65536 % 256 == b / 65536 % 256);
    assert(a / 16777216 == b / 16777216);
}

/// Why a job that embeds a document failed.
#[derive(Clone, Debug)]
pub enum EmbedJobError {
    Repository(RepositoryError),
    /// The model of the job is not there.
    ModelNotFound { model_id: i64, job_id: i64 },
    /// The file of the document cannot be read.
    Unreadable { path: String },
    /// The model's answer has not one vector for each chunk.
    VectorCount { vectors: usize, chunks: usize },
}

impl EmbedJobError {
    pub open spec fn spec_message(&self) -> Seq<char> {
        match self {
            EmbedJobError::Repository(error) => error.spec_message(),
            EmbedJobError::ModelNotFound { model_id, job_id } => "embedding model "@
                + signed_decimal(*model_id as int) + " not found for job "@ + signed_decimal(
                *job_id as int,
            ),
            EmbedJobError::Unreadable { path } => "failed to read document content from "@ + path@,
            EmbedJobError::VectorCount { vectors, chunks } => "embedding client returned "@
                + decimal(*vectors as nat) + " vectors for "@ + decimal(*chunks as nat)
                + " prepared chunks"@,
        }
    }

    /// What was wrong, in words.
    pub fn message(&self) -> (text: String)
        ensures
            text@ == self.spec_message(),
    {
        match self {
            EmbedJobError::Repository(error) => error.message(),
            EmbedJobError::ModelNotFound { model_id, job_id } => String::from_str(
                "embedding model ",
            ).concat(signed_decimal_of(*model_id).as_str()).concat(" not found for job ").concat(
                signed_decimal_of(*job_id).as_str(),
            ),
            EmbedJobError::Unreadable { path } => String::from_str(
                "failed to read document content from ",
            ).concat(path.as_str()),
            EmbedJobError::VectorCount { vectors, chunks } => String::from_str(
                "embedding client returned ",
            ).concat(decimal_of(*vectors as u64).as_str()).concat(" vectors for ").concat(
                decimal_of(*chunks as u64).as_str(),
            ).concat(" prepared chunks"),
        }
    }
}

/// What is said of a job whose call of the model failed.
pub open spec fn spec_embed_call_failure(
    document_id: i64,
    model_id: i64,
    error: Seq<char>,
) -> Seq<char> {
    "failed to embed document "@ + signed_decimal(document_id as int) + " with model "@
        + signed_decimal(model_id as int) + ": "@ + error
}

/// What is said of a job whose call of the model failed.
pub fn embed_call_failure(document_id: i64, model_id: i64, error: &str) -> (text: String)
    ensures
        text@ == spec_embed_call_failure(document_id, model_id, error@),
{
    String::from_str("failed to embed document ").concat(
        signed_decimal_of(document_id).as_str(),
    ).concat(" with model ").concat(signed_decimal_of(model_id).as_str()).concat(": ").concat(error)
}

/// How a job ends whose call of the model failed: with what is said of it, and set aside
/// for as long as the error says, if it says so.
pub fn embed_call_failed(document_id: i64, model_id: i64, error: &EmbeddingError) -> (result:
    HandlerResult)
    ensures
        result matches HandlerResult::Failed { message, retry_after_secs } && message@
            == spec_embed_call_failure(document_id, model_id, error.message@) && retry_after_secs
            == error.retry_after,
{
    HandlerResult::Failed {
        message: embed_call_failure(document_id, model_id, error.message.as_str()),
        retry_after_secs: error.retry_after_secs(),
    }
}

/// What a job that embeds a document works on.
#[derive(Clone, Debug)]
pub enum EmbedTarget {
    /// The document is gone; the job is done with.
    Orphaned,
    /// The document, and the model to embed it with.
    Found { document: Document, model: EmbeddingModel },
}

/// Finds what a job works on. A job whose document is gone is removed.
pub fn load_embed_target(store: &mut Store, job_id: i64, document_id: i64, model_id: i64) -> (result:
    Result<EmbedTarget, EmbedJobError>)
    ensures
        match result {
            Ok(EmbedTarget::Orphaned) => {
                &&& !old(store)@.documents.has(document_id)
                &&& final(store)@ == (Tables {
                    jobs: old(store)@.jobs.completed(job_id),
                    ..old(store)@
                })
            },
            Ok(EmbedTarget::Found { document, model }) => {
                &&& first_where(
                    old(store)@.documents.rows,
                    document_id_test(document_id),
                ) matches Some(i) && document@.row() == old(store)@.documents.rows[i]
                &&& document.id == document_id
                &&& first_where(old(store)@.models.rows, model_id_test(model_id)) matches Some(k)
                    && model@ == old(store)@.models.rows[k]
                &&& model.id == model_id
                &&& final(store)@ == old(store)@
            },
            Err(EmbedJobError::ModelNotFound { model_id: m, job_id: j }) => {
                &&& first_where(
                    old(store)@.documents.rows,
                    document_id_test(document_id),
                ) matches Some(i) && !unreadable_test()(old(store)@.documents.rows[i])
                &&& !old(store)@.models.has(model_id)
                &&& m == model_id
                &&& j == job_id
                &&& final(store)@ == old(store)@
            },
            Err(EmbedJobError::Repository(error)) => {
                &&& first_where(
                    old(store)@.documents.rows,
                    document_id_test(document_id),
                ) matches Some(i) && {
                    &&& unreadable_test()(old(store)@.documents.rows[i])
                    &&& error matches RepositoryError::Invalid(invalid) && invalid.enumeration@
                        == "DocCategory"@ && invalid.name@
                        == old(store)@.documents.rows[i].doc_category
                }
                &&& final(store)@ == old(store)@
            },
            Err(_) => false,
        },
        old(store)@.wf() ==> final(store)@.wf(),
{
    let document: Document = match find_document_by_id(store, document_id) {
        Ok(Some(document)) => document,
        Ok(None) => {
            complete_job(store, job_id);
            return Ok(EmbedTarget::Orphaned);
        },
        Err(error) => {
            return Err(EmbedJobError::Repository(error));
        },
    };
    match find_model_by_id(store, model_id) {
        Some(model) => Ok(EmbedTarget::Found { document, model }),
        None => {
            proof {
                let i = first_where(store@.documents.rows, document_id_test(document_id)).unwrap();
                assert(store@.documents.rows[i].doc_category == document.doc_category.name());
            }
            Err(EmbedJobError::ModelNotFound { model_id, job_id })
        },
    }
}

/// What was found of the file of a document.
#[derive(Clone, Debug)]
pub enum FileState {
    /// It is gone.
    Missing,
    /// It is there, and its bytes have this hash.
    Present { hash: String },
}

/// What a job goes on with.
#[derive(Clone, Debug)]
pub enum EmbedStep {
    /// The document was removed, as its file is gone.
    Deleted,
    /// The file has changed: the job was removed, and the document is planned again.
    Replan,
    /// There is nothing to embed.
    NothingToDo,
    /// The file was never hashed: all of the document is planned anew and embedded.
    EmbedWhole,
    /// These chunks are embedded.
    Embed { rows: Vec<DocumentEmbedding> },
}

/// Decides how a job goes on once the file of its document was looked at.
///
/// Where the file is gone, a document that was ingested from it is removed; for one
/// whose file was never hashed the job fails, and nothing changes.
pub fn next_embed_step(
    store: &mut Store,
    job_id: i64,
    document: &Document,
    model_id: i64,
    file: &FileState,
) -> (result: Result<EmbedStep, EmbedJobError>)
    ensures
        match *file {
            FileState::Missing => if old(store)@.stored_hash(document.id) is Some {
                &&& result matches Ok(EmbedStep::Deleted)
                &&& final(store)@ == old(store)@.without_document(document.id)
            } else {
                &&& result matches Err(EmbedJobError::Unreadable { path }) && path@
                    == document.filepath@
                &&& final(store)@ == old(store)@
            },
            FileState::Present { hash } => match old(store)@.stored_hash(document.id) {
                None => {
                    &&& result matches Ok(EmbedStep::EmbedWhole)
                    &&& final(store)@ == old(store)@
                },
                Some(stored) => if stored != hash@ {
                    &&& result matches Ok(EmbedStep::Replan)
                    &&& final(store)@ == (Tables {
                        jobs: old(store)@.jobs.completed(job_id),
                        ..old(store)@
                    })
                } else {
                    let rows = old(store)@.embeddings.rows.filter(
                        recoverable_test(document.id, model_id),
                    );
                    &&& final(store)@ == old(store)@
                    &&& match result {
                        Ok(EmbedStep::NothingToDo) => rows.len() == 0,
                        Ok(EmbedStep::Embed { rows: found }) => rows.len() > 0 && rows_of(found@)
                            == rows,
                        _ => false,
                    }
                },
            },
        },
        old(store)@.wf() ==> final(store)@.wf(),
{
    let stored: Option<String> = document_hash(store, document.id);
    match file {
        FileState::Missing => {
            if stored.is_none() {
                return Err(EmbedJobError::Unreadable { path: document.filepath.clone() });
            }
            delete_document(store, document.id);
            Ok(EmbedStep::Deleted)
        },
        FileState::Present { hash } => {
            match stored {
                Some(stored) => {
                    if !same_text(stored.as_str(), hash.as_str()) {
                        complete_job(store, job_id);
                        return Ok(EmbedStep::Replan);
                    }
                },
                None => {
                    return Ok(EmbedStep::EmbedWhole);
                },
            }
            let rows: Vec<DocumentEmbedding> = list_recoverable_embeddings_for_model(
                store,
                document.id,
                model_id,
            );
            if rows.len() == 0 {
                Ok(EmbedStep::NothingToDo)
            } else {
                Ok(EmbedStep::Embed { rows })
            }
        },
    }
}

/// The chunks with the vectors of the model's answer.
pub open spec fn answered(chunks: Seq<PreparedChunk>, vectors: Seq<Vec<u32>>) -> Seq<ChunkWrite> {
    Seq::new(
        chunks.len(),
        |i: int|
            ChunkWrite {
                chunk_type: chunks[i].chunk_type,
                chunk_start: chunks[i].chunk_start,
                chunk_end: chunks[i].chunk_end,
                embedding: Some(vector_bytes(vectors[i]@)),
            },
    )
}

/// Keeps the model's answer: the embeddings of the document for the model are replaced
/// by the chunks with their vectors. The answer must have one vector for each chunk.
pub fn store_embedded_chunks(
    store: &mut Store,
    document_id: i64,
    model_id: i64,
    chunks: &[PreparedChunk],
    vectors: &[Vec<u32>],
    now: i64,
) -> (result: Result<(), EmbedJobError>)
    ensures
        match result {
            Ok(()) => {
                &&& vectors@.len() == chunks@.len()
                &&& old(store)@.may_hold(document_id, model_id, chunks@.len())
                &&& old(store)@.without_pair(document_id, model_id).room_for_chunks(
                    document_id,
                    model_id,
                    answered(chunks@, vectors@),
                    now,
                )
                &&& final(store)@ == old(store)@.without_pair(document_id, model_id).with_chunks(
                    document_id,
                    model_id,
                    answered(chunks@, vectors@),
                    now,
                )
            },
            Err(EmbedJobError::VectorCount { vectors: v, chunks: c }) => {
                &&& vectors@.len() != chunks@.len()
                &&& v == vectors@.len()
                &&& c == chunks@.len()
                &&& final(store)@ == old(store)@
            },
            Err(EmbedJobError::Repository(error)) => {
                &&& vectors@.len() == chunks@.len()
                &&& error is ForeignKey && !old(store)@.may_hold(
                    document_id,
                    model_id,
                    chunks@.len(),
                ) || error is Full && old(store)@.may_hold(document_id, model_id, chunks@.len())
                    && !old(store)@.without_pair(document_id, model_id).room_for_chunks(
                    document_id,
                    model_id,
                    answered(chunks@, vectors@),
                    now,
                )
                &&& final(store)@ == old(store)@
            },
            Err(_) => false,
        },
        old(store)@.wf() ==> final(store)@.wf(),
{
    if vectors.len() != chunks.len() {
        return Err(EmbedJobError::VectorCount { vectors: vectors.len(), chunks: chunks.len() });
    }
    let mut rows: Vec<EmbeddedChunk> = Vec::new();
    let mut i: usize = 0;
    while i < chunks.len()
        invariant
            i <= chunks.len(),
            chunks.len() == vectors.len(),
            rows@.len() == i,
            forall|j: int|
                0 <= j < i ==> embedded_writes(rows@)[j] == #[trigger] answered(
                    chunks@,
                    vectors@,
                )[j],
        decreases chunks.len() - i,
    {
        let ghost before = rows@;
        let chunk: &PreparedChunk = &chunks[i];
        rows.push(
            EmbeddedChunk {
                chunk_type: chunk.chunk_type,
                chunk_start: chunk.chunk_start,
                chunk_end: chunk.chunk_end,
                embedding: serialize_embedding(vectors[i].as_slice()),
            },
        );
        proof {
            assert forall|j: int| 0 <= j < i + 1 implies embedded_writes(rows@)[j]
                == #[trigger] answered(chunks@, vectors@)[j] by {
                if j < i {
                    assert(embedded_writes(rows@)[j] == embedded_writes(before)[j]);
                }
            }
        }
        i = i + 1;
    }
    proof {
        assert(embedded_writes(rows@) =~= answered(chunks@, vectors@));
    }
    match replace_embeddings_for_document_model(
        store,
        document_id,
        model_id,
        rows.as_slice(),
        now,
    ) {
        Ok(()) => Ok(()),
        Err(error) => Err(EmbedJobError::Repository(error)),
    }
}

/// How much has to be read is told by the chunks of content: up to the end of the one that
/// ends last. Chunks of the filename need nothing.
pub proof fn lemma_content_end(rows: Seq<EmbeddingRow>, n: int)
    requires
        0 <= n <= rows.len(),
    ensures
        match content_end(rows, n) {
            Some(end) => {
                &&& exists|i: int|
                    0 <= i < n && (#[trigger] rows[i]).chunk_type == ChunkType::Content
                        && rows[i].chunk_end == end
                &&& forall|i: int|
                    0 <= i < n && (#[trigger] rows[i]).chunk_type == ChunkType::Content
                        ==> rows[i].chunk_end <= end
            },
            None => forall|i: int|
                0 <= i < n ==> (#[trigger] rows[i]).chunk_type == ChunkType::Filename,
        },
    decreases n,
{
    if n > 0 {
        lemma_content_end(rows, n - 1);
        let row = rows[n - 1];
        if let Some(end) = content_end(rows, n - 1) {
            let i = choose|i: int|
                0 <= i < n - 1 && (#[trigger] rows[i]).chunk_type == ChunkType::Content
                    && rows[i].chunk_end == end;
            if row.chunk_type == ChunkType::Content && row.chunk_end > end {
                assert(rows[n - 1].chunk_end == content_end(rows, n).unwrap());
            } else {
                assert(rows[i].chunk_end == content_end(rows, n).unwrap());
            }
        } else if row.chunk_type == ChunkType::Content {
            assert(rows[n - 1].chunk_end == content_end(rows, n).unwrap());
        }
    }
}

/// The bytes of a vector, value by value: the four from `4 * i` on are those of the value
/// at `i`, of which the first counts once, and each next one 256 times the one before.
pub proof fn lemma_vector_layout(vector: Seq<u32>, i: int)
    requires
        0 <= i < vector.len(),
    ensures
        ({
            let b = vector_bytes(vector);
            &&& b.len() == 4 * vector.len()
            &&& vector[i] == b[4 * i] + 256 * b[4 * i + 1] + 65536 * b[4 * i + 2] + 16777216 * b[4
                * i + 3]
        }),
    decreases vector.len(),
{
    lemma_vector_bytes_len(vector);
    lemma_vector_bytes_len(vector.drop_last());
    let head = vector_bytes(vector.drop_last());
    let all = vector_bytes(vector);
    if i < vector.len() - 1 {
        lemma_vector_layout(vector.drop_last(), i);
        assert(all[4 * i] == head[4 * i]);
        assert(all[4 * i + 1] == head[4 * i + 1]);
        assert(all[4 * i + 2] == head[4 * i + 2]);
        assert(all[4 * i + 3] == head[4 * i + 3]);
    } else {
        let bits = vector.last();
        lemma_le_sum(bits);
        let x = le_bytes(bits);
        assert(all[4 * i] == x[0] && all[4 * i + 1] == x[1]);
        assert(all[4 * i + 2] == x[2] && all[4 * i + 3] == x[3]);
    }
}

/// Each chunk is kept with its own vector, and where it was.
pub proof fn lemma_answered(chunks: Seq<PreparedChunk>, vectors: Seq<Vec<u32>>, i: int)
    requires
        chunks.len() == vectors.len(),
        0 <= i < chunks.len(),
    ensures
        answered(chunks, vectors).len() == chunks.len(),
        ({
            let write = answered(chunks, vectors)[i];
            &&& write.chunk_type == chunks[i].chunk_type
            &&& write.chunk_start == chunks[i].chunk_start
            &&& write.chunk_end == chunks[i].chunk_end
            &&& write.embedding matches Some(b) && b.len() == 4 * vectors[i]@.len() && forall|j: int|
                0 <= j < vectors[i]@.len() ==> #[trigger] vectors[i]@[j] == b[4 * j] + 256 * b[4 * j
                    + 1] + 65536 * b[4 * j + 2] + 16777216 * b[4 * j + 3]
        }),
{
    let v = vectors[i]@;
    lemma_vector_bytes_len(v);
    assert forall|j: int| 0 <= j < v.len() implies #[trigger] v[j] == vector_bytes(v)[4 * j] + 256
        * vector_bytes(v)[4 * j + 1] + 65536 * vector_bytes(v)[4 * j + 2] + 16777216 * vector_bytes(
        v,
    )[4 * j + 3] by {
        lemma_vector_layout(v, j);
    }
}

/// What is embedded for the filename of a document: the last name of its path.
pub proof fn lemma_filename(dir: Seq<char>, name: Seq<char>)
    requires
        dir.len() > 0,
        is_name(name),
    ensures
        spec_filename(spec_join(dir, name)) == name,
{
    lemma_join(dir, name);
}

} // verus!
