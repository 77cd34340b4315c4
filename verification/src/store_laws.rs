//! What holds of the store across operations.

use crate::content::ContentReadPlan;
use crate::ingest::{document_for, facts_chunks, facts_metadata};
use crate::json::{members_text, quoted, ScalarView};
use crate::models::{DocumentRow, DocumentView, EmbeddingRow, ModelView};
use crate::queue::{dead_claim, key_test, lemma_queued_is_taken, Jobs};
use crate::repository::{fingerprint_test, recoverable_test};
use crate::rows::{
    first_where, is_first, lemma_first_where, lemma_first_where_is_first, lemma_without_keeps,
    lemma_without_origin, without,
};
use crate::store::{
    chunk_test, embed_payload, every, has_ids_for_jobs, lemma_latest, lemma_seeded_wf, lemma_with_chunks_wf,
    lemma_with_document_wf, lemma_without_wf, needs_job, only, pair_test, pending_test, pending_writes,
    recoverable, seeded, seeded_count, ChunkWrite, Embeddings, FingerprintRow, Tables,
};
use crate::text::{lemma_signed_decimal_injective, signed_decimal};
use crate::types::{ChunkType, EmbedState, JobType};
use vstd::prelude::*;

verus! {

/// The payload as its five parts.
proof fn lemma_payload_parts(document_id: int, model_id: int)
    ensures
        embed_payload(document_id, model_id) == (seq!['{'] + quoted("document_id"@) + seq![':'])
            + signed_decimal(document_id) + (seq![','] + quoted("model_id"@) + seq![':'])
            + signed_decimal(model_id) + seq!['}'],
{
    let members = seq![
        ("document_id"@, ScalarView::Number(document_id)),
        ("model_id"@, ScalarView::Number(model_id)),
    ];
    let rest = members.skip(1);
    assert(rest.len() == 1);
    assert(rest[0] == members[1]);
    assert(members_text(rest) == quoted("model_id"@) + seq![':'] + signed_decimal(model_id));
    assert(members_text(members) == quoted("document_id"@) + seq![':'] + signed_decimal(document_id)
        + seq![','] + members_text(rest));
    assert(embed_payload(document_id, model_id) =~= (seq!['{'] + quoted("document_id"@) + seq![':'])
        + signed_decimal(document_id) + (seq![','] + quoted("model_id"@) + seq![':'])
        + signed_decimal(model_id) + seq!['}']);
}

/// Jobs for different documents or models have different payloads, so a job stands for
/// one document and one model.
pub proof fn lemma_embed_payload_injective(d: int, m: int, e: int, n: int)
    requires
        embed_payload(d, m) == embed_payload(e, n),
    ensures
        d == e,
        m == n,
{
    lemma_payload_parts(d, m);
    lemma_payload_parts(e, n);
    lemma_signed_decimal_injective(d, e);
    lemma_signed_decimal_injective(e, d);
    lemma_signed_decimal_injective(m, n);
    let a = seq!['{'] + quoted("document_id"@) + seq![':'];
    let b = seq![','] + quoted("model_id"@) + seq![':'];
    let x = embed_payload(d, m);
    let ld = signed_decimal(d).len() as int;
    let le = signed_decimal(e).len() as int;
    let at = a.len() as int;
    if ld < le {
        assert((a + signed_decimal(d) + b + signed_decimal(m) + seq!['}'])[at + ld] == ',');
        assert((a + signed_decimal(e) + b + signed_decimal(n) + seq!['}'])[at + ld]
            == signed_decimal(e)[ld]);
    } else if le < ld {
        assert((a + signed_decimal(e) + b + signed_decimal(n) + seq!['}'])[at + le] == ',');
        assert((a + signed_decimal(d) + b + signed_decimal(m) + seq!['}'])[at + le]
            == signed_decimal(d)[le]);
    }
    assert(x.subrange(at, at + ld) =~= signed_decimal(d));
    assert(x.subrange(at, at + le) =~= signed_decimal(e));
    let from = at + ld + b.len();
    assert(x.subrange(from, x.len() - 1) =~= signed_decimal(m));
    assert(x.subrange(from, x.len() - 1) =~= signed_decimal(n));
}

/// Queueing one job leaves what is known of another as it is.
proof fn lemma_enqueue_other(
    jobs: Jobs,
    job_type: Seq<char>,
    payload: Seq<char>,
    now: i64,
    other: Seq<char>,
    time: int,
)
    requires
        other != payload,
    ensures
        jobs.enqueued(job_type, payload, now).accepts(job_type, other, time) == jobs.accepts(
            job_type,
            other,
            time,
        ),
{
    let after = jobs.enqueued(job_type, payload, now);
    let p = key_test(job_type, payload);
    let q = key_test(job_type, other);
    lemma_first_where_is_first(jobs.rows, p);
    lemma_first_where_is_first(jobs.rows, q);
    lemma_first_where_is_first(after.rows, q);
    match jobs.find(job_type, other) {
        Some(i) => {
            assert forall|j: int| 0 <= j < i implies !q(#[trigger] after.rows[j]) by {
                assert(!q(jobs.rows[j]));
            }
            assert(is_first(after.rows, q, i));
            lemma_first_where(after.rows, q, i);
        },
        None => {
            if let Some(k) = after.find(job_type, other) {
                if k < jobs.rows.len() {
                    assert(!q(jobs.rows[k]));
                }
            }
        },
    }
}

/// Whether no claim that is alive at `now` is dead at `later`.
pub open spec fn claims_last(jobs: Jobs, now: int, later: int) -> bool {
    forall|i: int|
        0 <= i < jobs.rows.len() && dead_claim(#[trigger] jobs.rows[i], later) ==> dead_claim(
            jobs.rows[i],
            now,
        )
}

/// After jobs were seeded, each selected document and model with an embedding to be
/// made has a job that is queued or in progress.
pub proof fn lemma_seeded_has_jobs(
    jobs: Jobs,
    rows: Seq<EmbeddingRow>,
    selected: spec_fn(i64) -> bool,
    now: i64,
    i: int,
)
    requires
        jobs.wf(),
        has_ids_for_jobs(jobs, rows, selected, now),
        0 <= i < rows.len(),
        recoverable(rows[i]),
        selected(rows[i].document_id),
    ensures
        !seeded(jobs, rows, selected, now).accepts(
            JobType::EmbedDocument.name(),
            embed_payload(rows[i].document_id as int, rows[i].model_id as int),
            now as int,
        ),
    decreases rows.len(),
{
    let head = rows.drop_last();
    let before = seeded(jobs, head, selected, now);
    let row = rows.last();
    let name = JobType::EmbedDocument.name();
    let payload = embed_payload(row.document_id as int, row.model_id as int);
    let mine = embed_payload(rows[i].document_id as int, rows[i].model_id as int);
    lemma_seeded_wf(jobs, head, selected, now);
    if needs_job(before, row, selected, now as int) {
        if mine == payload {
            lemma_queued_is_taken(before, name, payload, now, now as int);
        } else {
            assert(i < head.len());
            assert(head[i] == rows[i]);
            lemma_seeded_has_jobs(jobs, head, selected, now, i);
            lemma_enqueue_other(before, name, payload, now, mine, now as int);
        }
    } else if i < head.len() {
        assert(head[i] == rows[i]);
        lemma_seeded_has_jobs(jobs, head, selected, now, i);
    }
}

/// Seeding leaves no claim that would die sooner.
pub proof fn lemma_seeded_claims_last(
    jobs: Jobs,
    rows: Seq<EmbeddingRow>,
    selected: spec_fn(i64) -> bool,
    now: i64,
    later: int,
)
    requires
        claims_last(jobs, now as int, later),
    ensures
        claims_last(seeded(jobs, rows, selected, now), now as int, later),
    decreases rows.len(),
{
    if rows.len() > 0 {
        let head = rows.drop_last();
        lemma_seeded_claims_last(jobs, head, selected, now, later);
        let before = seeded(jobs, head, selected, now);
        let row = rows.last();
        let after = seeded(jobs, rows, selected, now);
        let p = key_test(
            JobType::EmbedDocument.name(),
            embed_payload(row.document_id as int, row.model_id as int),
        );
        lemma_first_where_is_first(before.rows, p);
        assert forall|i: int|
            0 <= i < after.rows.len() && dead_claim(#[trigger] after.rows[i], later) implies dead_claim(
            after.rows[i],
            now as int,
        ) by {
            if i < before.rows.len() && after.rows[i] == before.rows[i] {
                assert(dead_claim(before.rows[i], later) ==> dead_claim(before.rows[i], now as int));
            }
        }
    }
}

/// Where no embedding makes a job necessary, seeding queues none.
proof fn lemma_seeded_nothing(
    jobs: Jobs,
    rows: Seq<EmbeddingRow>,
    selected: spec_fn(i64) -> bool,
    now: i64,
)
    requires
        forall|i: int|
            0 <= i < rows.len() ==> !needs_job(jobs, #[trigger] rows[i], selected, now as int),
    ensures
        seeded(jobs, rows, selected, now) == jobs,
        seeded_count(jobs, rows, selected, now) == 0,
    decreases rows.len(),
{
    if rows.len() > 0 {
        let head = rows.drop_last();
        assert forall|i: int| 0 <= i < head.len() implies !needs_job(
            jobs,
            #[trigger] head[i],
            selected,
            now as int,
        ) by {
            assert(head[i] == rows[i]);
        }
        lemma_seeded_nothing(jobs, head, selected, now);
        assert(!needs_job(jobs, rows.last(), selected, now as int));
    }
}

/// To seed jobs a second time queues none, unless a claim has died since.
pub proof fn lemma_seed_twice(tables: Tables, now: i64, later: i64)
    requires
        tables.wf(),
        tables.room_for_jobs(every(), now),
        claims_last(tables.jobs, now as int, later as int),
    ensures
        ({
            let once = tables.with_jobs(every(), now);
            &&& once.with_jobs(every(), later) == once
            &&& seeded_count(once.jobs, once.embeddings.rows, every(), later) == 0
        }),
{
    let rows = tables.embeddings.rows;
    let jobs = tables.with_jobs(every(), now).jobs;
    let name = JobType::EmbedDocument.name();
    lemma_seeded_claims_last(tables.jobs, rows, every(), now, later as int);
    assert forall|i: int| 0 <= i < rows.len() implies !needs_job(
        jobs,
        #[trigger] rows[i],
        every(),
        later as int,
    ) by {
        if recoverable(rows[i]) {
            let payload = embed_payload(rows[i].document_id as int, rows[i].model_id as int);
            lemma_seeded_has_jobs(tables.jobs, rows, every(), now, i);
            lemma_first_where_is_first(jobs.rows, key_test(name, payload));
            let k = jobs.find(name, payload).unwrap();
            assert(!dead_claim(jobs.rows[k], now as int));
        }
    }
    lemma_seeded_nothing(jobs, rows, every(), later);
}

/// A document that was written is found at its path as it was written, and to write it
/// again changes nothing. Time does not go back: the document that is kept at the path
/// was not updated later.
pub proof fn lemma_write_is_read_back(tables: Tables, doc: DocumentView)
    requires
        tables.wf(),
        !tables.documents_full_for(doc),
        tables.documents.latest(doc.filepath) matches Some(i) ==> tables.documents.rows[i].updated_at
            <= doc.updated_at,
    ensures
        ({
            let after = tables.with_document(doc);
            let id = tables.id_for(doc);
            &&& after.documents.latest(doc.filepath) matches Some(k) && after.documents.rows[k]
                == (DocumentRow { id, ..doc.row() }) && after.documents.rows[k] == (DocumentRow {
                id,
                filepath: doc.filepath,
                file_type: doc.file_type,
                doc_category: doc.doc_category.name(),
                file_modified_at: doc.file_modified_at,
                file_size: doc.file_size,
                updated_at: doc.updated_at,
            })
            &&& !after.changes(doc)
            &&& after.id_for(doc) == id
        }),
{
    let after = tables.with_document(doc);
    let n = tables.documents.rows.len() as int;
    let m = after.documents.rows.len() as int;
    lemma_latest(tables.documents, doc.filepath, n);
    lemma_latest(after.documents, doc.filepath, m);
    match tables.documents.latest(doc.filepath) {
        Some(i) => {
            let k = after.documents.latest(doc.filepath);
            assert(after.documents.rows[i].filepath == doc.filepath);
            if k != Some(i) {
                let other = k.unwrap();
                assert(after.documents.rows[other] == tables.documents.rows[other]);
                assert(tables.documents.rows[other].filepath == doc.filepath);
            }
        },
        None => {
            let k = after.documents.latest(doc.filepath);
            assert(after.documents.rows[n].filepath == doc.filepath);
            if k != Some(n) {
                let other = k.unwrap();
                assert(tables.documents.rows[other].filepath == doc.filepath);
            }
        },
    }
}

/// To mark documents as stale removes no embedding, leaves those of other documents and
/// those without vectors as they are, and leaves none of the selected with a vector that
/// counts.
pub proof fn lemma_stale_marks(embeddings: Embeddings, selected: spec_fn(i64) -> bool, i: int)
    requires
        0 <= i < embeddings.rows.len(),
    ensures
        embeddings.marked_stale(selected).rows.len() == embeddings.rows.len(),
        !selected(embeddings.rows[i].document_id) || embeddings.rows[i].state
            != EmbedState::Embedded ==> embeddings.marked_stale(selected).rows[i]
            == embeddings.rows[i],
        selected(embeddings.rows[i].document_id) ==> recoverable(
            embeddings.marked_stale(selected).rows[i],
        ),
{
}

/// To store a chunk leaves the embeddings of other documents and models as they are.
proof fn lemma_put_keeps_others(
    embeddings: Embeddings,
    document_id: i64,
    model_id: i64,
    write: ChunkWrite,
    now: i64,
    i: int,
)
    requires
        0 <= i < embeddings.rows.len(),
        !pair_test(document_id, model_id)(embeddings.rows[i]),
    ensures
        i < embeddings.put(document_id, model_id, write, now).rows.len(),
        embeddings.put(document_id, model_id, write, now).rows[i] == embeddings.rows[i],
{
    let p = chunk_test(document_id, model_id, write.chunk_type, write.chunk_start);
    lemma_first_where_is_first(embeddings.rows, p);
}

/// To store chunks leaves the embeddings of other documents and models as they are.
pub proof fn lemma_written_keeps_others(
    embeddings: Embeddings,
    document_id: i64,
    model_id: i64,
    writes: Seq<ChunkWrite>,
    now: i64,
    i: int,
)
    requires
        0 <= i < embeddings.rows.len(),
        !pair_test(document_id, model_id)(embeddings.rows[i]),
    ensures
        i < embeddings.written(document_id, model_id, writes, now).rows.len(),
        embeddings.written(document_id, model_id, writes, now).rows[i] == embeddings.rows[i],
    decreases writes.len(),
{
    if writes.len() > 0 {
        lemma_written_keeps_others(embeddings, document_id, model_id, writes.drop_last(), now, i);
        lemma_put_keeps_others(
            embeddings.written(document_id, model_id, writes.drop_last(), now),
            document_id,
            model_id,
            writes.last(),
            now,
            i,
        );
    }
}

/// Where all chunks that are stored have vectors and all that were there have them,
/// all have them.
proof fn lemma_written_all_embedded(
    embeddings: Embeddings,
    document_id: i64,
    model_id: i64,
    writes: Seq<ChunkWrite>,
    now: i64,
)
    requires
        forall|i: int| 0 <= i < writes.len() ==> (#[trigger] writes[i]).embedding is Some,
        forall|i: int|
            0 <= i < embeddings.rows.len() && pair_test(document_id, model_id)(
                #[trigger] embeddings.rows[i],
            ) ==> embeddings.rows[i].state == EmbedState::Embedded,
    ensures
        ({
            let after = embeddings.written(document_id, model_id, writes, now);
            forall|i: int|
                0 <= i < after.rows.len() && pair_test(document_id, model_id)(
                    #[trigger] after.rows[i],
                ) ==> after.rows[i].state == EmbedState::Embedded
        }),
    decreases writes.len(),
{
    if writes.len() > 0 {
        let head = writes.drop_last();
        assert forall|i: int| 0 <= i < head.len() implies (#[trigger] head[i]).embedding is Some by {
            assert(head[i] == writes[i]);
        }
        lemma_written_all_embedded(embeddings, document_id, model_id, head, now);
        let before = embeddings.written(document_id, model_id, head, now);
        let after = embeddings.written(document_id, model_id, writes, now);
        let write = writes.last();
        let p = chunk_test(document_id, model_id, write.chunk_type, write.chunk_start);
        lemma_first_where_is_first(before.rows, p);
        assert forall|i: int|
            0 <= i < after.rows.len() && pair_test(document_id, model_id)(
                #[trigger] after.rows[i],
            ) implies after.rows[i].state == EmbedState::Embedded by {
            if i < before.rows.len() && after.rows[i] == before.rows[i] {
                assert(pair_test(document_id, model_id)(before.rows[i]));
            }
        }
    }
}

/// After the embeddings of a document for a model were replaced, none of them has to be
/// made, and the embeddings of other documents and models are all still there.
pub proof fn lemma_replaced(
    tables: Tables,
    document_id: i64,
    model_id: i64,
    writes: Seq<ChunkWrite>,
    now: i64,
)
    requires
        tables.wf(),
        forall|i: int| 0 <= i < writes.len() ==> (#[trigger] writes[i]).embedding is Some,
    ensures
        ({
            let after = tables.without_pair(document_id, model_id).with_chunks(
                document_id,
                model_id,
                writes,
                now,
            );
            &&& forall|i: int|
                0 <= i < after.embeddings.rows.len() && pair_test(document_id, model_id)(
                    #[trigger] after.embeddings.rows[i],
                ) ==> !recoverable(after.embeddings.rows[i])
            &&& forall|i: int|
                0 <= i < tables.embeddings.rows.len() && !pair_test(document_id, model_id)(
                    #[trigger] tables.embeddings.rows[i],
                ) ==> after.embeddings.rows.contains(tables.embeddings.rows[i])
        }),
{
    let p = pair_test(document_id, model_id);
    let cleared = tables.without_pair(document_id, model_id).embeddings;
    let after = cleared.written(document_id, model_id, writes, now);
    assert forall|i: int| 0 <= i < cleared.rows.len() implies !p(#[trigger] cleared.rows[i]) by {
        let o = lemma_without_origin(tables.embeddings.rows, p, i);
    }
    lemma_written_all_embedded(cleared, document_id, model_id, writes, now);
    assert forall|i: int|
        0 <= i < tables.embeddings.rows.len() && !p(
            #[trigger] tables.embeddings.rows[i],
        ) implies after.rows.contains(tables.embeddings.rows[i]) by {
        let k = lemma_without_keeps(tables.embeddings.rows, p, i);
        lemma_written_keeps_others(cleared, document_id, model_id, writes, now, k);
        assert(after.rows[k] == tables.embeddings.rows[i]);
    }
}

/// Where the last chunk was stored.
proof fn lemma_put_index(
    embeddings: Embeddings,
    document_id: i64,
    model_id: i64,
    write: ChunkWrite,
    now: i64,
) -> (i: int)
    ensures
        ({
            let after = embeddings.put(document_id, model_id, write, now);
            &&& 0 <= i < after.rows.len()
            &&& pair_test(document_id, model_id)(after.rows[i])
            &&& after.rows[i].embedding == write.embedding
            &&& recoverable(after.rows[i]) == (write.embedding is None)
        }),
{
    let p = chunk_test(document_id, model_id, write.chunk_type, write.chunk_start);
    lemma_first_where_is_first(embeddings.rows, p);
    match first_where(embeddings.rows, p) {
        Some(i) => {
            assert(p(embeddings.rows[i]));
            i
        },
        None => embeddings.rows.len() as int,
    }
}

/// Where chunks that wait for their vectors were stored, there is an embedding to be made.
pub proof fn lemma_pending_is_recoverable(
    embeddings: Embeddings,
    document_id: i64,
    model_id: i64,
    writes: Seq<ChunkWrite>,
    now: i64,
) -> (i: int)
    requires
        writes.len() > 0,
        writes.last().embedding is None,
    ensures
        ({
            let after = embeddings.written(document_id, model_id, writes, now);
            0 <= i < after.rows.len() && recoverable_test(document_id, model_id)(after.rows[i])
        }),
{
    let before = embeddings.written(document_id, model_id, writes.drop_last(), now);
    lemma_put_index(before, document_id, model_id, writes.last(), now)
}

/// To store chunks that wait for their vectors leaves no embedding made that was to be.
pub proof fn lemma_pending_keeps_recoverable(
    embeddings: Embeddings,
    document_id: i64,
    model_id: i64,
    writes: Seq<ChunkWrite>,
    now: i64,
    i: int,
)
    requires
        forall|j: int| 0 <= j < writes.len() ==> (#[trigger] writes[j]).embedding is None,
        0 <= i < embeddings.rows.len(),
        recoverable(embeddings.rows[i]),
    ensures
        ({
            let after = embeddings.written(document_id, model_id, writes, now);
            &&& i < after.rows.len()
            &&& recoverable(after.rows[i])
            &&& after.rows[i].document_id == embeddings.rows[i].document_id
            &&& after.rows[i].model_id == embeddings.rows[i].model_id
        }),
    decreases writes.len(),
{
    if writes.len() > 0 {
        let head = writes.drop_last();
        assert forall|j: int| 0 <= j < head.len() implies (
        #[trigger] head[j]).embedding is None by {
            assert(head[j] == writes[j]);
        }
        lemma_pending_keeps_recoverable(embeddings, document_id, model_id, head, now, i);
        let before = embeddings.written(document_id, model_id, head, now);
        let write = writes.last();
        assert(writes[writes.len() - 1].embedding is None);
        lemma_first_where_is_first(
            before.rows,
            chunk_test(document_id, model_id, write.chunk_type, write.chunk_start),
        );
    }
}

/// What was ingested anew waits to be embedded: its hash is kept, there is an embedding
/// to be made, and a job for it is queued or in progress.
pub proof fn lemma_ingest_is_queued(
    tables: Tables,
    doc: DocumentView,
    hash: Seq<char>,
    content: Option<ContentReadPlan>,
    model: ModelView,
    now: i64,
)
    requires
        tables.wf(),
        tables.takes(doc, hash, facts_chunks(content, model), model.id, now),
        tables.differs(doc, hash),
    ensures
        ({
            let after = tables.ingested(doc, hash, content, model, now);
            let id = tables.id_for(doc);
            &&& after.stored_hash(id) == Some(hash)
            &&& exists|i: int|
                0 <= i < after.embeddings.rows.len() && recoverable_test(id, model.id)(
                    #[trigger] after.embeddings.rows[i],
                )
            &&& !after.jobs.accepts(
                JobType::EmbedDocument.name(),
                embed_payload(id as int, model.id as int),
                now as int,
            )
        }),
{
    let id = tables.id_for(doc);
    let chunks = facts_chunks(content, model);
    let writes = pending_writes(chunks);
    let cleared = tables.with_document(doc).without_pending(id, model.id);
    let written = cleared.with_chunks(id, model.id, writes, now);
    let after = tables.ingested(doc, hash, content, model, now);
    lemma_with_document_wf(tables, doc);
    lemma_without_wf(tables.with_document(doc), pending_test(id, model.id));
    lemma_with_chunks_wf(cleared, id, model.id, writes, now);
    assert(writes.last().embedding is None);
    let i = lemma_pending_is_recoverable(cleared.embeddings, id, model.id, writes, now);
    let rows = written.embeddings.rows;
    assert(recoverable_test(id, model.id)(rows[i]));
    assert(rows == after.embeddings.rows);
    lemma_seeded_has_jobs(written.jobs, rows, every(), now, i);
    lemma_fingerprint_is_kept(
        tables.replanned(doc, model.id, chunks, now),
        FingerprintRow {
            document_id: id,
            file_hash: hash,
            metadata_json: facts_metadata(content, model),
        },
    );
}

/// A fingerprint that was kept is found.
proof fn lemma_fingerprint_is_kept(tables: Tables, row: FingerprintRow)
    ensures
        tables.with_fingerprint(row).stored_hash(row.document_id) == Some(row.file_hash),
{
    let p = fingerprint_test(row.document_id);
    let kept = without(tables.fingerprints, p);
    let all = kept.push(row);
    assert forall|j: int| 0 <= j < kept.len() implies !p(#[trigger] all[j]) by {
        let o = lemma_without_origin(tables.fingerprints, p, j);
    }
    lemma_first_where(all, p, kept.len() as int);
}

/// To ingest a file a second time, as it was, changes nothing, whatever is read of it.
/// Time does not go back: the document that is kept at the path was not updated later.
pub proof fn lemma_ingest_twice(
    tables: Tables,
    filepath: Seq<char>,
    modified_at: i64,
    size: i64,
    hash: Seq<char>,
    content: Option<ContentReadPlan>,
    model: ModelView,
    now: i64,
    read_later: Option<ContentReadPlan>,
    later_model: ModelView,
    later: i64,
)
    requires
        tables.wf(),
        tables.takes(
            document_for(filepath, Some(modified_at), size, now),
            hash,
            facts_chunks(content, model),
            model.id,
            now,
        ),
        tables.documents.latest(filepath) matches Some(i) ==> tables.documents.rows[i].updated_at
            <= now,
    ensures
        ({
            let doc = document_for(filepath, Some(modified_at), size, now);
            let again = document_for(filepath, Some(modified_at), size, later);
            let after = tables.ingested(doc, hash, content, model, now);
            &&& !after.differs(again, hash)
            &&& after.ingested(again, hash, read_later, later_model, later) == after
            &&& after.id_for(again) == tables.id_for(doc)
        }),
{
    let doc = document_for(filepath, Some(modified_at), size, now);
    let id = tables.id_for(doc);
    let chunks = facts_chunks(content, model);
    if tables.differs(doc, hash) {
        let planned = tables.replanned(doc, model.id, chunks, now);
        lemma_write_is_read_back(tables, doc);
        assert(planned.documents == tables.with_document(doc).documents);
        lemma_fingerprint_is_kept(
            planned,
            FingerprintRow {
                document_id: id,
                file_hash: hash,
                metadata_json: facts_metadata(content, model),
            },
        );
    }
}

/// A document counts as changed if and only if there is none at its path, or its type,
/// category, time or size is another one.
pub proof fn lemma_changes_when(tables: Tables, doc: DocumentView)
    ensures
        match tables.documents.latest(doc.filepath) {
            None => tables.changes(doc),
            Some(i) => {
                let row = tables.documents.rows[i];
                tables.changes(doc) <==> row.file_type != doc.file_type || row.doc_category
                    != doc.doc_category.name() || row.file_modified_at != doc.file_modified_at
                    || row.file_size != doc.file_size
            },
        },
{
}

/// The fingerprint that was written is read back, and the others are as they were.
pub proof fn lemma_fingerprint_is_read_back(tables: Tables, row: FingerprintRow, other: i64)
    requires
        other != row.document_id,
    ensures
        tables.with_fingerprint(row).stored_hash(row.document_id) == Some(row.file_hash),
        tables.with_fingerprint(row).stored_hash(other) == tables.stored_hash(other),
{
    let p = fingerprint_test(row.document_id);
    let q = fingerprint_test(other);
    let before = tables.fingerprints;
    let kept = without(before, p);
    let after = tables.with_fingerprint(row).fingerprints;
    lemma_first_where_is_first(after, p);
    lemma_first_where_is_first(after, q);
    lemma_first_where_is_first(before, q);
    assert forall|i: int| 0 <= i < kept.len() implies !p(#[trigger] kept[i]) by {
        let o = lemma_without_origin(before, p, i);
    }
    assert(after[kept.len() as int] == row);
    match first_where(after, p) {
        Some(i) => {
            assert(p(after[i]));
            if i < kept.len() {
                assert(after[i] == kept[i]);
            }
        },
        None => {
            assert(!p(after[kept.len() as int]));
        },
    }
    lemma_first_of_kept(before, p, q);
    lemma_first_where_is_first(kept, q);
    match first_where(kept, q) {
        Some(i) => {
            assert(q(kept[i]));
            assert(after[i] == kept[i]);
            assert forall|j: int| 0 <= j < i implies !q(#[trigger] after[j]) by {
                assert(after[j] == kept[j]);
            }
            assert(is_first(after, q, i));
            lemma_first_where(after, q, i);
        },
        None => {
            if let Some(i) = first_where(after, q) {
                assert(q(after[i]));
                if i < kept.len() {
                    assert(after[i] == kept[i]);
                }
            }
        },
    }
}

/// The first row with a property is the first one still, where rows without it are removed.
proof fn lemma_first_of_kept<R>(rows: Seq<R>, p: spec_fn(R) -> bool, q: spec_fn(R) -> bool)
    requires
        forall|row: R| #[trigger] q(row) ==> !p(row),
    ensures
        first_where(rows, q) is Some <==> first_where(without(rows, p), q) is Some,
        first_where(rows, q) is Some ==> rows[first_where(rows, q).unwrap()] == without(
            rows,
            p,
        )[first_where(without(rows, p), q).unwrap()],
    decreases rows.len(),
{
    reveal(Seq::filter);
    lemma_first_where_is_first(rows, q);
    lemma_first_where_is_first(without(rows, p), q);
    if rows.len() > 0 {
        let head = rows.drop_last();
        let kept = without(head, p);
        let all = without(rows, p);
        let n = head.len() as int;
        lemma_first_of_kept(head, p, q);
        lemma_first_where_is_first(head, q);
        lemma_first_where_is_first(kept, q);
        assert(rows[n] == rows.last());
        assert(all == if p(rows.last()) {
            kept
        } else {
            kept.push(rows.last())
        });
        match first_where(head, q) {
            Some(f) => {
                let i = first_where(kept, q).unwrap();
                assert forall|j: int| 0 <= j < f implies !q(#[trigger] rows[j]) by {
                    assert(rows[j] == head[j]);
                }
                assert(q(head[f]));
                assert(rows[f] == head[f]);
                assert(is_first(rows, q, f));
                lemma_first_where(rows, q, f);
                assert forall|j: int| 0 <= j < i implies !q(#[trigger] all[j]) by {
                    assert(all[j] == kept[j]);
                }
                assert(q(kept[i]));
                assert(all[i] == kept[i]);
                assert(is_first(all, q, i));
                lemma_first_where(all, q, i);
            },
            None => {
                assert forall|j: int| 0 <= j < n implies !q(#[trigger] rows[j]) by {
                    assert(rows[j] == head[j]);
                }
                assert forall|j: int| 0 <= j < kept.len() implies !q(#[trigger] all[j]) by {
                    assert(all[j] == kept[j]);
                }
                if q(rows.last()) {
                    assert(is_first(rows, q, n));
                    lemma_first_where(rows, q, n);
                    assert(all[kept.len() as int] == rows.last());
                    assert(is_first(all, q, kept.len() as int));
                    lemma_first_where(all, q, kept.len() as int);
                }
            },
        }
    }
}

/// Whether an embedding holds a chunk as it was to be stored.
pub open spec fn holds_chunk(row: EmbeddingRow, document_id: i64, model_id: i64, write: ChunkWrite)
    -> bool {
    &&& row.document_id == document_id
    &&& row.model_id == model_id
    &&& row.chunk_type == write.chunk_type
    &&& row.chunk_start == write.chunk_start
    &&& row.chunk_end == write.chunk_end
    &&& row.embedding == write.embedding
    &&& row.state == EmbedState::Embedded <==> write.embedding is Some
    &&& row.state == EmbedState::Pending <==> write.embedding is None
}

/// Each chunk that was stored is read back, unless one that starts at the same place was
/// stored after it.
pub proof fn lemma_written_is_read_back(
    embeddings: Embeddings,
    document_id: i64,
    model_id: i64,
    writes: Seq<ChunkWrite>,
    now: i64,
    w: int,
)
    requires
        0 <= w < writes.len(),
        forall|j: int|
            w < j < writes.len() ==> !((#[trigger] writes[j]).chunk_type == writes[w].chunk_type
                && writes[j].chunk_start == writes[w].chunk_start),
    ensures
        exists|i: int|
            {
                &&& 0 <= i < embeddings.written(document_id, model_id, writes, now).rows.len()
                &&& holds_chunk(
                    #[trigger] embeddings.written(document_id, model_id, writes, now).rows[i],
                    document_id,
                    model_id,
                    writes[w],
                )
            },
    decreases writes.len(),
{
    let head = writes.drop_last();
    let before = embeddings.written(document_id, model_id, head, now);
    let after = embeddings.written(document_id, model_id, writes, now);
    let last = writes.last();
    let p = chunk_test(document_id, model_id, last.chunk_type, last.chunk_start);
    lemma_first_where_is_first(before.rows, p);
    if w == writes.len() - 1 {
        let at = match first_where(before.rows, p) {
            Some(i) => {
                assert(p(before.rows[i]));
                i
            },
            None => before.rows.len() as int,
        };
        assert(holds_chunk(after.rows[at], document_id, model_id, writes[w]));
    } else {
        assert forall|j: int| w < j < head.len() implies !((#[trigger] head[j]).chunk_type
            == head[w].chunk_type && head[j].chunk_start == head[w].chunk_start) by {
            assert(head[j] == writes[j]);
        }
        assert(head[w] == writes[w]);
        lemma_written_is_read_back(embeddings, document_id, model_id, head, now, w);
        let i = choose|i: int|
            {
                &&& 0 <= i < before.rows.len()
                &&& holds_chunk(#[trigger] before.rows[i], document_id, model_id, writes[w])
            };
        assert(writes[writes.len() - 1] == last);
        assert(!p(before.rows[i]));
        if let Some(at) = first_where(before.rows, p) {
            assert(p(before.rows[at]));
        }
        assert(after.rows[i] == before.rows[i]);
    }
}

/// Seeding queues jobs only for embeddings that are to be made, and leaves all other jobs
/// as they were.
pub proof fn lemma_seeded_only(
    jobs: Jobs,
    rows: Seq<EmbeddingRow>,
    selected: spec_fn(i64) -> bool,
    now: i64,
    k: int,
)
    requires
        0 <= k < seeded(jobs, rows, selected, now).rows.len(),
    ensures
        ({
            let job = seeded(jobs, rows, selected, now).rows[k];
            ||| k < jobs.rows.len() && job == jobs.rows[k]
            ||| {
                &&& job.job_type == JobType::EmbedDocument.name()
                &&& job.claimed_at is None
                &&& job.created_at == now
                &&& exists|i: int|
                    {
                        &&& 0 <= i < rows.len()
                        &&& (#[trigger] rows[i]).state != EmbedState::Embedded
                        &&& selected(rows[i].document_id)
                        &&& job.payload == embed_payload(
                            rows[i].document_id as int,
                            rows[i].model_id as int,
                        )
                    }
            }
        }),
        jobs.rows.len() <= seeded(jobs, rows, selected, now).rows.len(),
    decreases rows.len(),
{
    if rows.len() > 0 {
        let head = rows.drop_last();
        let before = seeded(jobs, head, selected, now);
        let after = seeded(jobs, rows, selected, now);
        let row = rows.last();
        let name = JobType::EmbedDocument.name();
        let payload = embed_payload(row.document_id as int, row.model_id as int);
        let n = rows.len() - 1;
        if k < before.rows.len() {
            lemma_seeded_only(jobs, head, selected, now, k);
        } else if before.rows.len() > 0 {
            lemma_seeded_only(jobs, head, selected, now, 0);
        } else {
            lemma_seeded_grows(jobs, head, selected, now);
        }
        if k < before.rows.len() && after.rows[k] == before.rows[k] {
            if !(k < jobs.rows.len() && before.rows[k] == jobs.rows[k]) {
                let i = choose|i: int|
                    {
                        &&& 0 <= i < head.len()
                        &&& (#[trigger] head[i]).state != EmbedState::Embedded
                        &&& selected(head[i].document_id)
                        &&& before.rows[k].payload == embed_payload(
                            head[i].document_id as int,
                            head[i].model_id as int,
                        )
                    };
                assert(rows[i] == head[i]);
            }
        } else {
            let p = key_test(name, payload);
            lemma_first_where_is_first(before.rows, p);
            if let Some(at) = first_where(before.rows, p) {
                assert(p(before.rows[at]));
            }
            assert(rows[n] == row);
        }
    }
}

proof fn lemma_seeded_grows(
    jobs: Jobs,
    rows: Seq<EmbeddingRow>,
    selected: spec_fn(i64) -> bool,
    now: i64,
)
    ensures
        jobs.rows.len() <= seeded(jobs, rows, selected, now).rows.len(),
    decreases rows.len(),
{
    if rows.len() > 0 {
        lemma_seeded_grows(jobs, rows.drop_last(), selected, now);
    }
}

/// An embedding has to be made unless it has a vector that counts.
pub proof fn lemma_recoverable(row: EmbeddingRow)
    ensures
        recoverable(row) <==> row.state != EmbedState::Embedded,
{
}

/// Whether an embedding holds one of the chunks as it was to be stored.
pub open spec fn holds_one_of(
    row: EmbeddingRow,
    document_id: i64,
    model_id: i64,
    writes: Seq<ChunkWrite>,
) -> bool {
    exists|w: int|
        0 <= w < writes.len() && holds_chunk(row, document_id, model_id, #[trigger] writes[w])
}

/// After chunks were stored, each embedding is as it was or holds one of them.
pub proof fn lemma_written_from(
    embeddings: Embeddings,
    document_id: i64,
    model_id: i64,
    writes: Seq<ChunkWrite>,
    now: i64,
    i: int,
)
    requires
        0 <= i < embeddings.written(document_id, model_id, writes, now).rows.len(),
    ensures
        ({
            let row = embeddings.written(document_id, model_id, writes, now).rows[i];
            ||| i < embeddings.rows.len() && row == embeddings.rows[i]
            ||| holds_one_of(row, document_id, model_id, writes)
        }),
    decreases writes.len(),
{
    if writes.len() > 0 {
        let head = writes.drop_last();
        let before = embeddings.written(document_id, model_id, head, now);
        let after = embeddings.written(document_id, model_id, writes, now);
        let last = writes.last();
        let n = writes.len() - 1;
        let p = chunk_test(document_id, model_id, last.chunk_type, last.chunk_start);
        lemma_first_where_is_first(before.rows, p);
        if let Some(at) = first_where(before.rows, p) {
            assert(p(before.rows[at]));
        }
        if i < before.rows.len() && after.rows[i] == before.rows[i] {
            lemma_written_from(embeddings, document_id, model_id, head, now, i);
            if holds_one_of(before.rows[i], document_id, model_id, head) {
                let w = choose|w: int|
                    0 <= w < head.len() && holds_chunk(
                        before.rows[i],
                        document_id,
                        model_id,
                        #[trigger] head[w],
                    );
                assert(writes[w] == head[w]);
            }
        } else {
            assert(holds_chunk(after.rows[i], document_id, model_id, writes[n]));
        }
    }
}

/// After the embeddings of a document for a model were replaced, they are the chunks that
/// were stored and nothing else.
pub proof fn lemma_replaced_by(
    tables: Tables,
    document_id: i64,
    model_id: i64,
    writes: Seq<ChunkWrite>,
    now: i64,
    i: int,
)
    requires
        ({
            let after = tables.without_pair(document_id, model_id).with_chunks(
                document_id,
                model_id,
                writes,
                now,
            );
            &&& 0 <= i < after.embeddings.rows.len()
            &&& after.embeddings.rows[i].document_id == document_id
            &&& after.embeddings.rows[i].model_id == model_id
        }),
    ensures
        holds_one_of(
            tables.without_pair(document_id, model_id).with_chunks(
                document_id,
                model_id,
                writes,
                now,
            ).embeddings.rows[i],
            document_id,
            model_id,
            writes,
        ),
{
    let p = pair_test(document_id, model_id);
    let cleared = tables.without_pair(document_id, model_id).embeddings;
    lemma_written_from(cleared, document_id, model_id, writes, now, i);
    if i < cleared.rows.len() {
        let o = lemma_without_origin(tables.embeddings.rows, p, i);
        assert(!p(cleared.rows[i]));
    }
}

/// After a document was planned again none of its embeddings counts any more, those that
/// wait for a vector of the model are the chunks of the plan, and those of other documents
/// are all still there.
pub proof fn lemma_replanned(
    tables: Tables,
    doc: DocumentView,
    model_id: i64,
    chunks: Seq<(ChunkType, i64, i64)>,
    now: i64,
)
    requires
        tables.wf(),
        !tables.documents_full_for(doc),
    ensures
        ({
            let after = tables.replanned(doc, model_id, chunks, now).embeddings.rows;
            let id = tables.id_for(doc);
            &&& forall|i: int|
                0 <= i < after.len() && (#[trigger] after[i]).document_id == id ==> after[i].state
                    != EmbedState::Embedded
            &&& forall|i: int|
                0 <= i < after.len() && (#[trigger] after[i]).document_id == id && after[i].model_id
                    == model_id && after[i].state == EmbedState::Pending ==> chunks.contains(
                    (after[i].chunk_type, after[i].chunk_start, after[i].chunk_end),
                )
            &&& forall|i: int|
                0 <= i < tables.embeddings.rows.len() && (
                #[trigger] tables.embeddings.rows[i]).document_id != id ==> after.contains(
                    tables.embeddings.rows[i],
                )
        }),
{
    let id = tables.id_for(doc);
    let p = pending_test(id, model_id);
    let before = tables.embeddings;
    let marked = tables.with_document(doc).embeddings;
    let cleared = tables.with_document(doc).without_pending(id, model_id).embeddings;
    let writes = pending_writes(chunks);
    let after = tables.replanned(doc, model_id, chunks, now).embeddings;
    assert(after == cleared.written(id, model_id, writes, now));
    lemma_latest(tables.documents, doc.filepath, tables.documents.rows.len() as int);
    assert(marked.rows.len() == before.rows.len());
    assert forall|i: int| 0 <= i < before.rows.len() implies ((
    #[trigger] marked.rows[i]).document_id == id ==> marked.rows[i].state != EmbedState::Embedded)
        && (before.rows[i].document_id != id ==> marked.rows[i] == before.rows[i]) by {
        match tables.documents.latest(doc.filepath) {
            Some(k) => {
                lemma_stale_marks(before, only(id), i);
            },
            None => {
                assert(tables.documents.has(before.rows[i].document_id));
            },
        }
    }
    assert forall|i: int| 0 <= i < cleared.rows.len() implies !p(#[trigger] cleared.rows[i]) && (
    cleared.rows[i].document_id == id ==> cleared.rows[i].state != EmbedState::Embedded) by {
        let o = lemma_without_origin(marked.rows, p, i);
        assert(marked.rows[o] == cleared.rows[i]);
    }
    assert forall|i: int| 0 <= i < after.rows.len() && (#[trigger] after.rows[i]).document_id
        == id implies after.rows[i].state != EmbedState::Embedded && (after.rows[i].model_id
        == model_id && after.rows[i].state == EmbedState::Pending ==> chunks.contains(
        (after.rows[i].chunk_type, after.rows[i].chunk_start, after.rows[i].chunk_end),
    )) by {
        lemma_written_from(cleared, id, model_id, writes, now, i);
        if i < cleared.rows.len() && after.rows[i] == cleared.rows[i] {
            assert(!p(cleared.rows[i]));
        } else {
            let w = choose|w: int|
                0 <= w < writes.len() && holds_chunk(
                    after.rows[i],
                    id,
                    model_id,
                    #[trigger] writes[w],
                );
            assert(writes[w].embedding is None);
            assert(chunks[w] == (
                after.rows[i].chunk_type,
                after.rows[i].chunk_start,
                after.rows[i].chunk_end,
            ));
        }
    }
    assert forall|i: int|
        0 <= i < before.rows.len() && (#[trigger] before.rows[i]).document_id
            != id implies after.rows.contains(before.rows[i]) by {
        assert(marked.rows[i] == before.rows[i]);
        let k = lemma_without_keeps(marked.rows, p, i);
        lemma_written_keeps_others(cleared, id, model_id, writes, now, k);
        assert(after.rows[k] == before.rows[i]);
    }
}

} // verus!
