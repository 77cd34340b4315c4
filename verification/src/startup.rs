//! What is put in order before workers start: the configured model has a row, and every
//! embedding that has to be made has a job.

use crate::ingest::{
    backfill_pending_for_model, facts_chunks, lemma_stops_is_refused, BackfillSource,
};
use crate::models::{
    Document, DocumentRow, EmbeddingIdentity, EmbeddingModel, EmbeddingRow, IdentityView, ModelView,
};
use crate::repository::{
    by_path, documents_of, find_model_by_identity, insert_model, lemma_by_path,
    lemma_with_model_wf, list_documents, recoverable_test, seed_embed_jobs, unreadable_test,
    RepositoryError,
};
use crate::rows::{
    first_where, lemma_first_exists, lemma_first_where, lemma_first_where_is_first,
};
use crate::store::{
    embed_payload, every, identity_test, lemma_ids_left_for_chunks, lemma_ids_left_for_jobs,
    lemma_seeded_wf, lemma_with_chunks_wf, model_id_test, pending_writes, recoverable, seeded_count,
    Store, Tables,
};
use crate::store_laws::{
    claims_last, lemma_pending_is_recoverable, lemma_pending_keeps_recoverable, lemma_seed_twice,
    lemma_seeded_claims_last, lemma_seeded_has_jobs,
};
use crate::types::{EmbedState, JobType};
use vstd::prelude::*;

verus! {

/// What was found at the start, in one word.
#[derive(Clone, Copy, Debug, PartialEq, Eq, Structural)]
pub enum StartupSummaryKind {
    /// There are no documents yet.
    Empty,
    /// There are embeddings to be made.
    Recovered,
    /// There are documents, and nothing to be made.
    Idle,
}

/// What was put in order at the start.
#[derive(Clone, Debug, PartialEq, Eq)]
pub struct StartupEmbeddingState {
    /// The row of the configured model.
    pub model: EmbeddingModel,
    /// The number of documents that were queued for a model that is new.
    pub backfilled_documents: usize,
    /// The number of jobs that were queued besides.
    pub seeded_jobs: usize,
    /// The number of documents.
    pub document_count: usize,
    /// The number of documents and models with an embedding to be made.
    pub recoverable_pairs: usize,
    pub summary_kind: StartupSummaryKind,
}

pub open spec fn spec_summary(document_count: int, recoverable_pairs: int) -> StartupSummaryKind {
    if document_count == 0 {
        StartupSummaryKind::Empty
    } else if recoverable_pairs > 0 {
        StartupSummaryKind::Recovered
    } else {
        StartupSummaryKind::Idle
    }
}

/// What was found at the start, in one word.
pub fn classify_summary(document_count: usize, recoverable_pairs: usize) -> (kind:
    StartupSummaryKind)
    ensures
        kind == spec_summary(document_count as int, recoverable_pairs as int),
{
    if document_count == 0 {
        StartupSummaryKind::Empty
    } else if recoverable_pairs > 0 {
        StartupSummaryKind::Recovered
    } else {
        StartupSummaryKind::Idle
    }
}

/// The documents and models with an embedding to be made.
pub open spec fn recoverable_pairs(rows: Seq<EmbeddingRow>) -> Set<(i64, i64)>
    decreases rows.len(),
{
    if rows.len() == 0 {
        Set::empty()
    } else {
        let before = recoverable_pairs(rows.drop_last());
        if recoverable(rows.last()) {
            before.insert((rows.last().document_id, rows.last().model_id))
        } else {
            before
        }
    }
}

/// A pair is in the set just where a row puts it there.
pub proof fn lemma_recoverable_pairs(rows: Seq<EmbeddingRow>, pair: (i64, i64))
    ensures
        recoverable_pairs(rows).finite(),
        recoverable_pairs(rows).contains(pair) <==> exists|i: int|
            0 <= i < rows.len() && recoverable(#[trigger] rows[i]) && (
                rows[i].document_id,
                rows[i].model_id,
            ) == pair,
    decreases rows.len(),
{
    if rows.len() > 0 {
        let head = rows.drop_last();
        lemma_recoverable_pairs(head, pair);
        if recoverable_pairs(rows).contains(pair) {
            if recoverable_pairs(head).contains(pair) {
                let i = choose|i: int|
                    0 <= i < head.len() && recoverable(#[trigger] head[i]) && (
                        head[i].document_id,
                        head[i].model_id,
                    ) == pair;
                assert(rows[i] == head[i]);
            } else {
                assert(recoverable(rows[rows.len() - 1]));
            }
        }
        if exists|i: int|
            0 <= i < rows.len() && recoverable(#[trigger] rows[i]) && (
                rows[i].document_id,
                rows[i].model_id,
            ) == pair {
            let i = choose|i: int|
                0 <= i < rows.len() && recoverable(#[trigger] rows[i]) && (
                    rows[i].document_id,
                    rows[i].model_id,
                ) == pair;
            if i < head.len() {
                assert(head[i] == rows[i]);
            }
        }
    }
}

/// Counts the documents and models with an embedding to be made.
pub fn load_recoverable_pair_count(store: &Store) -> (count: usize)
    ensures
        count == recoverable_pairs(store@.embeddings.rows).len(),
{
    let ghost rows = store@.embeddings.rows;
    let mut count: usize = 0;
    let mut i: usize = 0;
    while i < store.embeddings.rows.len()
        invariant
            i <= store.embeddings.rows.len(),
            count <= i,
            rows == store@.embeddings.rows,
            count == recoverable_pairs(rows.take(i as int)).len(),
        decreases store.embeddings.rows.len() - i,
    {
        let row = &store.embeddings.rows[i];
        let ghost pair = (row.document_id, row.model_id);
        let mut fresh: bool = row.state != EmbedState::Embedded;
        let mut j: usize = 0;
        while j < i
            invariant
                j <= i < store.embeddings.rows.len(),
                rows == store@.embeddings.rows,
                row == store.embeddings.rows@[i as int],
                pair == (row.document_id, row.model_id),
                fresh == (recoverable(row@) && forall|k: int|
                    0 <= k < j ==> !(recoverable(#[trigger] rows[k]) && (
                        rows[k].document_id,
                        rows[k].model_id,
                    ) == pair)),
            decreases i - j,
        {
            let other = &store.embeddings.rows[j];
            if other.state != EmbedState::Embedded && other.document_id == row.document_id
                && other.model_id == row.model_id {
                fresh = false;
                proof {
                    assert(recoverable(rows[j as int]));
                }
            }
            j = j + 1;
        }
        proof {
            let head = rows.take(i as int);
            let next = rows.take(i + 1);
            assert(next.drop_last() =~= head);
            assert(next.last() == row@);
            lemma_recoverable_pairs(head, pair);
            if recoverable_pairs(head).contains(pair) {
                let k = choose|k: int|
                    0 <= k < head.len() && recoverable(#[trigger] head[k]) && (
                        head[k].document_id,
                        head[k].model_id,
                    ) == pair;
                assert(rows[k] == head[k]);
                assert(!fresh);
                assert(recoverable_pairs(head).insert(pair) =~= recoverable_pairs(head));
            } else if !fresh && recoverable(row@) {
                let k = choose|k: int|
                    0 <= k < i && recoverable(#[trigger] rows[k]) && (
                        rows[k].document_id,
                        rows[k].model_id,
                    ) == pair;
                assert(head[k] == rows[k]);
            }
        }
        if fresh {
            count = count + 1;
        }
        i = i + 1;
    }
    proof {
        assert(rows.take(i as int) =~= rows);
    }
    count
}

/// The model that is added for an identity.
pub open spec fn new_model(identity: IdentityView, now: i64) -> ModelView {
    ModelView {
        id: 0,
        name: identity.name,
        dimensions: identity.dimensions,
        chunk_size: identity.chunk_size,
        chunk_overlap: identity.chunk_overlap,
        created_at: now,
    }
}

impl Tables {
    /// Whether the configured model has no row yet.
    pub open spec fn model_is_new(self, identity: IdentityView) -> bool {
        first_where(self.models.rows, identity_test(identity)) is None
    }

    /// The row of the configured model: the one it has, or the one it is given.
    pub open spec fn model_for(self, identity: IdentityView, now: i64) -> ModelView {
        match first_where(self.models.rows, identity_test(identity)) {
            Some(i) => self.models.rows[i],
            None => ModelView {
                id: (self.models.last_id + 1) as i64,
                ..new_model(identity, now)
            },
        }
    }

    /// The tables before the last pass over the jobs: with a row for the configured
    /// model and, where it is new, with all documents queued for it.
    pub open spec fn prepared(
        self,
        identity: IdentityView,
        sources: Seq<BackfillSource>,
        now: i64,
    ) -> Tables {
        if self.model_is_new(identity) {
            let model = self.model_for(identity, now);
            self.with_model(identity, now).backfilled(sources, model, now).with_jobs(every(), now)
        } else {
            self
        }
    }

    /// The tables with a row for the configured model.
    pub open spec fn with_model(self, identity: IdentityView, now: i64) -> Tables {
        Tables { models: self.models.inserted(new_model(identity, now)), ..self }
    }

    /// Whether each step of the start can be carried out.
    pub open spec fn takes_startup(
        self,
        identity: IdentityView,
        sources: Seq<BackfillSource>,
        now: i64,
    ) -> bool {
        &&& self.model_is_new(identity) ==> {
            let model = self.model_for(identity, now);
            let with_model = self.with_model(identity, now);
            &&& self.models.last_id < i64::MAX
            &&& with_model.takes_backfill(sources, model, now)
            &&& with_model.backfilled(sources, model, now).room_for_jobs(every(), now)
        }
        &&& self.prepared(identity, sources, now).room_for_jobs(every(), now)
    }

    /// Why a step of the start cannot be carried out, and what the steps before it left.
    pub open spec fn startup_stops(
        self,
        error: RepositoryError,
        identity: IdentityView,
        sources: Seq<BackfillSource>,
        now: i64,
        after: Tables,
    ) -> bool {
        let model = self.model_for(identity, now);
        if self.model_is_new(identity) && self.models.last_id == i64::MAX {
            error is Full && after == self
        } else {
            ||| self.model_is_new(identity) && self.with_model(identity, now).backfill_stops(
                error,
                sources,
                model,
                now,
                after,
            )
            ||| error is Full && after == self.prepared(identity, sources, now)
                && !after.room_for_jobs(every(), now)
        }
    }

    /// Whether there are ids for all that is added at the start, and the documents are
    /// there.
    pub open spec fn ready(
        self,
        identity: IdentityView,
        sources: Seq<BackfillSource>,
        now: i64,
    ) -> bool {
        if self.model_is_new(identity) {
            let added = total_chunks(sources, self.model_for(identity, now));
            &&& self.models.last_id < i64::MAX
            &&& forall|i: int|
                0 <= i < sources.len() ==> self.documents.has((#[trigger] sources[i]).document_id)
            &&& self.embeddings.last_id + added <= i64::MAX
            &&& self.jobs.last_id + 2 * (self.embeddings.rows.len() + added) <= i64::MAX
        } else {
            self.jobs.last_id + self.embeddings.rows.len() <= i64::MAX
        }
    }
}

/// The number of chunks that are queued for documents.
pub open spec fn total_chunks(sources: Seq<BackfillSource>, model: ModelView) -> nat
    decreases sources.len(),
{
    if sources.len() == 0 {
        0
    } else {
        total_chunks(sources.drop_last(), model) + facts_chunks(
            sources.last().content,
            model,
        ).len()
    }
}

/// What is queued for documents takes no more ids than it has chunks.
proof fn lemma_backfilled_growth(
    tables: Tables,
    sources: Seq<BackfillSource>,
    model: ModelView,
    now: i64,
    k: int,
)
    requires
        tables.wf(),
        tables.models.has(model.id),
        forall|i: int|
            0 <= i < sources.len() ==> tables.documents.has((#[trigger] sources[i]).document_id),
        tables.embeddings.last_id + total_chunks(sources, model) <= i64::MAX,
        0 <= k <= sources.len(),
    ensures
        ({
            let after = tables.backfilled(sources.take(k), model, now);
            &&& after.wf()
            &&& after.documents == tables.documents
            &&& after.models == tables.models
            &&& after.jobs == tables.jobs
            &&& after.embeddings.last_id <= tables.embeddings.last_id + total_chunks(
                sources.take(k),
                model,
            )
            &&& after.embeddings.rows.len() <= tables.embeddings.rows.len() + total_chunks(
                sources.take(k),
                model,
            )
            &&& total_chunks(sources.take(k), model) <= total_chunks(sources, model)
            &&& k < sources.len() ==> total_chunks(sources.take(k), model) + facts_chunks(
                sources[k].content,
                model,
            ).len() <= total_chunks(sources, model)
        }),
    decreases k,
{
    lemma_total_monotonic(sources, model, k);
    if k > 0 {
        lemma_backfilled_growth(tables, sources, model, now, k - 1);
        lemma_total_monotonic(sources, model, k - 1);
        let head = sources.take(k - 1);
        let part = sources.take(k);
        assert(part.drop_last() =~= head);
        assert(part.last() == sources[k - 1]);
        let before = tables.backfilled(head, model, now);
        let chunks = facts_chunks(sources[k - 1].content, model);
        lemma_ids_left_for_chunks(
            before.embeddings,
            sources[k - 1].document_id,
            model.id,
            pending_writes(chunks),
            now,
        );
        lemma_with_chunks_wf(
            before,
            sources[k - 1].document_id,
            model.id,
            pending_writes(chunks),
            now,
        );
    } else {
        assert(sources.take(0) =~= Seq::<BackfillSource>::empty());
    }
}

proof fn lemma_total_monotonic(sources: Seq<BackfillSource>, model: ModelView, k: int)
    requires
        0 <= k <= sources.len(),
    ensures
        total_chunks(sources.take(k), model) <= total_chunks(sources, model),
        k < sources.len() ==> total_chunks(sources.take(k), model) + facts_chunks(
            sources[k].content,
            model,
        ).len() <= total_chunks(sources, model),
    decreases sources.len() - k,
{
    if k < sources.len() {
        lemma_total_monotonic(sources, model, k + 1);
        assert(sources.take(k + 1).drop_last() =~= sources.take(k));
        assert(sources.take(k + 1).last() == sources[k]);
    } else {
        assert(sources.take(k) =~= sources);
    }
}

/// The start succeeds wherever the documents are there and ids are left for their chunks
/// and jobs.
pub proof fn lemma_ready_starts(
    tables: Tables,
    identity: IdentityView,
    sources: Seq<BackfillSource>,
    now: i64,
)
    requires
        tables.wf(),
        tables.ready(identity, sources, now),
    ensures
        tables.takes_startup(identity, sources, now),
{
    if tables.model_is_new(identity) {
        let model = tables.model_for(identity, now);
        let with_model = tables.with_model(identity, now);
        lemma_with_model_wf(tables, new_model(identity, now));
        lemma_backfill_fits(with_model, sources, model, now, sources.len() as int);
        assert(sources.take(sources.len() as int) =~= sources);
        lemma_backfilled_growth(with_model, sources, model, now, sources.len() as int);
        let filled = with_model.backfilled(sources, model, now);
        lemma_ids_left_for_jobs(filled.jobs, filled.embeddings.rows, every(), now);
        let prepared = tables.prepared(identity, sources, now);
        lemma_ids_left_for_jobs(prepared.jobs, prepared.embeddings.rows, every(), now);
    } else {
        lemma_ids_left_for_jobs(tables.jobs, tables.embeddings.rows, every(), now);
    }
}

/// With ids for all chunks each document can be queued after those before it.
proof fn lemma_backfill_fits(
    tables: Tables,
    sources: Seq<BackfillSource>,
    model: ModelView,
    now: i64,
    k: int,
)
    requires
        tables.wf(),
        tables.models.has(model.id),
        forall|i: int|
            0 <= i < sources.len() ==> tables.documents.has((#[trigger] sources[i]).document_id),
        tables.embeddings.last_id + total_chunks(sources, model) <= i64::MAX,
        0 <= k <= sources.len(),
    ensures
        tables.takes_backfill(sources.take(k), model, now),
    decreases k,
{
    if k > 0 {
        lemma_backfill_fits(tables, sources, model, now, k - 1);
        lemma_backfilled_growth(tables, sources, model, now, k - 1);
        assert(sources.take(k).drop_last() =~= sources.take(k - 1));
        assert(sources.take(k).last() == sources[k - 1]);
        lemma_ids_left_for_chunks(
            tables.backfilled(sources.take(k - 1), model, now).embeddings,
            sources[k - 1].document_id,
            model.id,
            pending_writes(facts_chunks(sources[k - 1].content, model)),
            now,
        );
    }
}

/// What is queued for documents leaves the other tables as they are.
proof fn lemma_backfilled_keeps(
    tables: Tables,
    sources: Seq<BackfillSource>,
    model: ModelView,
    now: i64,
)
    requires
        tables.wf(),
        tables.takes_backfill(sources, model, now),
    ensures
        ({
            let after = tables.backfilled(sources, model, now);
            &&& after.wf()
            &&& after.documents == tables.documents
            &&& after.models == tables.models
            &&& after.jobs == tables.jobs
        }),
    decreases sources.len(),
{
    if sources.len() > 0 {
        let head = sources.drop_last();
        lemma_backfilled_keeps(tables, head, model, now);
        lemma_with_chunks_wf(
            tables.backfilled(head, model, now),
            sources.last().document_id,
            model.id,
            pending_writes(facts_chunks(sources.last().content, model)),
            now,
        );
    }
}

/// Each document that was queued for a model has an embedding to be made for it.
proof fn lemma_backfilled_has(
    tables: Tables,
    sources: Seq<BackfillSource>,
    model: ModelView,
    now: i64,
    k: int,
) -> (i: int)
    requires
        0 <= k < sources.len(),
    ensures
        ({
            let rows = tables.backfilled(sources, model, now).embeddings.rows;
            0 <= i < rows.len() && recoverable_test(sources[k].document_id, model.id)(rows[i])
        }),
    decreases sources.len(),
{
    let head = sources.drop_last();
    let before = tables.backfilled(head, model, now);
    let last = sources.last();
    let writes = pending_writes(facts_chunks(last.content, model));
    if k < head.len() {
        let i = lemma_backfilled_has(tables, head, model, now, k);
        lemma_pending_keeps_recoverable(
            before.embeddings,
            last.document_id,
            model.id,
            writes,
            now,
            i,
        );
        i
    } else {
        lemma_pending_is_recoverable(
            before.embeddings,
            last.document_id,
            model.id,
            writes,
            now,
        )
    }
}

/// Whether a document is among those whose content was read.
pub open spec fn among(sources: Seq<BackfillSource>, document_id: i64) -> bool {
    exists|k: int| 0 <= k < sources.len() && (#[trigger] sources[k]).document_id == document_id
}

/// A start with a model that is new leaves work for every document that was there: an
/// embedding to be made for the model, and a job for it that is queued or in progress.
pub proof fn lemma_new_model_gets_all(
    tables: Tables,
    identity: IdentityView,
    sources: Seq<BackfillSource>,
    now: i64,
    d: int,
)
    requires
        tables.wf(),
        tables.model_is_new(identity),
        tables.takes_startup(identity, sources, now),
        forall|d: int|
            0 <= d < tables.documents.rows.len() ==> among(
                sources,
                (#[trigger] tables.documents.rows[d]).id,
            ),
        0 <= d < tables.documents.rows.len(),
    ensures
        ({
            let model = tables.model_for(identity, now);
            let started = tables.prepared(identity, sources, now).with_jobs(every(), now);
            let id = tables.documents.rows[d].id;
            &&& exists|i: int|
                0 <= i < started.embeddings.rows.len() && recoverable_test(id, model.id)(
                    #[trigger] started.embeddings.rows[i],
                )
            &&& !started.jobs.accepts(
                JobType::EmbedDocument.name(),
                embed_payload(id as int, model.id as int),
                now as int,
            )
        }),
{
    let model = tables.model_for(identity, now);
    let with_model = tables.with_model(identity, now);
    let filled = with_model.backfilled(sources, model, now);
    let prepared = tables.prepared(identity, sources, now);
    let started = prepared.with_jobs(every(), now);
    let id = tables.documents.rows[d].id;
    let k = choose|k: int| 0 <= k < sources.len() && (#[trigger] sources[k]).document_id == id;
    let i = lemma_backfilled_has(with_model, sources, model, now, k);
    assert(started.embeddings.rows == filled.embeddings.rows);
    assert(recoverable_test(id, model.id)(started.embeddings.rows[i]));
    lemma_with_model_wf(tables, new_model(identity, now));
    lemma_backfilled_keeps(with_model, sources, model, now);
    lemma_seeded_wf(filled.jobs, filled.embeddings.rows, every(), now);
    lemma_seeded_has_jobs(prepared.jobs, prepared.embeddings.rows, every(), now, i);
}

/// The documents whose content has to be read before a start: all of them, in the order
/// of their paths, where the configured model has no row yet, and none otherwise.
pub fn documents_to_backfill(store: &Store, identity: &EmbeddingIdentity) -> (result: Result<
    Vec<Document>,
    RepositoryError,
>)
    ensures
        match result {
            Ok(documents) => documents_of(documents@) == if store@.model_is_new(identity@) {
                by_path(store@.documents.rows)
            } else {
                seq![]
            },
            Err(error) => {
                &&& store@.model_is_new(identity@)
                &&& first_where(
                    by_path(store@.documents.rows),
                    unreadable_test(),
                ) matches Some(i) && error matches RepositoryError::Invalid(invalid)
                    && invalid.enumeration@ == "DocCategory"@ && invalid.name@ == by_path(
                    store@.documents.rows,
                )[i].doc_category
            },
        },
{
    match find_model_by_identity(store, identity) {
        Some(_) => {
            let none: Vec<Document> = Vec::new();
            proof {
                assert(documents_of(none@) =~= seq![]);
            }
            Ok(none)
        },
        None => list_documents(store),
    }
}

/// Where the content of all documents was read that had to be, every document is among
/// them.
pub proof fn lemma_backfill_has_all(
    rows: Seq<DocumentRow>,
    sources: Seq<BackfillSource>,
    d: int,
)
    requires
        sources.len() == by_path(rows).len(),
        forall|k: int|
            0 <= k < sources.len() ==> (#[trigger] sources[k]).document_id == by_path(rows)[k].id,
        0 <= d < rows.len(),
    ensures
        among(sources, rows[d].id),
{
    broadcast use vstd::seq_lib::group_to_multiset_ensures;

    lemma_by_path(rows);
    let row = rows[d];
    assert(rows.contains(row));
    assert(rows.to_multiset().count(row) > 0);
    assert(by_path(rows).to_multiset().count(row) > 0);
    assert(by_path(rows).contains(row));
    let k = by_path(rows).index_of(row);
    assert(sources[k].document_id == row.id);
}

/// To start a second time changes nothing and finds the same model, unless a claim has
/// died since.
pub proof fn lemma_start_twice(
    tables: Tables,
    identity: IdentityView,
    sources: Seq<BackfillSource>,
    now: i64,
    read_later: Seq<BackfillSource>,
    later: i64,
)
    requires
        tables.wf(),
        tables.takes_startup(identity, sources, now),
        claims_last(tables.jobs, now as int, later as int),
    ensures
        ({
            let started = tables.prepared(identity, sources, now).with_jobs(every(), now);
            let again = started.prepared(identity, read_later, later);
            &&& again.with_jobs(every(), later) == started
            &&& seeded_count(again.jobs, again.embeddings.rows, every(), later) == 0
            &&& started.model_for(identity, later) == tables.model_for(identity, now)
        }),
{
    let prepared = tables.prepared(identity, sources, now);
    let p = identity_test(identity);
    if tables.model_is_new(identity) {
        let model = tables.model_for(identity, now);
        let with_model = tables.with_model(identity, now);
        let n = tables.models.rows.len() as int;
        lemma_with_model_wf(tables, new_model(identity, now));
        lemma_backfilled_keeps(with_model, sources, model, now);
        let filled = with_model.backfilled(sources, model, now);
        lemma_seeded_wf(filled.jobs, filled.embeddings.rows, every(), now);
        lemma_seeded_claims_last(
            filled.jobs,
            filled.embeddings.rows,
            every(),
            now,
            later as int,
        );
        lemma_first_where_is_first(tables.models.rows, p);
        assert(prepared.models.rows[n] == model);
        assert forall|i: int| 0 <= i < n implies !p(#[trigger] prepared.models.rows[i]) by {
            assert(prepared.models.rows[i] == tables.models.rows[i]);
        }
        lemma_first_where(prepared.models.rows, p, n);
    }
    lemma_seed_twice(prepared, now, later);
}

/// Puts things in order before workers start.
///
/// Where the configured model has no row, it gets one and the chunks of all documents
/// are queued for it; `sources` are the documents with what was read of them. In any
/// case a job is queued for each document and model with an embedding to be made.
pub fn reconcile_embedding_startup(
    store: &mut Store,
    identity: &EmbeddingIdentity,
    sources: &[BackfillSource],
    now: i64,
) -> (result: Result<StartupEmbeddingState, RepositoryError>)
    ensures
        result is Ok == old(store)@.takes_startup(identity@, sources@, now),
        match result {
            Ok(state) => {
                let before = old(store)@.prepared(identity@, sources@, now);
                &&& final(store)@ == before.with_jobs(every(), now)
                &&& state.model@ == old(store)@.model_for(identity@, now)
                &&& state.backfilled_documents == if old(store)@.model_is_new(identity@) {
                    sources@.len()
                } else {
                    0
                }
                &&& state.seeded_jobs == seeded_count(
                    before.jobs,
                    before.embeddings.rows,
                    every(),
                    now,
                )
                &&& state.document_count == final(store)@.documents.rows.len()
                &&& state.recoverable_pairs == recoverable_pairs(
                    final(store)@.embeddings.rows,
                ).len()
                &&& state.summary_kind == spec_summary(
                    state.document_count as int,
                    state.recoverable_pairs as int,
                )
            },
            Err(error) => old(store)@.startup_stops(
                error,
                identity@,
                sources@,
                now,
                final(store)@,
            ),
        },
        old(store)@.wf() ==> final(store)@.wf(),
{
    let mut backfilled_documents: usize = 0;
    let model: EmbeddingModel = match find_model_by_identity(store, identity) {
        Some(model) => model,
        None => {
            let mut model = EmbeddingModel {
                id: 0,
                name: identity.name.clone(),
                dimensions: identity.dimensions,
                chunk_size: identity.chunk_size,
                chunk_overlap: identity.chunk_overlap,
                created_at: now,
            };
            match insert_model(store, &model) {
                Ok(id) => {
                    model.id = id;
                },
                Err(error) => {
                    return Err(error);
                },
            }
            let ghost with_model = store@;
            proof {
                let n = old(store)@.models.rows.len() as int;
                assert(with_model.models.rows[n].id == model.id);
                lemma_first_exists(with_model.models.rows, model_id_test(model.id), n);
                assert(model@ == old(store)@.model_for(identity@, now));
            }
            match backfill_pending_for_model(store, &model, sources, now) {
                Ok(count) => {
                    backfilled_documents = count;
                },
                Err(error) => {
                    proof {
                        lemma_stops_is_refused(
                            with_model,
                            error,
                            sources@,
                            model@,
                            now,
                            store@,
                        );
                    }
                    return Err(error);
                },
            }
            model
        },
    };
    let seeded_jobs: usize = match seed_embed_jobs(store, now) {
        Ok(count) => count,
        Err(error) => {
            return Err(error);
        },
    };
    let document_count: usize = store.documents.rows.len();
    let recoverable_pairs: usize = load_recoverable_pair_count(store);
    Ok(
        StartupEmbeddingState {
            model,
            backfilled_documents,
            seeded_jobs,
            document_count,
            recoverable_pairs,
            summary_kind: classify_summary(document_count, recoverable_pairs),
        },
    )
}

/// What is found at the start: that there is nothing at all, just where there is no document;
/// that nothing is to be made, just where there are documents and no open pairs.
pub proof fn lemma_summary(documents: nat, pairs: nat)
    ensures
        spec_summary(documents as int, pairs as int) == StartupSummaryKind::Empty <==> documents
            == 0,
        spec_summary(documents as int, pairs as int) == StartupSummaryKind::Idle <==> documents
            != 0 && pairs == 0,
        spec_summary(documents as int, pairs as int) == StartupSummaryKind::Recovered
            <==> documents != 0 && pairs != 0,
{
}

/// The row of the configured model has its name, its dimensions and the size and overlap of
/// its chunks. It is one that is there, or it is new and has an id that no other one has.
pub proof fn lemma_model_for(tables: Tables, identity: IdentityView, now: i64)
    requires
        tables.wf(),
        tables.models.last_id < i64::MAX,
    ensures
        ({
            let model = tables.model_for(identity, now);
            &&& model.name == identity.name
            &&& model.dimensions == identity.dimensions
            &&& model.chunk_size == identity.chunk_size
            &&& model.chunk_overlap == identity.chunk_overlap
            &&& !tables.model_is_new(identity) ==> tables.models.rows.contains(model)
            &&& tables.model_is_new(identity) ==> model.created_at == now && forall|i: int|
                0 <= i < tables.models.rows.len() ==> (#[trigger] tables.models.rows[i]).id
                    < model.id && !(tables.models.rows[i].name == identity.name
                    && tables.models.rows[i].dimensions == identity.dimensions
                    && tables.models.rows[i].chunk_size == identity.chunk_size
                    && tables.models.rows[i].chunk_overlap == identity.chunk_overlap)
        }),
{
    let p = identity_test(identity);
    let rows = tables.models.rows;
    lemma_first_where_is_first(rows, p);
    match first_where(rows, p) {
        Some(i) => {
            assert(p(rows[i]));
        },
        None => {
            assert forall|i: int| 0 <= i < rows.len() implies (#[trigger] rows[i]).id
                < tables.model_for(identity, now).id && !(rows[i].name == identity.name
                && rows[i].dimensions == identity.dimensions && rows[i].chunk_size
                == identity.chunk_size && rows[i].chunk_overlap == identity.chunk_overlap) by {
                assert(!p(rows[i]));
            }
        },
    }
}

} // verus!
