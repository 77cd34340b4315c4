//! The index that vectors are searched in: when it is built anew, and of what.

use crate::models::{DocumentEmbedding, EmbeddingModel, EmbeddingRow};

use crate::stats::count_where;
use crate::store::Store;
use crate::text::{decimal, decimal_of};
use crate::types::EmbedState;
use vstd::prelude::*;

verus! {

/// Why the index cannot be built.
#[derive(Clone, Debug, PartialEq, Eq)]
pub enum IndexError {
    /// The model's dimensions are negative.
    DimensionsOutOfRange,
    /// The model has no dimensions.
    NoDimensions,
    /// Embeddings have vectors of other dimensions.
    InvalidRows { rows: usize, model: String },
}

impl IndexError {
    pub open spec fn spec_message(&self) -> Seq<char> {
        match self {
            IndexError::DimensionsOutOfRange => "embedding dimensions must fit into usize"@,
            IndexError::NoDimensions => "embedding dimensions must be positive"@,
            IndexError::InvalidRows { rows, model } => "cannot backfill vector search index: "@
                + decimal(*rows as nat) + " embedded rows for model "@ + model@
                + " have invalid dimensions"@,
        }
    }

    /// What is wrong, in words.
    pub fn message(&self) -> (text: String)
        ensures
            text@ == self.spec_message(),
    {
        match self {
            IndexError::DimensionsOutOfRange => String::from_str(
                "embedding dimensions must fit into usize",
            ),
            IndexError::NoDimensions => String::from_str("embedding dimensions must be positive"),
            IndexError::InvalidRows { rows, model } => String::from_str(
                "cannot backfill vector search index: ",
            ).concat(decimal_of(*rows as u64).as_str()).concat(
                " embedded rows for model ",
            ).concat(model.as_str()).concat(" have invalid dimensions"),
        }
    }
}

/// Whether the index has to be built anew: there is none, or it is that of another model
/// or of other dimensions.
pub open spec fn requires_rebuild(
    table_exists: bool,
    state: Option<(i64, i64)>,
    model_id: i64,
    dimensions: i64,
) -> bool {
    !table_exists || state != Some((model_id, dimensions))
}

/// Whether the index has to be built anew. `state` is the model that it was built for,
/// with its dimensions.
pub fn active_index_requires_rebuild(
    table_exists: bool,
    state: Option<(i64, i64)>,
    model: &EmbeddingModel,
) -> (rebuild: bool)
    ensures
        rebuild == requires_rebuild(table_exists, state, model.id, model.dimensions),
{
    if !table_exists {
        return true;
    }
    match state {
        Some((model_id, dimensions)) => model_id != model.id || dimensions != model.dimensions,
        None => true,
    }
}

/// The property to be an embedding of this model with a vector.
pub open spec fn indexed_test(model_id: i64) -> spec_fn(EmbeddingRow) -> bool {
    |row: EmbeddingRow|
        row.model_id == model_id && row.state == EmbedState::Embedded && row.embedding is Some
}

/// The property to be an embedding of this model with a vector of other dimensions.
pub open spec fn misfit_test(model_id: i64, dimensions: i64) -> spec_fn(EmbeddingRow) -> bool {
    |row: EmbeddingRow|
        indexed_test(model_id)(row) && row.embedding.unwrap().len() != 4 * dimensions
}

/// The bytes that the index holds for a row, if it holds any: the vector of an embedding
/// of the model that the index was built for.
pub open spec fn spec_index_bytes(row: EmbeddingRow, active_model_id: Option<i64>) -> Option<
    Seq<u8>,
> {
    match active_model_id {
        Some(model_id) => if indexed_test(model_id)(row) {
            row.embedding
        } else {
            None
        },
        None => None,
    }
}

/// The bytes that the index holds for a row, if it holds any.
pub fn index_bytes(row: &DocumentEmbedding, active_model_id: Option<i64>) -> (bytes: Option<Vec<u8>>)
    ensures
        match bytes {
            Some(bytes) => spec_index_bytes(row@, active_model_id) == Some(bytes@),
            None => spec_index_bytes(row@, active_model_id) is None,
        },
{
    match active_model_id {
        Some(model_id) => {
            if row.model_id != model_id || row.state != EmbedState::Embedded {
                return None;
            }
            match &row.embedding {
                Some(bytes) => Some(vstd::slice::slice_to_vec(bytes.as_slice())),
                None => None,
            }
        },
        None => None,
    }
}

/// The ids of rows.
pub open spec fn ids_of(rows: Seq<EmbeddingRow>) -> Seq<i64> {
    rows.map_values(|row: EmbeddingRow| row.id)
}

/// The embeddings that go into the index of a model, by their ids. Each has to have a
/// vector of the model's dimensions.
pub fn plan_index_rows(store: &Store, model: &EmbeddingModel) -> (result: Result<
    Vec<i64>,
    IndexError,
>)
    ensures
        match result {
            Ok(ids) => {
                &&& 0 < model.dimensions <= usize::MAX
                &&& count_where(
                    store@.embeddings.rows,
                    misfit_test(model.id, model.dimensions),
                ) == 0
                &&& ids@ == ids_of(store@.embeddings.rows.filter(indexed_test(model.id)))
            },
            Err(IndexError::DimensionsOutOfRange) => !(0 <= model.dimensions <= usize::MAX),
            Err(IndexError::NoDimensions) => model.dimensions == 0,
            Err(IndexError::InvalidRows { rows, model: name }) => {
                &&& 0 < model.dimensions <= usize::MAX
                &&& rows == count_where(
                    store@.embeddings.rows,
                    misfit_test(model.id, model.dimensions),
                )
                &&& rows > 0
                &&& name@ == model.name@
            },
        },
{
    if model.dimensions < 0 || model.dimensions as u64 > usize::MAX as u64 {
        return Err(IndexError::DimensionsOutOfRange);
    }
    if model.dimensions == 0 {
        return Err(IndexError::NoDimensions);
    }
    let ghost rows = store@.embeddings.rows;
    let ghost p = indexed_test(model.id);
    let ghost q = misfit_test(model.id, model.dimensions);
    let mut ids: Vec<i64> = Vec::new();
    let mut misfits: usize = 0;
    let mut i: usize = 0;
    proof {
        reveal(Seq::filter);
        assert(ids@ =~= ids_of(rows.take(0).filter(p)));
    }
    while i < store.embeddings.rows.len()
        invariant
            i <= store.embeddings.rows.len(),
            rows == store@.embeddings.rows,
            p == indexed_test(model.id),
            q == misfit_test(model.id, model.dimensions),
            misfits <= i,
            misfits == count_where(rows.take(i as int), q),
            ids@ == ids_of(rows.take(i as int).filter(p)),
        decreases store.embeddings.rows.len() - i,
    {
        proof {
            reveal(Seq::filter);
            assert(rows.take(i + 1).drop_last() =~= rows.take(i as int));
            assert(rows.take(i + 1).last() == store.embeddings.rows@[i as int]@);
        }
        let row: &DocumentEmbedding = &store.embeddings.rows[i];
        let ghost kept = rows.take(i as int).filter(p);
        if row.model_id == model.id && row.state == EmbedState::Embedded {
            match &row.embedding {
                Some(bytes) => {
                    ids.push(row.id);
                    proof {
                        assert(ids_of(kept.push(row@)) =~= ids_of(kept).push(row.id));
                    }
                    if bytes.len() as i128 != 4 * (model.dimensions as i128) {
                        misfits = misfits + 1;
                    }
                },
                None => {},
            }
        }
        i = i + 1;
    }
    proof {
        assert(rows.take(i as int) =~= rows);
    }
    if misfits > 0 {
        return Err(IndexError::InvalidRows { rows: misfits, model: model.name.clone() });
    }
    Ok(ids)
}

/// What goes into the index of a model, told from the rows: the ids of all embeddings of
/// that model that have a vector and are not stale, each in its turn, and no others.
pub proof fn lemma_indexed_rows(rows: Seq<EmbeddingRow>, model_id: i64, id: i64)
    ensures
        ids_of(rows.filter(indexed_test(model_id))).contains(id) <==> exists|i: int|
            0 <= i < rows.len() && (#[trigger] rows[i]).id == id && rows[i].model_id == model_id
                && rows[i].state == EmbedState::Embedded && rows[i].embedding is Some,
    decreases rows.len(),
{
    reveal(Seq::filter);
    let p = indexed_test(model_id);
    if rows.len() > 0 {
        let head = rows.drop_last();
        let n = head.len() as int;
        let kept = head.filter(p);
        lemma_indexed_rows(head, model_id, id);
        assert(rows[n] == rows.last());
        let a = ids_of(kept);
        let b = ids_of(rows.filter(p));
        if p(rows.last()) {
            assert(b =~= a.push(rows.last().id));
            assert(b[a.len() as int] == rows.last().id);
        }
        if a.contains(id) {
            let k = choose|k: int| 0 <= k < a.len() && a[k] == id;
            assert(b[k] == id);
            let i = choose|i: int|
                0 <= i < head.len() && (#[trigger] head[i]).id == id && head[i].model_id
                    == model_id && head[i].state == EmbedState::Embedded
                    && head[i].embedding is Some;
            assert(rows[i] == head[i]);
        } else if b.contains(id) {
            let k = choose|k: int| 0 <= k < b.len() && b[k] == id;
            if k < a.len() {
                assert(a[k] == id);
            }
            assert(rows[n].id == id);
        }
        if exists|i: int|
            0 <= i < rows.len() && (#[trigger] rows[i]).id == id && rows[i].model_id == model_id
                && rows[i].state == EmbedState::Embedded && rows[i].embedding is Some {
            let i = choose|i: int|
                0 <= i < rows.len() && (#[trigger] rows[i]).id == id && rows[i].model_id
                    == model_id && rows[i].state == EmbedState::Embedded
                    && rows[i].embedding is Some;
            if i < n {
                assert(head[i] == rows[i]);
            }
        }
    }
}

/// Where nothing stands against the index, every vector in it has four bytes for each of
/// the model's dimensions; and where something does, some vector has not.
pub proof fn lemma_misfits(rows: Seq<EmbeddingRow>, model_id: i64, dimensions: i64)
    ensures
        count_where(rows, misfit_test(model_id, dimensions)) == 0 <==> forall|i: int|
            0 <= i < rows.len() && (#[trigger] rows[i]).model_id == model_id && rows[i].state
                == EmbedState::Embedded ==> (rows[i].embedding matches Some(bytes) ==> bytes.len()
                == dimensions + dimensions + dimensions + dimensions),
    decreases rows.len(),
{
    if rows.len() > 0 {
        let head = rows.drop_last();
        let n = head.len() as int;
        lemma_misfits(head, model_id, dimensions);
        assert(rows[n] == rows.last());
        if count_where(rows, misfit_test(model_id, dimensions)) == 0 {
            assert forall|i: int|
                0 <= i < rows.len() && (#[trigger] rows[i]).model_id == model_id && rows[i].state
                    == EmbedState::Embedded implies (rows[i].embedding matches Some(bytes)
                ==> bytes.len() == dimensions + dimensions + dimensions + dimensions) by {
                if i < n {
                    assert(head[i] == rows[i]);
                }
            }
        } else if count_where(head, misfit_test(model_id, dimensions)) > 0 {
            let i = choose|i: int|
                !(0 <= i < head.len() && (#[trigger] head[i]).model_id == model_id && head[i].state
                    == EmbedState::Embedded ==> (head[i].embedding matches Some(bytes)
                    ==> bytes.len() == dimensions + dimensions + dimensions + dimensions));
            assert(rows[i] == head[i]);
        }
    }
}

/// An index is used as it is only where there is one, and it is that of the model, in its
/// dimensions.
pub proof fn lemma_rebuild(table_exists: bool, model: i64, of: i64, m: i64, d: i64)
    ensures
        requires_rebuild(table_exists, Some((model, of)), m, d) <==> !(table_exists && model == m
            && of == d),
        requires_rebuild(table_exists, None, m, d),
{
}

} // verus!
