//! How far embedding has come: what is shown of it.

use crate::models::{
    DocumentEmbedding, DocumentRow, EmbedDocumentPayload, EmbeddingRow, JobRow, StoredJob,
};
use crate::rows::{first_where, lemma_first_where_is_first, position, rows_of};
use crate::store::{recoverable, Store, Tables};
use crate::text::{
    lemma_text_order_total, lemma_text_order_transitive, less_text, same_text, text_less,
};
use crate::types::{EmbedState, JobType};
use vstd::prelude::*;

verus! {

/// How long a claimed job counts as locked, in seconds.
pub const FAILED_LOCKOUT_SECS: i64 = 86400;

/// How far back embeddings count as recent, in seconds.
pub const RECENT_RATE_WINDOW_SECS: i64 = 300;

/// The documents of the rows with the property `p`.
pub open spec fn documents_where(rows: Seq<EmbeddingRow>, p: spec_fn(EmbeddingRow) -> bool) -> Set<
    i64,
>
    decreases rows.len(),
{
    if rows.len() == 0 {
        Set::empty()
    } else {
        let before = documents_where(rows.drop_last(), p);
        if p(rows.last()) {
            before.insert(rows.last().document_id)
        } else {
            before
        }
    }
}

/// The property to be an embedding of this model that has to be made.
pub open spec fn open_test(model_id: i64) -> spec_fn(EmbeddingRow) -> bool {
    |row: EmbeddingRow| row.model_id == model_id && recoverable(row)
}

/// The property to be an embedding of this model with a vector.
pub open spec fn made_test(model_id: i64) -> spec_fn(EmbeddingRow) -> bool {
    |row: EmbeddingRow| row.model_id == model_id && row.state == EmbedState::Embedded
}

/// The property to be an embedding of this model with a vector that was made lately.
pub open spec fn recent_test(model_id: i64, now: int) -> spec_fn(EmbeddingRow) -> bool {
    |row: EmbeddingRow|
        row.model_id == model_id && row.state == EmbedState::Embedded && row.created_at >= now
            - RECENT_RATE_WINDOW_SECS
}

/// The property to be an embedding of this model in this state.
pub open spec fn state_test(model_id: i64, state: EmbedState) -> spec_fn(EmbeddingRow) -> bool {
    |row: EmbeddingRow| row.model_id == model_id && row.state == state
}

/// The documents that payloads name, for this model.
pub open spec fn claimed_documents(payloads: Seq<EmbedDocumentPayload>, model_id: i64) -> Set<i64>
    decreases payloads.len(),
{
    if payloads.len() == 0 {
        Set::empty()
    } else {
        let before = claimed_documents(payloads.drop_last(), model_id);
        if payloads.last().model_id == model_id {
            before.insert(payloads.last().document_id)
        } else {
            before
        }
    }
}

/// A document is claimed for a model if and only if some payload names both.
pub proof fn lemma_claimed(payloads: Seq<EmbedDocumentPayload>, model_id: i64, id: i64)
    ensures
        claimed_documents(payloads, model_id).contains(id) <==> exists|i: int|
            0 <= i < payloads.len() && (#[trigger] payloads[i]).document_id == id
                && payloads[i].model_id == model_id,
        claimed_documents(payloads, model_id).finite(),
    decreases payloads.len(),
{
    if payloads.len() > 0 {
        let head = payloads.drop_last();
        let n = head.len() as int;
        lemma_claimed(head, model_id, id);
        assert(payloads[n] == payloads.last());
        if claimed_documents(head, model_id).contains(id) {
            let i = choose|i: int|
                0 <= i < head.len() && (#[trigger] head[i]).document_id == id && head[i].model_id
                    == model_id;
            assert(payloads[i] == head[i]);
        }
        if exists|i: int|
            0 <= i < payloads.len() && (#[trigger] payloads[i]).document_id == id
                && payloads[i].model_id == model_id {
            let i = choose|i: int|
                0 <= i < payloads.len() && (#[trigger] payloads[i]).document_id == id
                    && payloads[i].model_id == model_id;
            if i < n {
                assert(head[i] == payloads[i]);
            }
        }
    }
}

/// A document is one of the rows with a property if and only if some such row is its.
pub proof fn lemma_member(rows: Seq<EmbeddingRow>, p: spec_fn(EmbeddingRow) -> bool, id: i64)
    ensures
        documents_where(rows, p).contains(id) <==> exists|i: int|
            0 <= i < rows.len() && (#[trigger] rows[i]).document_id == id && p(rows[i]),
        documents_where(rows, p).finite(),
    decreases rows.len(),
{
    if rows.len() > 0 {
        let head = rows.drop_last();
        let n = head.len() as int;
        lemma_member(head, p, id);
        assert(rows[n] == rows.last());
        if documents_where(head, p).contains(id) {
            let i = choose|i: int|
                0 <= i < head.len() && (#[trigger] head[i]).document_id == id && p(head[i]);
            assert(rows[i] == head[i]);
        }
        if exists|i: int|
            0 <= i < rows.len() && (#[trigger] rows[i]).document_id == id && p(rows[i]) {
            let i = choose|i: int|
                0 <= i < rows.len() && (#[trigger] rows[i]).document_id == id && p(rows[i]);
            if i < n {
                assert(head[i] == rows[i]);
            }
        }
    }
}

/// Which documents are shown as what, told from the rows: work is open for a document
/// where an embedding of the model is pending or stale; it has been made, or made lately,
/// where one is embedded, or embedded in the last five minutes.
pub proof fn lemma_progress_of(rows: Seq<EmbeddingRow>, model_id: i64, now: int, id: i64)
    ensures
        documents_where(rows, open_test(model_id)).contains(id) <==> exists|i: int|
            0 <= i < rows.len() && (#[trigger] rows[i]).document_id == id && rows[i].model_id
                == model_id && (rows[i].state == EmbedState::Pending || rows[i].state
                == EmbedState::Stale),
        documents_where(rows, made_test(model_id)).contains(id) <==> exists|i: int|
            0 <= i < rows.len() && (#[trigger] rows[i]).document_id == id && rows[i].model_id
                == model_id && rows[i].state == EmbedState::Embedded,
        documents_where(rows, recent_test(model_id, now)).contains(id) <==> exists|i: int|
            0 <= i < rows.len() && (#[trigger] rows[i]).document_id == id && rows[i].model_id
                == model_id && rows[i].state == EmbedState::Embedded && now - rows[i].created_at
                <= 5 * 60,
{
    let open = open_test(model_id);
    let made = made_test(model_id);
    let recent = recent_test(model_id, now);
    lemma_member(rows, open, id);
    lemma_member(rows, made, id);
    lemma_member(rows, recent, id);
    assert forall|i: int| 0 <= i < rows.len() implies open(#[trigger] rows[i]) == (
    rows[i].model_id == model_id && (rows[i].state == EmbedState::Pending || rows[i].state
        == EmbedState::Stale)) by {}
    if documents_where(rows, open).contains(id) {
        let i = choose|i: int|
            0 <= i < rows.len() && (#[trigger] rows[i]).document_id == id && open(rows[i]);
        assert(open(rows[i]));
    }
    if documents_where(rows, made).contains(id) {
        let i = choose|i: int|
            0 <= i < rows.len() && (#[trigger] rows[i]).document_id == id && made(rows[i]);
        assert(made(rows[i]));
    }
    if documents_where(rows, recent).contains(id) {
        let i = choose|i: int|
            0 <= i < rows.len() && (#[trigger] rows[i]).document_id == id && recent(rows[i]);
        assert(recent(rows[i]));
    }
}

/// A list that holds the members of a set, each once.
pub open spec fn lists(list: Seq<i64>, set: Set<i64>) -> bool {
    &&& list.no_duplicates()
    &&& list.to_set() == set
}

proof fn lemma_push_set(list: Seq<i64>, id: i64)
    ensures
        list.push(id).to_set() == list.to_set().insert(id),
        list.no_duplicates() && !list.contains(id) ==> list.push(id).no_duplicates(),
{
    let longer = list.push(id);
    assert forall|x: i64| longer.to_set().contains(x) <==> list.to_set().insert(id).contains(x) by {
        if longer.contains(x) {
            let i = choose|i: int| 0 <= i < longer.len() && longer[i] == x;
            if i < list.len() {
                assert(list[i] == x);
            }
        }
        if list.contains(x) {
            let i = choose|i: int| 0 <= i < list.len() && list[i] == x;
            assert(longer[i] == x);
        }
        if x == id {
            assert(longer[list.len() as int] == x);
        }
    }
    assert(longer.to_set() =~= list.to_set().insert(id));
}

fn contains(list: &Vec<i64>, id: i64) -> (found: bool)
    ensures
        found == list@.contains(id),
{
    let mut i: usize = 0;
    while i < list.len()
        invariant
            i <= list.len(),
            forall|j: int| 0 <= j < i ==> list@[j] != id,
        decreases list.len() - i,
    {
        if list[i] == id {
            return true;
        }
        i = i + 1;
    }
    false
}

/// Adds a member to the list of a set.
fn add_member(list: &mut Vec<i64>, id: i64, Ghost(set): Ghost<Set<i64>>)
    requires
        lists(old(list)@, set),
    ensures
        lists(final(list)@, set.insert(id)),
{
    proof {
        lemma_push_set(list@, id);
    }
    if contains(list, id) {
        proof {
            assert(list@.to_set().contains(id));
            assert(set.insert(id) =~= set);
        }
    } else {
        list.push(id);
    }
}

/// Lists the documents of the rows with a property.
fn list_documents_where<F: Fn(&DocumentEmbedding) -> bool>(
    rows: &Vec<DocumentEmbedding>,
    test: F,
    Ghost(p): Ghost<spec_fn(EmbeddingRow) -> bool>,
) -> (list: Vec<i64>)
    requires
        forall|row: &DocumentEmbedding| call_requires(test, (row,)),
        forall|row: &DocumentEmbedding, b: bool|
            call_ensures(test, (row,), b) ==> b == p(row@),
    ensures
        lists(list@, documents_where(rows_of(rows@), p)),
{
    let ghost views = rows_of(rows@);
    let mut list: Vec<i64> = Vec::new();
    let mut i: usize = 0;
    proof {
        assert(list@.to_set() =~= Set::<i64>::empty());
    }
    while i < rows.len()
        invariant
            i <= rows.len(),
            views == rows_of(rows@),
            forall|row: &DocumentEmbedding| call_requires(test, (row,)),
            forall|row: &DocumentEmbedding, b: bool|
                call_ensures(test, (row,), b) ==> b == p(row@),
            lists(list@, documents_where(views.take(i as int), p)),
        decreases rows.len() - i,
    {
        proof {
            assert(views.take(i + 1).drop_last() =~= views.take(i as int));
            assert(views.take(i + 1).last() == rows@[i as int]@);
        }
        let ghost before = documents_where(views.take(i as int), p);
        if test(&rows[i]) {
            add_member(&mut list, rows[i].document_id, Ghost(before));
        }
        i = i + 1;
    }
    proof {
        assert(views.take(i as int) =~= views);
    }
    list
}

/// Lists the documents that payloads name, for a model.
fn list_claimed_documents(payloads: &[EmbedDocumentPayload], model_id: i64) -> (list: Vec<i64>)
    ensures
        lists(list@, claimed_documents(payloads@, model_id)),
{
    let mut list: Vec<i64> = Vec::new();
    let mut i: usize = 0;
    proof {
        assert(payloads@.take(0) =~= Seq::<EmbedDocumentPayload>::empty());
        assert(list@.to_set() =~= Set::<i64>::empty());
    }
    while i < payloads.len()
        invariant
            i <= payloads.len(),
            lists(list@, claimed_documents(payloads@.take(i as int), model_id)),
        decreases payloads.len() - i,
    {
        proof {
            assert(payloads@.take(i + 1).drop_last() =~= payloads@.take(i as int));
            assert(payloads@.take(i + 1).last() == payloads@[i as int]);
        }
        let ghost before = claimed_documents(payloads@.take(i as int), model_id);
        if payloads[i].model_id == model_id {
            add_member(&mut list, payloads[i].document_id, Ghost(before));
        }
        i = i + 1;
    }
    proof {
        assert(payloads@.take(i as int) =~= payloads@);
    }
    list
}

/// Counts the members of one set that are in another, or that are not.
fn count_members(
    list: &Vec<i64>,
    other: &Vec<i64>,
    shared: bool,
    Ghost(set): Ghost<Set<i64>>,
    Ghost(other_set): Ghost<Set<i64>>,
) -> (count: usize)
    requires
        lists(list@, set),
        lists(other@, other_set),
    ensures
        count == if shared {
            set.intersect(other_set).len()
        } else {
            set.difference(other_set).len()
        },
{
    let mut count: usize = 0;
    let mut i: usize = 0;
    let ghost mut part: Set<i64> = Set::empty();
    while i < list.len()
        invariant
            i <= list.len(),
            lists(list@, set),
            lists(other@, other_set),
            part.finite(),
            count <= i,
            count == part.len(),
            forall|x: i64|
                #[trigger] part.contains(x) <==> list@.take(i as int).contains(x)
                    && other_set.contains(x) == shared,
        decreases list.len() - i,
    {
        let id: i64 = list[i];
        let found: bool = contains(other, id);
        proof {
            let next = list@.take(i + 1);
            let now = list@.take(i as int);
            assert(other_set.contains(id) == found) by {
                assert(other@.to_set().contains(id) == found);
            }
            assert(next[i as int] == id);
            assert(next.contains(id));
            if now.contains(id) {
                let k = choose|k: int| 0 <= k < now.len() && now[k] == id;
                assert(list@[k] == list@[i as int]);
            }
            assert forall|x: i64| next.contains(x) <==> now.contains(x) || x == id by {
                if next.contains(x) {
                    let k = choose|k: int| 0 <= k < next.len() && next[k] == x;
                    if k < i {
                        assert(now[k] == x);
                    }
                }
                if now.contains(x) {
                    let k = choose|k: int| 0 <= k < now.len() && now[k] == x;
                    assert(next[k] == x);
                }
            }
            if found == shared {
                part = part.insert(id);
            }
        }
        if found == shared {
            count = count + 1;
        }
        i = i + 1;
    }
    proof {
        assert(list@.take(i as int) =~= list@);
        assert forall|x: i64| set.contains(x) == list@.contains(x) by {
            assert(list@.to_set().contains(x) == list@.contains(x));
        }
        if shared {
            assert(part =~= set.intersect(other_set));
        } else {
            assert(part =~= set.difference(other_set));
        }
    }
    count
}

/// The number of documents with files of one type.
#[derive(Clone, Debug, PartialEq, Eq)]
pub struct DocumentFileTypeCount {
    pub file_type: String,
    pub document_count: usize,
}

/// The view of a [`DocumentFileTypeCount`].
pub struct TypeCount {
    pub file_type: Seq<char>,
    pub document_count: int,
}

impl View for DocumentFileTypeCount {
    type V = TypeCount;

    open spec fn view(&self) -> TypeCount {
        TypeCount {
            file_type: self.file_type@,
            document_count: self.document_count as int,
        }
    }
}

/// The property to count this type.
pub open spec fn counts_type(file_type: Seq<char>) -> spec_fn(TypeCount) -> bool {
    |count: TypeCount| count.file_type == file_type
}

/// The property to count a type that stands after this one.
pub open spec fn counts_later(file_type: Seq<char>) -> spec_fn(TypeCount) -> bool {
    |count: TypeCount| text_less(file_type, count.file_type)
}

/// Counts with one more document of a type.
pub open spec fn counted(counts: Seq<TypeCount>, file_type: Seq<char>) -> Seq<TypeCount> {
    match first_where(counts, counts_type(file_type)) {
        Some(i) => counts.update(
            i,
            TypeCount { file_type, document_count: counts[i].document_count + 1 },
        ),
        None => match first_where(counts, counts_later(file_type)) {
            Some(i) => counts.insert(i, TypeCount { file_type, document_count: 1 }),
            None => counts.push(TypeCount { file_type, document_count: 1 }),
        },
    }
}

/// The number of documents with files of each type, in the order of the types.
pub open spec fn type_counts(rows: Seq<DocumentRow>) -> Seq<TypeCount>
    decreases rows.len(),
{
    if rows.len() == 0 {
        seq![]
    } else {
        counted(type_counts(rows.drop_last()), rows.last().file_type)
    }
}

/// The number of documents with files of a type.
pub open spec fn with_type(rows: Seq<DocumentRow>, file_type: Seq<char>) -> nat
    decreases rows.len(),
{
    if rows.len() == 0 {
        0
    } else {
        with_type(rows.drop_last(), file_type) + if rows.last().file_type == file_type {
            1nat
        } else {
            0nat
        }
    }
}

/// The types are in their order, each once, and each is counted rightly.
pub proof fn lemma_type_counts(rows: Seq<DocumentRow>)
    ensures
        forall|i: int, j: int|
            0 <= i < j < type_counts(rows).len() ==> text_less(
                (#[trigger] type_counts(rows)[i]).file_type,
                (#[trigger] type_counts(rows)[j]).file_type,
            ),
        forall|i: int|
            0 <= i < type_counts(rows).len() ==> (#[trigger] type_counts(rows)[i]).document_count
                == with_type(rows, type_counts(rows)[i].file_type),
    decreases rows.len(),
{
    if rows.len() > 0 {
        let head = rows.drop_last();
        let t = rows.last().file_type;
        lemma_type_counts(head);
        let before = type_counts(head);
        let after = type_counts(rows);
        let p = counts_type(t);
        let q = counts_later(t);
        lemma_first_where_is_first(before, p);
        lemma_first_where_is_first(before, q);
        if first_where(before, p) is None {
            lemma_absent_type(head, t);
            let k = match first_where(before, q) {
                Some(i) => i,
                None => before.len() as int,
            };
            let new = TypeCount { file_type: t, document_count: 1 };
            assert(after =~= before.insert(k, new));
            assert forall|i: int, j: int| 0 <= i < j < after.len() implies text_less(
                (#[trigger] after[i]).file_type,
                (#[trigger] after[j]).file_type,
            ) by {
                if j < k {
                    assert(text_less(before[i].file_type, before[j].file_type));
                } else if i > k {
                    assert(text_less(before[i - 1].file_type, before[j - 1].file_type));
                } else if i < k && j == k {
                    assert(!q(before[i]));
                    assert(!p(before[i]));
                    lemma_text_order_total(t, before[i].file_type);
                } else if i < k {
                    assert(text_less(before[i].file_type, before[j - 1].file_type));
                } else if j - 1 > k {
                    assert(q(before[k]));
                    assert(text_less(before[k].file_type, before[j - 1].file_type));
                    lemma_text_order_transitive(t, before[k].file_type, before[j - 1].file_type);
                } else {
                    assert(q(before[k]));
                }
            }
            assert forall|i: int| 0 <= i < after.len() implies (
            #[trigger] after[i]).document_count == with_type(rows, after[i].file_type) by {
                if i < k {
                    assert(!p(before[i]));
                    assert(before[i].document_count == with_type(head, before[i].file_type));
                } else if i > k {
                    assert(!p(before[i - 1]));
                    assert(before[i - 1].document_count == with_type(
                        head,
                        before[i - 1].file_type,
                    ));
                }
            }
        } else {
            let m = first_where(before, p).unwrap();
            assert forall|i: int, j: int| 0 <= i < j < after.len() implies text_less(
                (#[trigger] after[i]).file_type,
                (#[trigger] after[j]).file_type,
            ) by {
                assert(text_less(before[i].file_type, before[j].file_type));
            }
            assert forall|i: int| 0 <= i < after.len() implies (
            #[trigger] after[i]).document_count == with_type(rows, after[i].file_type) by {
                assert(before[i].document_count == with_type(head, before[i].file_type));
                if i < m {
                    assert(text_less(before[i].file_type, before[m].file_type));
                    lemma_text_order_total(before[i].file_type, before[i].file_type);
                } else if m < i {
                    assert(text_less(before[m].file_type, before[i].file_type));
                    lemma_text_order_total(before[i].file_type, before[i].file_type);
                }
            }
        }
    }
}

/// A type that is not counted occurs nowhere.
pub proof fn lemma_absent_type(rows: Seq<DocumentRow>, file_type: Seq<char>)
    requires
        first_where(type_counts(rows), counts_type(file_type)) is None,
    ensures
        with_type(rows, file_type) == 0,
    decreases rows.len(),
{
    if rows.len() > 0 {
        let head = rows.drop_last();
        let t = rows.last().file_type;
        let before = type_counts(head);
        let after = type_counts(rows);
        let p = counts_type(file_type);
        lemma_first_where_is_first(after, p);
        lemma_first_where_is_first(before, p);
        lemma_first_where_is_first(before, counts_type(t));
        lemma_first_where_is_first(before, counts_later(t));
        if t == file_type {
            match first_where(before, counts_type(t)) {
                Some(i) => {
                    assert(!p(after[i]));
                },
                None => match first_where(before, counts_later(t)) {
                    Some(i) => {
                        assert(!p(after[i]));
                    },
                    None => {
                        assert(!p(after[before.len() as int]));
                    },
                },
            }
        }
        if let Some(i) = first_where(before, p) {
            match first_where(before, counts_type(t)) {
                Some(k) => {
                    assert(!p(after[i]));
                },
                None => match first_where(before, counts_later(t)) {
                    Some(k) => {
                        if i < k {
                            assert(!p(after[i]));
                        } else {
                            assert(after[i + 1] == before[i]);
                            assert(!p(after[i + 1]));
                        }
                    },
                    None => {
                        assert(!p(after[i]));
                    },
                },
            }
        }
        lemma_absent_type(head, file_type);
    }
}

/// Counts the documents with files of each type.
pub fn load_document_file_type_counts(store: &Store) -> (counts: Vec<DocumentFileTypeCount>)
    ensures
        rows_of(counts@) == type_counts(store@.documents.rows),
{
    let ghost rows = store@.documents.rows;
    let mut counts: Vec<DocumentFileTypeCount> = Vec::new();
    let mut n: usize = 0;
    proof {
        assert(rows_of(counts@) =~= type_counts(rows.take(0)));
    }
    while n < store.documents.rows.len()
        invariant
            n <= store.documents.rows.len(),
            rows == store@.documents.rows,
            rows_of(counts@) == type_counts(rows.take(n as int)),
            forall|i: int| 0 <= i < counts@.len() ==> (#[trigger] counts@[i]).document_count <= n,
        decreases store.documents.rows.len() - n,
    {
        proof {
            assert(rows.take(n + 1).drop_last() =~= rows.take(n as int));
        }
        let file_type: &str = store.documents.rows[n].file_type.as_str();
        let ghost t = file_type@;
        let ghost before = rows_of(counts@);
        let ghost p = counts_type(t);
        let ghost q = counts_later(t);
        let is_type = |count: &DocumentFileTypeCount| -> (same: bool)
            ensures
                same == p(count@),
            { same_text(count.file_type.as_str(), file_type) };
        let is_later = |count: &DocumentFileTypeCount| -> (later: bool)
            ensures
                later == q(count@),
            { less_text(file_type, count.file_type.as_str()) };
        match position(&counts, is_type, Ghost(p)) {
            Some(i) => {
                counts[i].document_count = counts[i].document_count + 1;
                proof {
                    assert(rows_of(counts@) =~= counted(before, t));
                }
            },
            None => {
                let place: Option<usize> = position(&counts, is_later, Ghost(q));
                let new = DocumentFileTypeCount {
                    file_type: file_type.to_owned(),
                    document_count: 1,
                };
                let ghost view = new@;
                match place {
                    Some(i) => {
                        counts.insert(i, new);
                    },
                    None => {
                        counts.push(new);
                    },
                }
                proof {
                    assert(rows_of(counts@) =~= counted(before, t));
                }
            },
        }
        n = n + 1;
    }
    proof {
        assert(rows.take(n as int) =~= rows);
    }
    counts
}

/// The number of rows with the property `p`.
pub open spec fn count_where(rows: Seq<EmbeddingRow>, p: spec_fn(EmbeddingRow) -> bool) -> nat
    decreases rows.len(),
{
    if rows.len() == 0 {
        0
    } else {
        count_where(rows.drop_last(), p) + if p(rows.last()) {
            1nat
        } else {
            0nat
        }
    }
}

/// To count the rows with a property is to count those that are left when all others are
/// taken out.
pub proof fn lemma_count_where(rows: Seq<EmbeddingRow>, p: spec_fn(EmbeddingRow) -> bool)
    ensures
        count_where(rows, p) == rows.filter(p).len(),
    decreases rows.len(),
{
    reveal(Seq::filter);
    if rows.len() > 0 {
        lemma_count_where(rows.drop_last(), p);
    }
}

/// Every embedding of a model counts once, by its state: with a vector, without, or
/// stale.
pub proof fn lemma_states_add_up(rows: Seq<EmbeddingRow>, model_id: i64)
    ensures
        count_where(rows, state_test(model_id, EmbedState::Embedded)) + count_where(
            rows,
            state_test(model_id, EmbedState::Pending),
        ) + count_where(rows, state_test(model_id, EmbedState::Stale)) == rows.filter(
            |row: EmbeddingRow| row.model_id == model_id,
        ).len(),
    decreases rows.len(),
{
    reveal(Seq::filter);
    if rows.len() > 0 {
        lemma_states_add_up(rows.drop_last(), model_id);
    }
}

/// Which jobs count as locked, told from a row: those that embed a document and were
/// claimed no more than a day ago.
pub proof fn lemma_locked(row: JobRow, now: int)
    ensures
        claimed_job_test(now - FAILED_LOCKOUT_SECS)(row) <==> row.job_type == "embed_document"@ && (
        row.claimed_at matches Some(t) && now - t <= 24 * 60 * 60),
{
}

/// The numbers of the embeddings of a model: with vectors, without, and stale.
pub fn load_document_embedding_counts(store: &Store, model_id: i64) -> (counts: (
    usize,
    usize,
    usize,
))
    ensures
        counts.0 == count_where(
            store@.embeddings.rows,
            state_test(model_id, EmbedState::Embedded),
        ),
        counts.1 == count_where(
            store@.embeddings.rows,
            state_test(model_id, EmbedState::Pending),
        ),
        counts.2 == count_where(store@.embeddings.rows, state_test(model_id, EmbedState::Stale)),
        counts.0 + counts.1 + counts.2 <= usize::MAX,
{
    let ghost rows = store@.embeddings.rows;
    let mut embedded: usize = 0;
    let mut pending: usize = 0;
    let mut stale: usize = 0;
    let mut i: usize = 0;
    while i < store.embeddings.rows.len()
        invariant
            i <= store.embeddings.rows.len(),
            rows == store@.embeddings.rows,
            embedded + pending + stale <= i,
            embedded == count_where(
                rows.take(i as int),
                state_test(model_id, EmbedState::Embedded),
            ),
            pending == count_where(rows.take(i as int), state_test(model_id, EmbedState::Pending)),
            stale == count_where(rows.take(i as int), state_test(model_id, EmbedState::Stale)),
        decreases store.embeddings.rows.len() - i,
    {
        proof {
            assert(rows.take(i + 1).drop_last() =~= rows.take(i as int));
        }
        let row: &DocumentEmbedding = &store.embeddings.rows[i];
        if row.model_id == model_id {
            match row.state {
                EmbedState::Embedded => {
                    embedded = embedded + 1;
                },
                EmbedState::Pending => {
                    pending = pending + 1;
                },
                EmbedState::Stale => {
                    stale = stale + 1;
                },
            }
        }
        i = i + 1;
    }
    proof {
        assert(rows.take(i as int) =~= rows);
    }
    (embedded, pending, stale)
}

/// The property to be a job that embeds a document and is claimed since `claimed_after`.
pub open spec fn claimed_job_test(claimed_after: int) -> spec_fn(JobRow) -> bool {
    |row: JobRow|
        row.job_type == JobType::EmbedDocument.name() && (row.claimed_at matches Some(t) && t
            >= claimed_after)
}

/// The payloads of rows.
pub open spec fn payloads_of(rows: Seq<JobRow>) -> Seq<Seq<char>> {
    rows.map_values(|row: JobRow| row.payload)
}

pub open spec fn texts(list: Seq<String>) -> Seq<Seq<char>> {
    list.map_values(|s: String| s@)
}

/// The payloads of the jobs that embed documents and are locked at the time `now`.
pub fn claimed_embed_payloads(store: &Store, now: i64) -> (payloads: Vec<String>)
    ensures
        texts(payloads@) == payloads_of(
            store@.jobs.rows.filter(claimed_job_test(now - FAILED_LOCKOUT_SECS)),
        ),
{
    let ghost rows = store@.jobs.rows;
    let ghost p = claimed_job_test(now - FAILED_LOCKOUT_SECS);
    let mut payloads: Vec<String> = Vec::new();
    let mut i: usize = 0;
    proof {
        reveal(Seq::filter);
        assert(texts(payloads@) =~= payloads_of(rows.take(0).filter(p)));
    }
    while i < store.jobs.rows.len()
        invariant
            i <= store.jobs.rows.len(),
            rows == store@.jobs.rows,
            p == claimed_job_test(now - FAILED_LOCKOUT_SECS),
            texts(payloads@) == payloads_of(rows.take(i as int).filter(p)),
        decreases store.jobs.rows.len() - i,
    {
        proof {
            reveal(Seq::filter);
            assert(rows.take(i + 1).drop_last() =~= rows.take(i as int));
        }
        let row: &StoredJob = &store.jobs.rows[i];
        let locked: bool = match row.claimed_at {
            Some(t) => t as i128 >= now as i128 - FAILED_LOCKOUT_SECS as i128,
            None => false,
        };
        let ghost before = texts(payloads@);
        let ghost kept = rows.take(i as int).filter(p);
        if locked && same_text(row.job_type.as_str(), JobType::EmbedDocument.as_str()) {
            payloads.push(row.payload.clone());
            proof {
                assert(texts(payloads@) =~= before.push(row.payload@));
                assert(payloads_of(kept.push(row@)) =~= payloads_of(kept).push(row.payload@));
            }
        }
        i = i + 1;
    }
    proof {
        assert(rows.take(i as int) =~= rows);
    }
    payloads
}

/// How far embedding has come.
#[derive(Clone, Debug, PartialEq, Eq)]
pub struct EmbeddingStatsSnapshot {
    pub total_documents: usize,
    pub embedded_documents: usize,
    pub failed_locked_documents: usize,
    pub remaining_documents: i128,
    pub documents_embedded_last_five_minutes: usize,
    pub documents_by_file_type: Vec<DocumentFileTypeCount>,
    pub document_embeddings_total: usize,
    pub document_embeddings_embedded: usize,
    pub document_embeddings_pending: usize,
    pub document_embeddings_stale: usize,
}

/// Where rows with one property have another one, their documents are among those of the
/// other; and all are documents of rows.
proof fn lemma_documents_where(
    rows: Seq<EmbeddingRow>,
    p: spec_fn(EmbeddingRow) -> bool,
    q: spec_fn(EmbeddingRow) -> bool,
    id: i64,
)
    requires
        forall|row: EmbeddingRow| #[trigger] p(row) ==> q(row),
    ensures
        documents_where(rows, p).finite(),
        documents_where(rows, p).contains(id) ==> documents_where(rows, q).contains(id) && exists|
            i: int,
        |
            0 <= i < rows.len() && (#[trigger] rows[i]).document_id == id,
    decreases rows.len(),
{
    if rows.len() > 0 {
        let head = rows.drop_last();
        lemma_documents_where(head, p, q, id);
        if documents_where(head, p).contains(id) {
            let i = choose|i: int| 0 <= i < head.len() && (#[trigger] head[i]).document_id == id;
            assert(rows[i].document_id == id);
        } else if documents_where(rows, p).contains(id) {
            assert(rows[rows.len() - 1].document_id == id);
        }
    }
}

/// No document counts twice: embedded and locked ones together are no more than there
/// are, so none of the rest is negative; and no more were embedded lately than are
/// embedded.
pub proof fn lemma_progress_adds_up(tables: Tables, model_id: i64, locked: Set<i64>, now: int)
    requires
        tables.wf(),
    ensures
        ({
            let rows = tables.embeddings.rows;
            let open = documents_where(rows, open_test(model_id));
            let made = documents_where(rows, made_test(model_id));
            let recent = documents_where(rows, recent_test(model_id, now));
            &&& made.difference(open).len() + open.intersect(locked).len()
                <= tables.documents.rows.len()
            &&& recent.difference(open).len() <= made.difference(open).len()
        }),
{
    let rows = tables.embeddings.rows;
    let open = documents_where(rows, open_test(model_id));
    let made = documents_where(rows, made_test(model_id));
    let recent = documents_where(rows, recent_test(model_id, now));
    let ids = tables.documents.rows.map_values(|row: DocumentRow| row.id);
    let embedded = made.difference(open);
    let failed = open.intersect(locked);
    lemma_documents_where(rows, open_test(model_id), open_test(model_id), 0);
    lemma_documents_where(rows, made_test(model_id), made_test(model_id), 0);
    assert(ids.no_duplicates()) by {
        assert forall|i: int, j: int| 0 <= i < j < ids.len() implies ids[i] != ids[j] by {
            assert(tables.documents.rows[i].id < tables.documents.rows[j].id);
        }
    }
    ids.unique_seq_to_set();
    assert forall|id: i64| embedded.union(failed).contains(id) implies ids.to_set().contains(
        id,
    ) by {
        lemma_documents_where(rows, open_test(model_id), open_test(model_id), id);
        lemma_documents_where(rows, made_test(model_id), made_test(model_id), id);
        let k = choose|k: int| 0 <= k < rows.len() && (#[trigger] rows[k]).document_id == id;
        assert(tables.documents.has(rows[k].document_id));
        let d = choose|d: int|
            0 <= d < tables.documents.rows.len() && (#[trigger] tables.documents.rows[d]).id == id;
        assert(ids[d] == id);
    }
    vstd::seq_lib::seq_to_set_is_finite(ids);
    vstd::set_lib::lemma_len_subset(embedded.union(failed), ids.to_set());
    assert(embedded.disjoint(failed));
    vstd::set_lib::lemma_set_disjoint_lens(embedded, failed);
    assert(embedded + failed =~= embedded.union(failed));
    assert forall|id: i64| recent.difference(open).contains(id) implies embedded.contains(id) by {
        lemma_documents_where(rows, recent_test(model_id, now), made_test(model_id), id);
    }
    vstd::set_lib::lemma_len_subset(recent.difference(open), embedded);
}

/// There is no embedding of the model, not even one to be made.
#[derive(Clone, Copy, Debug, PartialEq, Eq, Structural)]
pub struct NoEmbeddings;

/// How far embedding has come for a model. A document is embedded where all of its
/// embeddings are made, and locked where one is to be made and its job is claimed.
/// `claimed` are the payloads of the locked jobs.
pub fn load_embedding_stats_snapshot(
    store: &Store,
    model_id: i64,
    claimed: &[EmbedDocumentPayload],
    now: i64,
) -> (result: Result<EmbeddingStatsSnapshot, NoEmbeddings>)
    ensures
        ({
            let rows = store@.embeddings.rows;
            let open = documents_where(rows, open_test(model_id));
            let made = documents_where(rows, made_test(model_id));
            let recent = documents_where(rows, recent_test(model_id, now as int));
            let locked = claimed_documents(claimed@, model_id);
            let embedded = count_where(rows, state_test(model_id, EmbedState::Embedded));
            let pending = count_where(rows, state_test(model_id, EmbedState::Pending));
            let stale = count_where(rows, state_test(model_id, EmbedState::Stale));
            match result {
                Ok(stats) => {
                    &&& stats.total_documents == store@.documents.rows.len()
                    &&& stats.embedded_documents == made.difference(open).len()
                    &&& stats.failed_locked_documents == open.intersect(locked).len()
                    &&& stats.remaining_documents == stats.total_documents
                        - stats.embedded_documents - stats.failed_locked_documents
                    &&& stats.documents_embedded_last_five_minutes == recent.difference(open).len()
                    &&& rows_of(stats.documents_by_file_type@) == type_counts(
                        store@.documents.rows,
                    )
                    &&& stats.document_embeddings_embedded == embedded
                    &&& stats.document_embeddings_pending == pending
                    &&& stats.document_embeddings_stale == stale
                    &&& stats.document_embeddings_total == embedded + pending + stale
                    &&& stats.document_embeddings_total > 0
                },
                Err(_) => embedded + pending + stale == 0,
            }
        }),
{
    let (embedded, pending, stale) = load_document_embedding_counts(store, model_id);
    if embedded + pending + stale == 0 {
        return Err(NoEmbeddings);
    }
    let ghost rows = store@.embeddings.rows;
    let ghost open_p = open_test(model_id);
    let ghost made_p = made_test(model_id);
    let ghost recent_p = recent_test(model_id, now as int);
    let is_open = |row: &DocumentEmbedding| -> (yes: bool)
        ensures
            yes == open_p(row@),
        { row.model_id == model_id && row.state != EmbedState::Embedded };
    let is_made = |row: &DocumentEmbedding| -> (yes: bool)
        ensures
            yes == made_p(row@),
        { row.model_id == model_id && row.state == EmbedState::Embedded };
    let is_recent = |row: &DocumentEmbedding| -> (yes: bool)
        ensures
            yes == recent_p(row@),
        {
            row.model_id == model_id && row.state == EmbedState::Embedded && row.created_at as i128
                >= now as i128 - RECENT_RATE_WINDOW_SECS as i128
        };
    let open: Vec<i64> = list_documents_where(&store.embeddings.rows, is_open, Ghost(open_p));
    let made: Vec<i64> = list_documents_where(&store.embeddings.rows, is_made, Ghost(made_p));
    let recent: Vec<i64> = list_documents_where(
        &store.embeddings.rows,
        is_recent,
        Ghost(recent_p),
    );
    let locked: Vec<i64> = list_claimed_documents(claimed, model_id);
    let ghost open_set = documents_where(rows, open_p);
    let total_documents: usize = store.documents.rows.len();
    let embedded_documents: usize = count_members(
        &made,
        &open,
        false,
        Ghost(documents_where(rows, made_p)),
        Ghost(open_set),
    );
    let failed_locked_documents: usize = count_members(
        &open,
        &locked,
        true,
        Ghost(open_set),
        Ghost(claimed_documents(claimed@, model_id)),
    );
    let recent_documents: usize = count_members(
        &recent,
        &open,
        false,
        Ghost(documents_where(rows, recent_p)),
        Ghost(open_set),
    );
    Ok(
        EmbeddingStatsSnapshot {
            total_documents,
            embedded_documents,
            failed_locked_documents,
            remaining_documents: total_documents as i128 - embedded_documents as i128
                - failed_locked_documents as i128,
            documents_embedded_last_five_minutes: recent_documents,
            documents_by_file_type: load_document_file_type_counts(store),
            document_embeddings_total: embedded + pending + stale,
            document_embeddings_embedded: embedded,
            document_embeddings_pending: pending,
            document_embeddings_stale: stale,
        },
    )
}

} // verus!
