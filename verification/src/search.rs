//! Search requests, and what is made of the chunks that were found.

use crate::chunking::smaller;
use crate::embeddings::EmbeddingError;
use crate::models::DocumentSearchResult;
use crate::responses::Refused;
use crate::text::{chars_of, decimal, decimal_of, string_of, trim, trimmed};
use vstd::prelude::*;

verus! {

/// The number of documents where a request names none.
pub const DEFAULT_SEARCH_LIMIT: usize = 10;

/// The greatest number of documents that a request may ask for.
pub const MAX_SEARCH_LIMIT: usize = 100;

/// How many chunks are looked for, for each document.
pub const SEARCH_RAW_LIMIT_MULTIPLIER: usize = 4;

/// The greatest number of chunks that are looked for.
pub const SEARCH_RAW_LIMIT_CAP: usize = 400;

/// A request that can be answered.
#[derive(Clone, Debug, PartialEq, Eq)]
pub struct SearchQuery {
    pub query: String,
    pub limit: usize,
    pub include_location: bool,
}

/// What is wrong with a request.
#[derive(Clone, Copy, Debug, PartialEq, Eq, Structural)]
pub enum SearchRefusal {
    EmptyQuery,
    ZeroLimit,
    LimitTooLarge,
}

impl SearchRefusal {
    pub open spec fn spec_message(&self) -> Seq<char> {
        match self {
            SearchRefusal::EmptyQuery => "query must not be empty"@,
            SearchRefusal::ZeroLimit => "limit must be greater than 0"@,
            SearchRefusal::LimitTooLarge => "limit must be less than or equal to "@ + decimal(
                MAX_SEARCH_LIMIT as nat,
            ),
        }
    }

    /// What is wrong, in words.
    pub fn message(&self) -> (text: String)
        ensures
            text@ == self.spec_message(),
    {
        match self {
            SearchRefusal::EmptyQuery => String::from_str("query must not be empty"),
            SearchRefusal::ZeroLimit => String::from_str("limit must be greater than 0"),
            SearchRefusal::LimitTooLarge => String::from_str(
                "limit must be less than or equal to ",
            ).concat(decimal_of(MAX_SEARCH_LIMIT as u64).as_str()),
        }
    }

    /// The answer to the request.
    pub fn refused(&self) -> (refused: Refused)
        ensures
            refused.status == 400,
            refused.code@ == "bad_request"@,
            refused.message@ == self.spec_message(),
    {
        Refused { status: 400, code: "bad_request", message: self.message() }
    }
}

/// The limit of a request.
pub open spec fn effective_limit(limit: Option<usize>) -> usize {
    match limit {
        Some(limit) => limit,
        None => DEFAULT_SEARCH_LIMIT,
    }
}

/// Checks a request. White space around the query counts for nothing.
pub fn validate_search(query: &str, limit: Option<usize>, include_location: Option<bool>) -> (result:
    Result<SearchQuery, SearchRefusal>)
    ensures
        match result {
            Ok(search) => {
                &&& search.query@ == trimmed(query@)
                &&& search.query@.len() > 0
                &&& search.limit == effective_limit(limit)
                &&& 0 < search.limit <= MAX_SEARCH_LIMIT
                &&& 1 <= search.limit <= 100
                &&& limit is None ==> search.limit == 10
                &&& search.include_location == (include_location == Some(true))
            },
            Err(SearchRefusal::EmptyQuery) => trimmed(query@).len() == 0,
            Err(SearchRefusal::ZeroLimit) => trimmed(query@).len() > 0 && effective_limit(limit)
                == 0,
            Err(SearchRefusal::LimitTooLarge) => trimmed(query@).len() > 0 && effective_limit(limit)
                > MAX_SEARCH_LIMIT,
        },
{
    let chars: Vec<char> = chars_of(query);
    let inner: &[char] = trim(chars.as_slice());
    if inner.len() == 0 {
        return Err(SearchRefusal::EmptyQuery);
    }
    let limit: usize = match limit {
        Some(limit) => limit,
        None => DEFAULT_SEARCH_LIMIT,
    };
    if limit == 0 {
        return Err(SearchRefusal::ZeroLimit);
    }
    if limit > MAX_SEARCH_LIMIT {
        return Err(SearchRefusal::LimitTooLarge);
    }
    let include_location: bool = match include_location {
        Some(asked) => asked,
        None => false,
    };
    Ok(SearchQuery { query: string_of(inner), limit, include_location })
}

/// What is answered where the embedding service fails on a query: what went wrong, and
/// which search does without the service.
pub open spec fn spec_embed_failure_message(error: Seq<char>) -> Seq<char> {
    "failed to embed query: "@ + error
        + "; to search by file path instead, add \"mode\":\"filepath_fuzzy\""@
}

/// What is answered where the embedding service fails on a query.
pub fn embed_failure_message(error: &str) -> (text: String)
    ensures
        text@ == spec_embed_failure_message(error@),
{
    String::from_str("failed to embed query: ").concat(error).concat(
        "; to search by file path instead, add \"mode\":\"filepath_fuzzy\"",
    )
}

/// The answer to a search whose query could not be embedded.
pub fn embed_failure(error: &str) -> (refused: Refused)
    ensures
        refused.status == 502,
        refused.code@ == "bad_gateway"@,
        refused.message@ == spec_embed_failure_message(error@),
{
    Refused { status: 502, code: "bad_gateway", message: embed_failure_message(error) }
}

/// The answer to a search for whose query the service sent no vector.
pub fn no_vectors() -> (refused: Refused)
    ensures
        refused.status == 502,
        refused.code@ == "bad_gateway"@,
        refused.message@ == "embedding provider returned no vectors"@,
{
    Refused {
        status: 502,
        code: "bad_gateway",
        message: String::from_str("embedding provider returned no vectors"),
    }
}

/// The vector to search with, from what the service answered for the query: the first
/// one. Without one, the answer to the search.
pub fn query_vector(answer: Result<Vec<Vec<u32>>, EmbeddingError>) -> (result: Result<
    Vec<u32>,
    Refused,
>)
    ensures
        match answer {
            Ok(vectors) => if vectors@.len() > 0 {
                result matches Ok(vector) && vector@ == vectors@[0]@
            } else {
                result matches Err(refused) && refused.status == 502 && refused.code@
                    == "bad_gateway"@ && refused.message@
                    == "embedding provider returned no vectors"@
            },
            Err(error) => result matches Err(refused) && refused.status == 502 && refused.code@
                == "bad_gateway"@ && refused.message@ == spec_embed_failure_message(error.message@),
        },
{
    match answer {
        Ok(vectors) => if vectors.len() > 0 {
            Ok(vstd::slice::slice_to_vec(vectors[0].as_slice()))
        } else {
            Err(no_vectors())
        },
        Err(error) => Err(embed_failure(error.message.as_str())),
    }
}

/// How many chunks are looked for to find `limit` documents.
pub fn expanded_raw_limit(limit: usize) -> (raw: usize)
    ensures
        raw == smaller(limit * SEARCH_RAW_LIMIT_MULTIPLIER, SEARCH_RAW_LIMIT_CAP as int),
        limit <= 100 ==> raw == limit + limit + limit + limit,
        limit > 100 ==> raw == 400,
{
    if limit > 100 {
        SEARCH_RAW_LIMIT_CAP
    } else {
        limit * SEARCH_RAW_LIMIT_MULTIPLIER
    }
}

/// A document that was found.
#[derive(Clone, Debug, PartialEq, Eq)]
pub struct SearchDocument {
    pub filepath: String,
    /// The distance of its nearest chunk: the bits of a double precision number.
    pub distance: u64,
    pub byte_start: Option<i64>,
    pub byte_end: Option<i64>,
}

/// Whether a document is among hits.
pub open spec fn has_document(hits: Seq<DocumentSearchResult>, document_id: i64) -> bool {
    exists|i: int| 0 <= i < hits.len() && (#[trigger] hits[i]).document_id == document_id
}

/// The first hit of each document.
pub open spec fn first_hits(hits: Seq<DocumentSearchResult>) -> Seq<DocumentSearchResult>
    decreases hits.len(),
{
    if hits.len() == 0 {
        seq![]
    } else {
        let before = first_hits(hits.drop_last());
        if has_document(before, hits.last().document_id) {
            before
        } else {
            before.push(hits.last())
        }
    }
}

/// Whether a document is shown as its hit says.
pub open spec fn shows(
    document: SearchDocument,
    hit: DocumentSearchResult,
    include_location: bool,
) -> bool {
    &&& document.filepath@ == hit.filepath@
    &&& document.distance == hit.distance
    &&& document.byte_start == if include_location {
        Some(hit.chunk_start)
    } else {
        None
    }
    &&& document.byte_end == if include_location {
        Some(hit.chunk_end)
    } else {
        None
    }
}

/// The first hits of all hits start with those of some of them.
proof fn lemma_first_hits_prefix(hits: Seq<DocumentSearchResult>, n: int)
    requires
        0 <= n <= hits.len(),
    ensures
        first_hits(hits.take(n)).len() <= first_hits(hits).len(),
        forall|i: int|
            0 <= i < first_hits(hits.take(n)).len() ==> #[trigger] first_hits(hits.take(n))[i]
                == first_hits(hits)[i],
    decreases hits.len() - n,
{
    if n < hits.len() {
        lemma_first_hits_prefix(hits, n + 1);
        assert(hits.take(n + 1).drop_last() =~= hits.take(n));
        let now = first_hits(hits.take(n));
        let next = first_hits(hits.take(n + 1));
        assert forall|i: int| 0 <= i < now.len() implies #[trigger] now[i] == first_hits(hits)[i] by {
            assert(next[i] == now[i]);
        }
    } else {
        assert(hits.take(n) =~= hits);
    }
}

/// The documents of hits that are in the order of their distance: each once, with its
/// nearest chunk, at most `limit` of them, or all of them where `limit` is zero.
pub fn collapse_to_documents(
    hits: &[DocumentSearchResult],
    limit: usize,
    include_location: bool,
) -> (documents: Vec<SearchDocument>)
    ensures
        documents@.len() == if limit == 0 {
            first_hits(hits@).len() as int
        } else {
            smaller(first_hits(hits@).len() as int, limit as int)
        },
        forall|i: int|
            0 <= i < documents@.len() ==> shows(
                #[trigger] documents@[i],
                first_hits(hits@)[i],
                include_location,
            ),
{
    let mut documents: Vec<SearchDocument> = Vec::new();
    let mut seen: Vec<i64> = Vec::new();
    let mut n: usize = 0;
    proof {
        assert(hits@.take(0) =~= Seq::<DocumentSearchResult>::empty());
    }
    while n < hits.len()
        invariant
            n <= hits.len(),
            documents@.len() == first_hits(hits@.take(n as int)).len(),
            limit == 0 || documents@.len() < limit,
            seen@.len() == documents@.len(),
            forall|i: int|
                0 <= i < seen@.len() ==> #[trigger] seen@[i] == first_hits(
                    hits@.take(n as int),
                )[i].document_id,
            forall|i: int|
                0 <= i < documents@.len() ==> shows(
                    #[trigger] documents@[i],
                    first_hits(hits@.take(n as int))[i],
                    include_location,
                ),
        decreases hits.len() - n,
    {
        let hit: &DocumentSearchResult = &hits[n];
        let ghost before = first_hits(hits@.take(n as int));
        proof {
            let next = hits@.take(n + 1);
            assert(next.drop_last() =~= hits@.take(n as int));
            assert(next.last() == hits@[n as int]);
        }
        let mut known = false;
        let mut i: usize = 0;
        while i < seen.len()
            invariant
                i <= seen.len(),
                seen@.len() == before.len(),
                forall|k: int|
                    0 <= k < seen@.len() ==> #[trigger] seen@[k] == before[k].document_id,
                known == exists|k: int|
                    0 <= k < i && (#[trigger] before[k]).document_id == hit.document_id,
            decreases seen.len() - i,
        {
            if seen[i] == hit.document_id {
                known = true;
                proof {
                    assert(before[i as int].document_id == hit.document_id);
                }
            }
            i = i + 1;
        }
        if !known {
            proof {
                assert(!has_document(before, hit.document_id));
            }
            seen.push(hit.document_id);
            documents.push(
                SearchDocument {
                    filepath: hit.filepath.clone(),
                    distance: hit.distance,
                    byte_start: if include_location {
                        Some(hit.chunk_start)
                    } else {
                        None
                    },
                    byte_end: if include_location {
                        Some(hit.chunk_end)
                    } else {
                        None
                    },
                },
            );
            if documents.len() == limit {
                proof {
                    lemma_first_hits_prefix(hits@, n + 1);
                    assert forall|k: int| 0 <= k < documents@.len() implies shows(
                        #[trigger] documents@[k],
                        first_hits(hits@)[k],
                        include_location,
                    ) by {
                        assert(first_hits(hits@.take(n + 1))[k] == first_hits(hits@)[k]);
                    }
                }
                return documents;
            }
        }
        n = n + 1;
    }
    proof {
        assert(hits@.take(n as int) =~= hits@);
    }
    documents
}

/// No document is found twice, and each is found by the first of its hits.
pub proof fn lemma_first_hits(hits: Seq<DocumentSearchResult>)
    ensures
        forall|i: int, j: int|
            0 <= i < j < first_hits(hits).len() ==> (#[trigger] first_hits(hits)[i]).document_id
                != (#[trigger] first_hits(hits)[j]).document_id,
        forall|i: int|
            0 <= i < hits.len() ==> has_document(
                first_hits(hits),
                (#[trigger] hits[i]).document_id,
            ),
        forall|i: int|
            0 <= i < first_hits(hits).len() ==> exists|k: int|
                {
                    &&& 0 <= k < hits.len()
                    &&& #[trigger] hits[k] == #[trigger] first_hits(hits)[i]
                    &&& forall|m: int|
                        0 <= m < k ==> (#[trigger] hits[m]).document_id != hits[k].document_id
                },
    decreases hits.len(),
{
    if hits.len() > 0 {
        let head = hits.drop_last();
        let last = hits.last();
        let before = first_hits(head);
        let all = first_hits(hits);
        lemma_first_hits(head);
        assert forall|i: int| 0 <= i < hits.len() implies has_document(
            all,
            (#[trigger] hits[i]).document_id,
        ) by {
            if i < head.len() {
                assert(head[i] == hits[i]);
                let k = choose|k: int|
                    0 <= k < before.len() && (#[trigger] before[k]).document_id
                        == hits[i].document_id;
                assert(all[k] == before[k]);
            } else if has_document(before, last.document_id) {
                assert(all == before);
            } else {
                assert(all[before.len() as int] == last);
            }
        }
        assert forall|i: int| 0 <= i < all.len() implies exists|k: int|
            {
                &&& 0 <= k < hits.len()
                &&& #[trigger] hits[k] == #[trigger] all[i]
                &&& forall|m: int|
                    0 <= m < k ==> (#[trigger] hits[m]).document_id != hits[k].document_id
            } by {
            if i < before.len() {
                assert(all[i] == before[i]);
                let k = choose|k: int|
                    {
                        &&& 0 <= k < head.len()
                        &&& #[trigger] head[k] == before[i]
                        &&& forall|m: int|
                            0 <= m < k ==> (#[trigger] head[m]).document_id != head[k].document_id
                    };
                assert(hits[k] == all[i]);
                assert forall|m: int| 0 <= m < k implies (#[trigger] hits[m]).document_id
                    != hits[k].document_id by {
                    assert(head[m] == hits[m]);
                }
            } else {
                let k = hits.len() - 1;
                assert(hits[k] == all[i]);
                assert forall|m: int| 0 <= m < k implies (#[trigger] hits[m]).document_id
                    != hits[k].document_id by {
                    assert(head[m] == hits[m]);
                    if hits[m].document_id == last.document_id {
                        assert(has_document(before, head[m].document_id));
                    }
                }
            }
        }
        assert forall|i: int, j: int| 0 <= i < j < all.len() implies (
        #[trigger] all[i]).document_id != (#[trigger] all[j]).document_id by {
            if j < before.len() {
                assert(before[i].document_id != before[j].document_id);
            } else {
                assert(all[i] == before[i]);
                if before[i].document_id == last.document_id {
                    assert(has_document(before, last.document_id));
                }
            }
        }
    }
}

/// Documents come in the order of their hits: of two that were found, the one that is shown
/// first has its first hit before any of the other.
pub proof fn lemma_hits_keep_order(hits: Seq<DocumentSearchResult>, i: int, j: int, k: int)
    requires
        0 <= i < j < first_hits(hits).len(),
        0 <= k < hits.len(),
        hits[k].document_id == first_hits(hits)[j].document_id,
    ensures
        exists|m: int| 0 <= m < k && #[trigger] hits[m] == first_hits(hits)[i],
    decreases hits.len(),
{
    let head = hits.drop_last();
    let before = first_hits(head);
    let all = first_hits(hits);
    lemma_first_hits(head);
    if j < before.len() {
        if k < head.len() {
            lemma_hits_keep_order(head, i, j, k);
            let m = choose|m: int| 0 <= m < k && #[trigger] head[m] == before[i];
            assert(hits[m] == all[i]);
        } else {
            let m = choose|m: int|
                {
                    &&& 0 <= m < head.len()
                    &&& #[trigger] head[m] == before[i]
                };
            assert(before[i] == all[i]);
            assert(hits[m] == all[i]);
        }
    } else {
        if k < head.len() {
            assert(has_document(before, head[k].document_id));
        }
        assert(before[i] == all[i]);
        let m = choose|m: int|
            {
                &&& 0 <= m < head.len()
                &&& #[trigger] head[m] == before[i]
            };
        assert(hits[m] == all[i]);
    }
}

} // verus!
