//! Search by file path: the documents whose paths are near to a query. It needs no model
//! and no vectors.

use crate::binary64::{
    bits, of_integer, quotient, spec_bits, spec_of_integer, spec_quotient, Number,
};
use crate::chunking::smaller;
use crate::git::{lemma_lower, lower};
use crate::models::{DocumentFilepathSearchResult, DocumentRow, StoredDocument};
use crate::rows::{first_where, lemma_first_where_is_first, position, rows_of};
use crate::search::SearchQuery;
use crate::store::Store;
use crate::text::{
    chars_of, contains_chars, contains_text, lemma_text_order_total, lemma_text_order_transitive, less_text,
    text_less,
};
use vstd::prelude::*;

verus! {

/// The length from which on texts count as equally long.
pub const MEASURED_LENGTH: usize = 0xff_ffff;

/// A character as paths are compared: `\\` as `/`, and ASCII letters in lower case.
pub open spec fn folded_char(c: char) -> char {
    if c == '\\' {
        '/'
    } else {
        lower(c)
    }
}

/// A text as paths are compared.
pub open spec fn folded(s: Seq<char>) -> Seq<char> {
    s.map_values(|c: char| folded_char(c))
}

fn fold(s: &str) -> (chars: Vec<char>)
    ensures
        chars@ == folded(s@),
{
    let given: Vec<char> = chars_of(s);
    let mut chars: Vec<char> = Vec::new();
    let mut i: usize = 0;
    while i < given.len()
        invariant
            i <= given.len(),
            given@ == s@,
            chars@ =~= folded(s@).take(i as int),
        decreases given.len() - i,
    {
        let c: char = given[i];
        if c == '\\' {
            chars.push('/');
        } else if 'A' <= c && c <= 'Z' {
            chars.push(((c as u32 + 32) as u8) as char);
        } else {
            chars.push(c);
        }
        i = i + 1;
    }
    chars
}

/// Where the name at the end of a path starts: after its last `/`.
pub open spec fn name_start(path: Seq<char>) -> int
    decreases path.len(),
{
    if path.len() == 0 || path.last() == '/' {
        path.len() as int
    } else {
        name_start(path.drop_last())
    }
}

/// The name at the end of a path.
pub open spec fn base_name(path: Seq<char>) -> Seq<char> {
    path.skip(name_start(path))
}

fn find_name(path: &[char]) -> (start: usize)
    ensures
        start == name_start(path@),
        start <= path@.len(),
{
    let mut i: usize = path.len();
    proof {
        assert(path@.take(i as int) =~= path@);
    }
    while i > 0 && path[i - 1] != '/'
        invariant
            i <= path.len(),
            name_start(path@.take(i as int)) == name_start(path@),
        decreases i,
    {
        proof {
            assert(path@.take(i as int).drop_last() =~= path@.take(i - 1));
        }
        i = i - 1;
    }
    i
}

/// Whether the characters of `needle` occur in `text` in their order, others between
/// them or not.
pub open spec fn in_order(needle: Seq<char>, text: Seq<char>) -> bool
    decreases text.len(),
{
    if needle.len() == 0 {
        true
    } else if text.len() == 0 {
        false
    } else if needle.last() == text.last() {
        in_order(needle.drop_last(), text.drop_last())
    } else {
        in_order(needle, text.drop_last())
    }
}

fn occurs_in_order(needle: &[char], text: &[char]) -> (yes: bool)
    ensures
        yes == in_order(needle@, text@),
{
    let mut k: usize = needle.len();
    let mut i: usize = text.len();
    proof {
        assert(needle@.take(k as int) =~= needle@);
        assert(text@.take(i as int) =~= text@);
    }
    while k > 0 && i > 0
        invariant
            k <= needle.len(),
            i <= text.len(),
            in_order(needle@.take(k as int), text@.take(i as int)) == in_order(needle@, text@),
        decreases i,
    {
        proof {
            assert(needle@.take(k as int).drop_last() =~= needle@.take(k - 1));
            assert(text@.take(i as int).drop_last() =~= text@.take(i - 1));
        }
        if needle[k - 1] == text[i - 1] {
            k = k - 1;
        }
        i = i - 1;
    }
    k == 0
}

/// How a path matches a query, both folded: its rank, and the length by which those of
/// the same rank are told apart. First come names that hold the query, then paths that
/// hold it, then paths that hold its characters in their order.
pub open spec fn path_match(query: Seq<char>, path: Seq<char>) -> Option<(int, int)> {
    if contains_text(base_name(path), query) {
        Some((0, base_name(path).len() as int))
    } else if contains_text(path, query) {
        Some((1, path.len() as int))
    } else if in_order(query, path) {
        Some((2, path.len() as int))
    } else {
        None
    }
}

fn match_path(query: &[char], path: &[char]) -> (found: Option<(usize, usize)>)
    ensures
        match found {
            Some((rank, length)) => path_match(query@, path@) == Some((rank as int, length as int))
                && rank <= 2,
            None => path_match(query@, path@) is None,
        },
{
    let start: usize = find_name(path);
    let name: &[char] = vstd::slice::slice_subrange(path, start, path.len());
    proof {
        assert(name@ =~= base_name(path@));
    }
    if contains_chars(name, query) {
        Some((0, name.len()))
    } else if contains_chars(path, query) {
        Some((1, path.len()))
    } else if occurs_in_order(query, path) {
        Some((2, path.len()))
    } else {
        None
    }
}

/// A document whose path matches.
struct Candidate {
    document_id: i64,
    filepath: String,
    rank: usize,
    length: usize,
}

/// A document whose path matches, with how it does.
pub struct PathHit {
    pub document_id: i64,
    pub filepath: Seq<char>,
    pub rank: int,
    pub length: int,
}

impl View for Candidate {
    type V = PathHit;

    closed spec fn view(&self) -> PathHit {
        PathHit {
            document_id: self.document_id,
            filepath: self.filepath@,
            rank: self.rank as int,
            length: self.length as int,
        }
    }
}

impl PathHit {
    /// Whether this document is the better match: by its rank, then the shorter one, then
    /// the one whose path comes first.
    pub open spec fn better(self, other: PathHit) -> bool {
        self.rank < other.rank || (self.rank == other.rank && (self.length < other.length || (
        self.length == other.length && text_less(self.filepath, other.filepath))))
    }
}

/// How a document matches, if it does.
pub open spec fn hit_of(row: DocumentRow, query: Seq<char>) -> Option<PathHit> {
    match path_match(query, folded(row.filepath)) {
        Some((rank, length)) => Some(
            PathHit { document_id: row.id, filepath: row.filepath, rank, length },
        ),
        None => None,
    }
}

/// The property to be a worse match than `hit`.
pub open spec fn worse_test(hit: PathHit) -> spec_fn(PathHit) -> bool {
    |other: PathHit| hit.better(other)
}

/// A hit put in its place among others that are in their order: before the first that is
/// worse.
pub open spec fn hit_placed(hits: Seq<PathHit>, hit: PathHit) -> Seq<PathHit> {
    match first_where(hits, worse_test(hit)) {
        Some(i) => hits.insert(i, hit),
        None => hits.push(hit),
    }
}

/// The documents whose paths match a query, the best match first.
pub open spec fn path_hits(rows: Seq<DocumentRow>, query: Seq<char>) -> Seq<PathHit>
    decreases rows.len(),
{
    if rows.len() == 0 {
        seq![]
    } else {
        let before = path_hits(rows.drop_last(), query);
        match hit_of(rows.last(), query) {
            Some(hit) => hit_placed(before, hit),
            None => before,
        }
    }
}

/// How well a path matches, as a number from zero to one: each rank has its third of
/// that range, and in it longer texts have less.
pub open spec fn spec_match_score(query_length: int, rank: int, length: int) -> Number {
    let n = smaller(length, MEASURED_LENGTH as int) + 1;
    let q = smaller(query_length, MEASURED_LENGTH as int) + 1;
    spec_quotient(
        spec_of_integer((q + (2 - rank) * n) as nat),
        spec_of_integer((3 * n) as nat),
    )
}

fn match_score(query_length: usize, rank: usize, length: usize) -> (score: u64)
    requires
        rank <= 2,
    ensures
        score == spec_bits(
            spec_match_score(query_length as int, rank as int, length as int),
        ),
{
    let n: usize = if length < MEASURED_LENGTH { length + 1 } else { MEASURED_LENGTH + 1 };
    let q: usize = if query_length < MEASURED_LENGTH {
        query_length + 1
    } else {
        MEASURED_LENGTH + 1
    };
    let share: usize = if rank == 0 {
        q + 2 * n
    } else if rank == 1 {
        q + n
    } else {
        q
    };
    proof {
        assert(share == q + (2 - rank) * n) by (nonlinear_arith)
            requires
                rank == 0 && share == q + 2 * n || rank == 1 && share == q + n || rank == 2
                    && share == q,
        ;
    }
    bits(quotient(of_integer(share), of_integer(3 * n)))
}

fn is_better(a: &Candidate, b: &Candidate) -> (better: bool)
    ensures
        better == a@.better(b@),
{
    a.rank < b.rank || (a.rank == b.rank && (a.length < b.length || (a.length == b.length
        && less_text(a.filepath.as_str(), b.filepath.as_str()))))
}

/// Whether a result stands for a hit.
pub open spec fn shows_hit(
    result: DocumentFilepathSearchResult,
    hit: PathHit,
    query_length: int,
) -> bool {
    &&& result.document_id == hit.document_id
    &&& result.filepath@ == hit.filepath
    &&& result.match_score == spec_bits(spec_match_score(query_length, hit.rank, hit.length))
}

/// The documents whose paths match a query, the best match first, at most `limit` of
/// them.
pub fn search_documents_by_filepath(store: &Store, query: &str, limit: usize) -> (results: Vec<
    DocumentFilepathSearchResult,
>)
    ensures
        ({
            let hits = path_hits(store@.documents.rows, folded(query@));
            &&& results@.len() == smaller(hits.len() as int, limit as int)
            &&& forall|i: int|
                0 <= i < results@.len() ==> shows_hit(
                    #[trigger] results@[i],
                    hits[i],
                    query@.len() as int,
                )
        }),
{
    let ghost rows = store@.documents.rows;
    let needle: Vec<char> = fold(query);
    let mut found: Vec<Candidate> = Vec::new();
    let mut i: usize = 0;
    proof {
        assert(rows_of(found@) =~= path_hits(rows.take(0), needle@));
    }
    while i < store.documents.rows.len()
        invariant
            i <= store.documents.rows.len(),
            rows == store@.documents.rows,
            needle@ == folded(query@),
            rows_of(found@) == path_hits(rows.take(i as int), needle@),
            forall|k: int| 0 <= k < found@.len() ==> (#[trigger] found@[k]).rank <= 2,
        decreases store.documents.rows.len() - i,
    {
        proof {
            assert(rows.take(i + 1).drop_last() =~= rows.take(i as int));
            assert(rows.take(i + 1).last() == rows[i as int]);
        }
        let row: &StoredDocument = &store.documents.rows[i];
        let path: Vec<char> = fold(row.filepath.as_str());
        match match_path(needle.as_slice(), path.as_slice()) {
            Some((rank, length)) => {
                let hit = Candidate {
                    document_id: row.id,
                    filepath: row.filepath.clone(),
                    rank,
                    length,
                };
                let ghost view = hit@;
                let ghost before = rows_of(found@);
                let ghost p = worse_test(view);
                let is_worse = |other: &Candidate| -> (worse: bool)
                    ensures
                        worse == p(other@),
                    { is_better(&hit, other) };
                let place: Option<usize> = position(&found, is_worse, Ghost(p));
                match place {
                    Some(k) => {
                        found.insert(k, hit);
                    },
                    None => {
                        found.push(hit);
                    },
                }
                proof {
                    assert(hit_of(rows[i as int], needle@) == Some(view));
                    assert(rows_of(found@) =~= hit_placed(before, view));
                }
            },
            None => {},
        }
        i = i + 1;
    }
    proof {
        assert(rows.take(i as int) =~= rows);
    }
    let ghost hits = path_hits(rows, needle@);
    let mut results: Vec<DocumentFilepathSearchResult> = Vec::new();
    let mut k: usize = 0;
    while k < found.len() && k < limit
        invariant
            k <= found.len(),
            k <= limit,
            needle@.len() == query@.len(),
            hits == rows_of(found@),
            results@.len() == k,
            forall|j: int| 0 <= j < found@.len() ==> (#[trigger] found@[j]).rank <= 2,
            forall|j: int|
                0 <= j < k ==> shows_hit(#[trigger] results@[j], hits[j], query@.len() as int),
        decreases found.len() - k,
    {
        let hit: &Candidate = &found[k];
        proof {
            assert(hits[k as int] == hit@);
        }
        results.push(
            DocumentFilepathSearchResult {
                document_id: hit.document_id,
                filepath: hit.filepath.clone(),
                match_score: match_score(needle.len(), hit.rank, hit.length),
            },
        );
        k = k + 1;
    }
    results
}

/// A document that was found by its path, as it is shown.
#[derive(Clone, Debug, PartialEq, Eq)]
pub struct FilepathDocument {
    pub filepath: String,
    /// How near it is: the bits of a double precision number.
    pub match_score: u64,
    pub byte_start: Option<i64>,
    pub byte_end: Option<i64>,
}

/// Whether a document is shown as its hit says. A path has no location in a text, so
/// none is shown.
pub open spec fn shows_document(document: FilepathDocument, hit: PathHit, query_length: int) -> bool {
    &&& document.filepath@ == hit.filepath
    &&& document.match_score == spec_bits(spec_match_score(query_length, hit.rank, hit.length))
    &&& document.byte_start is None
    &&& document.byte_end is None
}

/// Answers a search by file path. Whether it asks for locations counts for nothing.
pub fn search_by_filepath(store: &Store, search: &SearchQuery) -> (documents: Vec<FilepathDocument>)
    ensures
        ({
            let hits = path_hits(store@.documents.rows, folded(search.query@));
            &&& documents@.len() == smaller(hits.len() as int, search.limit as int)
            &&& forall|i: int|
                0 <= i < documents@.len() ==> shows_document(
                    #[trigger] documents@[i],
                    hits[i],
                    search.query@.len() as int,
                )
        }),
{
    let results: Vec<DocumentFilepathSearchResult> = search_documents_by_filepath(
        store,
        search.query.as_str(),
        search.limit,
    );
    let ghost hits = path_hits(store@.documents.rows, folded(search.query@));
    let ghost n = search.query@.len() as int;
    let mut documents: Vec<FilepathDocument> = Vec::new();
    let mut i: usize = 0;
    while i < results.len()
        invariant
            i <= results.len(),
            documents@.len() == i,
            forall|k: int|
                0 <= k < results@.len() ==> shows_hit(#[trigger] results@[k], hits[k], n),
            forall|k: int|
                0 <= k < i ==> shows_document(#[trigger] documents@[k], hits[k], n),
        decreases results.len() - i,
    {
        proof {
            assert(shows_hit(results@[i as int], hits[i as int], n));
        }
        documents.push(
            FilepathDocument {
                filepath: results[i].filepath.clone(),
                match_score: results[i].match_score,
                byte_start: None,
                byte_end: None,
            },
        );
        i = i + 1;
    }
    documents
}

/// To be a better match is transitive.
proof fn lemma_better_transitive(a: PathHit, b: PathHit, c: PathHit)
    requires
        a.better(b),
        b.better(c),
    ensures
        a.better(c),
{
    if a.rank == b.rank && b.rank == c.rank && a.length == b.length && b.length == c.length {
        lemma_text_order_transitive(a.filepath, b.filepath, c.filepath);
    }
}

proof fn lemma_not_better_than_itself(hit: PathHit)
    ensures
        !hit.better(hit),
{
    lemma_text_order_total(hit.filepath, hit.filepath);
}

/// Where a hit is put.
spec fn hit_index(hits: Seq<PathHit>, hit: PathHit) -> int {
    match first_where(hits, worse_test(hit)) {
        Some(i) => i,
        None => hits.len() as int,
    }
}

proof fn lemma_hit_placed(hits: Seq<PathHit>, hit: PathHit)
    ensures
        0 <= hit_index(hits, hit) <= hits.len(),
        hit_placed(hits, hit) == hits.insert(hit_index(hits, hit), hit),
        forall|i: int| 0 <= i < hit_index(hits, hit) ==> !hit.better(#[trigger] hits[i]),
        hit_index(hits, hit) < hits.len() ==> hit.better(hits[hit_index(hits, hit)]),
{
    let p = worse_test(hit);
    lemma_first_where_is_first(hits, p);
    assert forall|i: int| 0 <= i < hit_index(hits, hit) implies !hit.better(#[trigger] hits[i]) by {
        assert(!p(hits[i]));
    }
    if let Some(i) = first_where(hits, p) {
        assert(p(hits[i]));
    }
    assert(hit_placed(hits, hit) =~= hits.insert(hit_index(hits, hit), hit));
}

/// Which document a hit stands for.
proof fn lemma_hit_origin(rows: Seq<DocumentRow>, query: Seq<char>, k: int) -> (i: int)
    requires
        0 <= k < path_hits(rows, query).len(),
    ensures
        0 <= i < rows.len(),
        hit_of(rows[i], query) == Some(path_hits(rows, query)[k]),
    decreases rows.len(),
{
    let head = rows.drop_last();
    let before = path_hits(head, query);
    match hit_of(rows.last(), query) {
        Some(hit) => {
            let at = hit_index(before, hit);
            lemma_hit_placed(before, hit);
            if k < at {
                lemma_hit_origin(head, query, k)
            } else if k == at {
                rows.len() - 1
            } else {
                lemma_hit_origin(head, query, k - 1)
            }
        },
        None => lemma_hit_origin(head, query, k),
    }
}

/// Where the hit of a document stands.
proof fn lemma_hit_found(rows: Seq<DocumentRow>, query: Seq<char>, i: int) -> (k: int)
    requires
        0 <= i < rows.len(),
        hit_of(rows[i], query) is Some,
    ensures
        0 <= k < path_hits(rows, query).len(),
        hit_of(rows[i], query) == Some(path_hits(rows, query)[k]),
    decreases rows.len(),
{
    let head = rows.drop_last();
    let before = path_hits(head, query);
    match hit_of(rows.last(), query) {
        Some(hit) => {
            let at = hit_index(before, hit);
            lemma_hit_placed(before, hit);
            if i < head.len() {
                let k = lemma_hit_found(head, query, i);
                if k < at {
                    k
                } else {
                    k + 1
                }
            } else {
                at
            }
        },
        None => lemma_hit_found(head, query, i),
    }
}

/// No hit stands before a better one, and none stands for the same document.
proof fn lemma_hits_in_order(rows: Seq<DocumentRow>, query: Seq<char>, i: int, j: int)
    requires
        forall|i: int, j: int|
            0 <= i < j < rows.len() ==> (#[trigger] rows[i]).id != (#[trigger] rows[j]).id,
        0 <= i < j < path_hits(rows, query).len(),
    ensures
        !path_hits(rows, query)[j].better(path_hits(rows, query)[i]),
        path_hits(rows, query)[i].document_id != path_hits(rows, query)[j].document_id,
    decreases rows.len(),
{
    let head = rows.drop_last();
    let before = path_hits(head, query);
    assert forall|i: int, j: int| 0 <= i < j < head.len() implies (#[trigger] head[i]).id != (
    #[trigger] head[j]).id by {
        assert(head[i] == rows[i] && head[j] == rows[j]);
    }
    match hit_of(rows.last(), query) {
        Some(hit) => {
            let at = hit_index(before, hit);
            lemma_hit_placed(before, hit);
            let oi = if i < at {
                i
            } else {
                i - 1
            };
            let oj = if j < at {
                j
            } else {
                j - 1
            };
            if i == at {
                let o = lemma_hit_origin(head, query, oj);
                assert(rows[o].id != rows[rows.len() - 1].id);
                if oj > at {
                    lemma_hits_in_order(head, query, at, oj);
                } else {
                    lemma_not_better_than_itself(before[at]);
                }
                if before[oj].better(hit) {
                    lemma_better_transitive(before[oj], hit, before[at]);
                }
            } else if j == at {
                let o = lemma_hit_origin(head, query, oi);
                assert(rows[o].id != rows[rows.len() - 1].id);
            } else {
                lemma_hits_in_order(head, query, oi, oj);
            }
        },
        None => {
            lemma_hits_in_order(head, query, i, j);
        },
    }
}

/// All documents whose paths match are found and no others, each once, and none before a
/// better one. So a document whose name holds the query comes before one with a longer
/// such name, and before one of which only the path matches.
pub proof fn lemma_path_hits(rows: Seq<DocumentRow>, query: Seq<char>)
    requires
        forall|i: int, j: int|
            0 <= i < j < rows.len() ==> (#[trigger] rows[i]).id != (#[trigger] rows[j]).id,
    ensures
        forall|i: int|
            0 <= i < rows.len() && hit_of(#[trigger] rows[i], query) is Some ==> path_hits(
                rows,
                query,
            ).contains(hit_of(rows[i], query).unwrap()),
        forall|k: int|
            0 <= k < path_hits(rows, query).len() ==> is_hit(
                rows,
                query,
                #[trigger] path_hits(rows, query)[k],
            ),
        forall|i: int, j: int|
            0 <= i < j < path_hits(rows, query).len() ==> !(#[trigger] path_hits(
                rows,
                query,
            )[j]).better(#[trigger] path_hits(rows, query)[i]) && path_hits(
                rows,
                query,
            )[i].document_id != path_hits(rows, query)[j].document_id,
{
    let hits = path_hits(rows, query);
    assert forall|i: int|
        0 <= i < rows.len() && hit_of(#[trigger] rows[i], query) is Some implies hits.contains(
        hit_of(rows[i], query).unwrap(),
    ) by {
        let k = lemma_hit_found(rows, query, i);
        assert(hits[k] == hit_of(rows[i], query).unwrap());
    }
    assert forall|k: int| 0 <= k < hits.len() implies is_hit(rows, query, #[trigger] hits[k]) by {
        let i = lemma_hit_origin(rows, query, k);
        assert(hit_of(rows[i], query) == Some(hits[k]));
    }
    assert forall|i: int, j: int| 0 <= i < j < hits.len() implies !(#[trigger] hits[j]).better(
        #[trigger] hits[i],
    ) && hits[i].document_id != hits[j].document_id by {
        lemma_hits_in_order(rows, query, i, j);
    }
}

/// Whether a hit stands for one of the documents.
pub open spec fn is_hit(rows: Seq<DocumentRow>, query: Seq<char>, hit: PathHit) -> bool {
    exists|i: int| 0 <= i < rows.len() && hit_of(#[trigger] rows[i], query) == Some(hit)
}

/// The name at the end of a path: what follows its last `/`, or all of it.
pub proof fn lemma_base_name(path: Seq<char>)
    ensures
        0 <= name_start(path) <= path.len(),
        forall|i: int| 0 <= i < base_name(path).len() ==> #[trigger] base_name(path)[i] != '/',
        name_start(path) > 0 ==> path[name_start(path) - 1] == '/',
        base_name(path) == path.subrange(name_start(path), path.len() as int),
    decreases path.len(),
{
    if path.len() > 0 && path.last() != '/' {
        let head = path.drop_last();
        lemma_base_name(head);
        assert forall|i: int| 0 <= i < base_name(path).len() implies #[trigger] base_name(path)[i]
            != '/' by {
            let at = name_start(path) + i;
            assert(base_name(path)[i] == path[at]);
            if at < head.len() {
                assert(base_name(head)[i] == path[at]);
            }
        }
    }
    assert(base_name(path) =~= path.subrange(name_start(path), path.len() as int));
}

/// Whether places grow.
pub open spec fn grows(places: Seq<int>, n: int) -> bool {
    &&& forall|i: int| 0 <= i < places.len() ==> 0 <= #[trigger] places[i] < n
    &&& forall|i: int, j: int|
        0 <= i < j < places.len() ==> #[trigger] places[i] < #[trigger] places[j]
}

/// Whether a text holds the characters of another one at these places.
pub open spec fn found_at(needle: Seq<char>, text: Seq<char>, places: Seq<int>) -> bool {
    &&& places.len() == needle.len()
    &&& grows(places, text.len() as int)
    &&& forall|i: int| 0 <= i < needle.len() ==> text[#[trigger] places[i]] == needle[i]
}

/// Characters occur in their order if and only if they are found at places that grow.
pub proof fn lemma_in_order(needle: Seq<char>, text: Seq<char>)
    ensures
        in_order(needle, text) <==> exists|places: Seq<int>| found_at(needle, text, places),
    decreases text.len(),
{
    if needle.len() == 0 {
        assert(found_at(needle, text, seq![]));
    } else if text.len() == 0 {
        if exists|places: Seq<int>| found_at(needle, text, places) {
            let places = choose|places: Seq<int>| found_at(needle, text, places);
            assert(places.len() > 0);
            assert(0 <= places[0] < text.len());
        }
    } else {
        let short = text.drop_last();
        let n = text.len() - 1;
        let part = if needle.last() == text.last() {
            needle.drop_last()
        } else {
            needle
        };
        lemma_in_order(part, short);
        if in_order(part, short) {
            let places = choose|places: Seq<int>| found_at(part, short, places);
            let all = if needle.last() == text.last() {
                places.push(n)
            } else {
                places
            };
            assert forall|i: int| 0 <= i < needle.len() implies text[#[trigger] all[i]]
                == needle[i] by {
                if i < places.len() {
                    assert(all[i] == places[i]);
                    assert(short[places[i]] == text[places[i]]);
                }
            }
            assert(found_at(needle, text, all));
        }
        if exists|places: Seq<int>| found_at(needle, text, places) {
            let places = choose|places: Seq<int>| found_at(needle, text, places);
            let m = places.len() - 1;
            if needle.last() == text.last() {
                let some = places.drop_last();
                assert forall|i: int| 0 <= i < some.len() implies 0 <= #[trigger] some[i] < n by {
                    assert(some[i] == places[i]);
                    assert(places[i] < places[m]);
                }
                assert forall|i: int, j: int| 0 <= i < j < some.len() implies #[trigger] some[i]
                    < #[trigger] some[j] by {
                    assert(places[i] < places[j]);
                }
                assert forall|i: int| 0 <= i < part.len() implies short[#[trigger] some[i]]
                    == part[i] by {
                    assert(text[places[i]] == needle[i]);
                }
                assert(found_at(part, short, some));
            } else {
                assert(text[places[m]] == needle[m]);
                assert forall|i: int| 0 <= i < places.len() implies 0 <= #[trigger] places[i]
                    < n by {
                    if i < m {
                        assert(places[i] < places[m]);
                    }
                }
                assert forall|i: int| 0 <= i < part.len() implies short[#[trigger] places[i]]
                    == part[i] by {
                    assert(text[places[i]] == needle[i]);
                }
                assert(found_at(part, short, places));
            }
        }
    }
}

/// As paths are compared, `\\` is `/`, the 26 letters of ASCII are small, and every other
/// character is itself.
pub proof fn lemma_folded(s: Seq<char>, i: int)
    requires
        0 <= i < s.len(),
    ensures
        folded(s).len() == s.len(),
        s[i] == '\\' ==> folded(s)[i] == '/',
        s[i] != '\\' && !('A' <= s[i] <= 'Z') ==> folded(s)[i] == s[i],
        'A' <= s[i] <= 'Z' ==> folded(s)[i] as u32 == s[i] as u32 + 32,
{
    lemma_lower(s[i]);
}

/// Whether a text stands in a path from `a` on.
pub open spec fn stands_at(query: Seq<char>, path: Seq<char>, a: int) -> bool {
    0 <= a && a + query.len() <= path.len() && path.subrange(a, a + query.len()) == query
}

/// Whether no `/` stands in a path from `a` on.
pub open spec fn last_name_from(path: Seq<char>, a: int) -> bool {
    forall|i: int| a <= i < path.len() ==> #[trigger] path[i] != '/'
}

/// How a path matches, told from its characters: where the query stands behind the last
/// `/`, by the length of what does; else where it stands anywhere, or its characters stand
/// there in their order, by the length of the path; else not at all.
pub proof fn lemma_path_match(query: Seq<char>, path: Seq<char>)
    ensures
        ({
            let in_name = exists|a: int| #[trigger]
                stands_at(query, path, a) && last_name_from(path, a);
            let in_path = exists|a: int| #[trigger] stands_at(query, path, a);
            let spread = exists|places: Seq<int>| found_at(query, path, places);
            match path_match(query, path) {
                Some((rank, length)) => {
                    &&& rank == 0 <==> in_name
                    &&& rank == 1 <==> in_path && !in_name
                    &&& rank == 2 <==> spread && !in_path
                    &&& rank == 0 ==> {
                        &&& 0 <= length <= path.len()
                        &&& last_name_from(path, path.len() - length)
                        &&& length < path.len() ==> path[path.len() - length - 1] == '/'
                    }
                    &&& rank != 0 ==> length == path.len()
                },
                None => !in_path && !spread,
            }
        }),
{
    lemma_base_name(path);
    lemma_in_order(query, path);
    let start = name_start(path);
    let name = base_name(path);
    let n = query.len() as int;
    assert forall|i: int| start <= i < path.len() implies #[trigger] path[i] != '/' by {
        assert(name[i - start] == path[i]);
    }
    if contains_text(name, query) {
        let i = choose|i: int|
            0 <= i <= name.len() - query.len() && #[trigger] name.subrange(i, i + query.len())
                == query;
        assert(path.subrange(start + i, start + i + n) =~= name.subrange(i, i + n));
        assert(stands_at(query, path, start + i));
        assert(last_name_from(path, start + i));
    }
    if exists|a: int| #[trigger] stands_at(query, path, a) && last_name_from(path, a) {
        let a = choose|a: int| #[trigger]
            stands_at(query, path, a) && last_name_from(path, a);
        if a < start {
            assert(path[start - 1] == '/');
        }
        assert(path.subrange(a, a + n) =~= name.subrange(a - start, a - start + n));
        assert(contains_text(name, query));
    }
    if contains_text(path, query) {
        let i = choose|i: int|
            0 <= i <= path.len() - query.len() && #[trigger] path.subrange(i, i + query.len())
                == query;
        assert(stands_at(query, path, i));
    }
    if exists|a: int| #[trigger] stands_at(query, path, a) {
        let a = choose|a: int| #[trigger] stands_at(query, path, a);
        assert(path.subrange(a, a + n) == query);
        assert(contains_text(path, query));
    }
}

/// In which order documents are shown: names that hold the query before paths that do, those
/// before paths that hold its characters in their order, and of each kind the shorter ones
/// before the longer ones, those of one length by their paths.
pub proof fn lemma_hits_by_rank(rows: Seq<DocumentRow>, query: Seq<char>, i: int, j: int)
    requires
        forall|i: int, j: int|
            0 <= i < j < rows.len() ==> (#[trigger] rows[i]).id != (#[trigger] rows[j]).id,
        0 <= i < j < path_hits(rows, query).len(),
    ensures
        ({
            let a = path_hits(rows, query)[i];
            let b = path_hits(rows, query)[j];
            &&& a.rank <= b.rank
            &&& a.rank == b.rank ==> a.length <= b.length
            &&& a.rank == b.rank && a.length == b.length ==> !text_less(b.filepath, a.filepath)
        }),
{
    lemma_hits_in_order(rows, query, i, j);
}

} // verus!
