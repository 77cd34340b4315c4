//! Asking for embeddings: batches, answers, errors, and a client that answers by itself.
//!
//! The values of a vector are single precision numbers, each given by its bits.

use crate::binary64::round_ties_even;
use crate::chunking::smaller;
use crate::config::{EmbeddingProvider, ProviderView};
use crate::models::{EmbeddingModel, ModelView};
use crate::rows::{
    first_where, is_first, lemma_first_where, lemma_first_where_is_first, position, rows_of,
};
use crate::text::{
    chars_of, contains_chars, contains_text, decimal, decimal_of, signed_decimal, signed_decimal_of,
    string_of, trim, trimmed,
};
use vstd::arithmetic::power2::{
    lemma2_to64, lemma2_to64_rest, lemma_pow2_adds, lemma_pow2_strictly_increases, pow2,
};
use vstd::prelude::*;
use vstd::utf8::encode_utf8;

verus! {

/// How long a job waits after the service was out of order for a while, in seconds.
pub const TRANSIENT_RETRY_DELAY_SECS: u64 = 300;

/// Why embeddings could not be made.
#[derive(Clone, Debug, PartialEq, Eq)]
pub struct EmbeddingError {
    pub message: String,
    /// After how many seconds to try again; `None` where that is no use.
    pub retry_after: Option<u64>,
}

impl EmbeddingError {
    /// An error that passes.
    pub fn retryable(message: String, retry_after_secs: u64) -> (error: EmbeddingError)
        ensures
            error.message == message,
            error.retry_after == Some(retry_after_secs),
    {
        EmbeddingError { message, retry_after: Some(retry_after_secs) }
    }

    /// An error that stays.
    pub fn permanent(message: String) -> (error: EmbeddingError)
        ensures
            error.message == message,
            error.retry_after is None,
    {
        EmbeddingError { message, retry_after: None }
    }

    /// After how many seconds to try again.
    pub fn retry_after_secs(&self) -> (secs: Option<u64>)
        ensures
            secs == self.retry_after,
    {
        self.retry_after
    }
}

/// Makes embeddings.
pub trait EmbeddingClient {
    /// One vector for each text, in the same order, of the model's dimensions.
    fn embed(&self, model: &EmbeddingModel, inputs: &[String]) -> (vectors: Result<
        Vec<Vec<u32>>,
        EmbeddingError,
    >);
}

/// `s` without `/` at its end.
pub open spec fn without_slashes(s: Seq<char>) -> Seq<char>
    decreases s.len(),
{
    if s.len() > 0 && s.last() == '/' {
        without_slashes(s.drop_last())
    } else {
        s
    }
}

/// Asks a service with the interface of OpenAI.
#[derive(Clone, Debug, PartialEq, Eq)]
pub struct HttpEmbeddingClient {
    pub provider: EmbeddingProvider,
    pub max_batch_size: usize,
}

/// A client that could send nothing.
#[derive(Clone, Copy, Debug, PartialEq, Eq, Structural)]
pub struct EmptyBatches;

impl EmptyBatches {
    /// What is wrong, in words.
    pub fn message(&self) -> (text: String)
        ensures
            text@ == "max_batch_size must be greater than 0"@,
    {
        String::from_str("max_batch_size must be greater than 0")
    }
}

impl HttpEmbeddingClient {
    /// Whether a batch can hold something.
    pub open spec fn wf(&self) -> bool {
        self.max_batch_size > 0
    }

    /// A client that sends at most `max_batch_size` texts in one request.
    pub fn new(provider: EmbeddingProvider, max_batch_size: usize) -> (result: Result<
        HttpEmbeddingClient,
        EmptyBatches,
    >)
        ensures
            match result {
                Ok(client) => {
                    &&& client.wf()
                    &&& client.provider == provider
                    &&& client.max_batch_size == max_batch_size
                },
                Err(_) => max_batch_size == 0,
            },
    {
        if max_batch_size == 0 {
            return Err(EmptyBatches);
        }
        Ok(HttpEmbeddingClient { provider, max_batch_size })
    }

    /// Where requests are sent.
    pub fn request_url(&self) -> (url: String)
        ensures
            url@ == without_slashes(self.provider@.base_url()) + "/embeddings"@,
    {
        let chars: Vec<char> = chars_of(self.provider.base_url());
        let mut end: usize = chars.len();
        proof {
            assert(chars@.take(end as int) =~= chars@);
        }
        while end > 0 && chars[end - 1] == '/'
            invariant
                end <= chars.len(),
                without_slashes(chars@) == without_slashes(chars@.take(end as int)),
            decreases end,
        {
            proof {
                assert(chars@.take(end as int).drop_last() =~= chars@.take(end - 1));
            }
            end = end - 1;
        }
        let kept: &[char] = vstd::slice::slice_subrange(chars.as_slice(), 0, end);
        proof {
            assert(kept@ =~= chars@.take(end as int));
        }
        string_of(kept).concat("/embeddings")
    }

    /// The token that requests carry, if the service asks for one.
    pub fn bearer_token(&self) -> (token: Option<String>)
        ensures
            match token {
                Some(token) => self.provider@ matches ProviderView::OpenAi { auth_token, .. }
                    && token@ == auth_token,
                None => self.provider is Tei,
            },
    {
        match &self.provider {
            EmbeddingProvider::OpenAi { auth_token, .. } => Some(auth_token.clone()),
            EmbeddingProvider::Tei { .. } => None,
        }
    }
}

/// What a service answered that refused a request, in words.
pub fn refused_message(status: &str, body: &str) -> (text: String)
    ensures
        text@ == "embedding provider returned "@ + status@ + ": "@ + trimmed(body@),
{
    let chars: Vec<char> = chars_of(body);
    String::from_str("embedding provider returned ").concat(status).concat(": ").concat(
        string_of(trim(chars.as_slice())).as_str(),
    )
}

/// One vector of an answer, with the place of its text in the request.
#[derive(Clone, Debug, PartialEq, Eq)]
pub struct EmbeddingResponseItem {
    pub index: usize,
    pub embedding: Vec<u32>,
}

/// The view of an [`EmbeddingResponseItem`].
pub struct ItemView {
    pub index: usize,
    pub embedding: Seq<u32>,
}

impl View for EmbeddingResponseItem {
    type V = ItemView;

    open spec fn view(&self) -> ItemView {
        ItemView { index: self.index, embedding: self.embedding@ }
    }
}

/// What is wrong with an answer.
#[derive(Clone, Debug, PartialEq, Eq)]
pub enum ResponseError {
    /// It has not one vector for each text.
    VectorCount { vectors: usize, inputs: usize },
    /// A vector has not the model's dimensions.
    Dimensions { found: usize, model: String, expected: i64 },
}

impl ResponseError {
    pub open spec fn spec_message(&self) -> Seq<char> {
        match self {
            ResponseError::VectorCount { vectors, inputs } => "embedding provider returned "@
                + decimal(*vectors as nat) + " vectors for "@ + decimal(*inputs as nat)
                + " inputs"@,
            ResponseError::Dimensions { found, model, expected } => "embedding provider returned "@
                + decimal(*found as nat) + " dimensions for model "@ + model@ + " (expected "@
                + signed_decimal(*expected as int) + ")"@,
        }
    }

    /// What is wrong, in words.
    pub fn message(&self) -> (text: String)
        ensures
            text@ == self.spec_message(),
    {
        match self {
            ResponseError::VectorCount { vectors, inputs } => String::from_str(
                "embedding provider returned ",
            ).concat(decimal_of(*vectors as u64).as_str()).concat(" vectors for ").concat(
                decimal_of(*inputs as u64).as_str(),
            ).concat(" inputs"),
            ResponseError::Dimensions { found, model, expected } => String::from_str(
                "embedding provider returned ",
            ).concat(decimal_of(*found as u64).as_str()).concat(" dimensions for model ").concat(
                model.as_str(),
            ).concat(" (expected ").concat(signed_decimal_of(*expected).as_str()).concat(")"),
        }
    }
}

/// The property to stand after the place `index`.
pub open spec fn later_than(index: usize) -> spec_fn(ItemView) -> bool {
    |item: ItemView| item.index > index
}

/// An item put in its place among items that are in the order of the request.
pub open spec fn placed(items: Seq<ItemView>, item: ItemView) -> Seq<ItemView> {
    match first_where(items, later_than(item.index)) {
        Some(i) => items.insert(i, item),
        None => items.push(item),
    }
}

/// The items in the order of the request; those of one place keep their order.
pub open spec fn by_index(items: Seq<ItemView>) -> Seq<ItemView>
    decreases items.len(),
{
    if items.len() == 0 {
        seq![]
    } else {
        placed(by_index(items.drop_last()), items.last())
    }
}

/// `by_index` gives all items, and in the order of the request.
pub proof fn lemma_by_index(items: Seq<ItemView>)
    ensures
        by_index(items).len() == items.len(),
        by_index(items).to_multiset() == items.to_multiset(),
        forall|i: int, j: int|
            0 <= i < j < by_index(items).len() ==> (#[trigger] by_index(items)[i]).index <= (
            #[trigger] by_index(items)[j]).index,
    decreases items.len(),
{
    broadcast use vstd::seq_lib::group_to_multiset_ensures;

    if items.len() > 0 {
        let head = items.drop_last();
        let item = items.last();
        lemma_by_index(head);
        let sorted = by_index(head);
        let p = later_than(item.index);
        lemma_first_where_is_first(sorted, p);
        assert(head.push(item) =~= items);
        let all = placed(sorted, item);
        let k = match first_where(sorted, p) {
            Some(i) => i,
            None => sorted.len() as int,
        };
        assert(all =~= sorted.insert(k, item));
        assert forall|i: int, j: int| 0 <= i < j < all.len() implies (#[trigger] all[i]).index <= (
        #[trigger] all[j]).index by {
            if j < k {
                assert(sorted[i].index <= sorted[j].index);
            } else if i > k {
                assert(sorted[i - 1].index <= sorted[j - 1].index);
            } else if i < k && j == k {
                assert(!p(sorted[i]));
            } else if i < k {
                assert(sorted[i].index <= sorted[j - 1].index);
            } else if j - 1 > k {
                assert(p(sorted[k]));
                assert(sorted[k].index <= sorted[j - 1].index);
            } else {
                assert(p(sorted[k]));
            }
        }
    } else {
        assert(by_index(items) =~= items);
    }
}

/// The property not to have `dimensions` values.
pub open spec fn wrong_size(dimensions: i64) -> spec_fn(ItemView) -> bool {
    |item: ItemView| item.embedding.len() != dimensions
}

pub open spec fn vectors_view(vectors: Seq<Vec<u32>>) -> Seq<Seq<u32>> {
    vectors.map_values(|vector: Vec<u32>| vector@)
}

/// The vectors of an answer, in the order of the request. There has to be one for each
/// text, of the model's dimensions.
pub fn parse_response_vectors(
    items: Vec<EmbeddingResponseItem>,
    model: &EmbeddingModel,
    expected_vectors: usize,
) -> (result: Result<Vec<Vec<u32>>, ResponseError>)
    ensures
        ({
            let sorted = by_index(rows_of(items@));
            match result {
                Ok(vectors) => {
                    &&& items@.len() == expected_vectors
                    &&& first_where(sorted, wrong_size(model.dimensions)) is None
                    &&& vectors_view(vectors@) == sorted.map_values(
                        |item: ItemView| item.embedding,
                    )
                },
                Err(ResponseError::VectorCount { vectors, inputs }) => {
                    &&& items@.len() != expected_vectors
                    &&& vectors == items@.len()
                    &&& inputs == expected_vectors
                },
                Err(ResponseError::Dimensions { found, model: name, expected }) => {
                    &&& items@.len() == expected_vectors
                    &&& first_where(sorted, wrong_size(model.dimensions)) matches Some(i) && found
                        == sorted[i].embedding.len()
                    &&& name@ == model.name@
                    &&& expected == model.dimensions
                },
            }
        }),
{
    if items.len() != expected_vectors {
        return Err(
            ResponseError::VectorCount { vectors: items.len(), inputs: expected_vectors },
        );
    }
    let ghost all = rows_of(items@);
    let mut sorted: Vec<EmbeddingResponseItem> = Vec::new();
    let mut i: usize = 0;
    proof {
        assert(rows_of(sorted@) =~= by_index(all.take(0)));
    }
    while i < items.len()
        invariant
            i <= items.len(),
            all == rows_of(items@),
            rows_of(sorted@) == by_index(all.take(i as int)),
        decreases items.len() - i,
    {
        proof {
            assert(all.take(i + 1).drop_last() =~= all.take(i as int));
        }
        let index: usize = items[i].index;
        let item = EmbeddingResponseItem {
            index,
            embedding: vstd::slice::slice_to_vec(items[i].embedding.as_slice()),
        };
        let ghost before = rows_of(sorted@);
        let ghost p = later_than(index);
        let is_later = |other: &EmbeddingResponseItem| -> (later: bool)
            ensures
                later == p(other@),
            { other.index > index };
        let place: Option<usize> = position(&sorted, is_later, Ghost(p));
        match place {
            Some(k) => {
                sorted.insert(k, item);
            },
            None => {
                sorted.push(item);
            },
        }
        proof {
            assert(rows_of(sorted@) =~= placed(before, all[i as int]));
        }
        i = i + 1;
    }
    proof {
        assert(all.take(i as int) =~= all);
    }
    let ghost rows = rows_of(sorted@);
    let ghost q = wrong_size(model.dimensions);
    let mut vectors: Vec<Vec<u32>> = Vec::new();
    let mut j: usize = 0;
    while j < sorted.len()
        invariant
            j <= sorted.len(),
            rows == rows_of(sorted@),
            rows == by_index(rows_of(items@)),
            items@.len() == expected_vectors,
            q == wrong_size(model.dimensions),
            vectors@.len() == j,
            forall|k: int| 0 <= k < j ==> !q(#[trigger] rows[k]),
            forall|k: int| 0 <= k < j ==> (#[trigger] vectors@[k])@ == rows[k].embedding,
        decreases sorted.len() - j,
    {
        proof {
            assert(rows[j as int] == sorted@[j as int]@);
        }
        let found: usize = sorted[j].embedding.len();
        if found as i128 != model.dimensions as i128 {
            proof {
                assert(is_first(rows, q, j as int));
                lemma_first_where(rows, q, j as int);
            }
            return Err(
                ResponseError::Dimensions {
                    found,
                    model: model.name.clone(),
                    expected: model.dimensions,
                },
            );
        }
        vectors.push(vstd::slice::slice_to_vec(sorted[j].embedding.as_slice()));
        j = j + 1;
    }
    proof {
        lemma_first_where_is_first(rows, q);
        assert(vectors_view(vectors@) =~= rows.map_values(|item: ItemView| item.embedding));
    }
    Ok(vectors)
}

/// Why texts were not embedded in batches.
#[derive(Clone, Debug, PartialEq, Eq)]
pub enum BatchError<E> {
    /// A batch failed.
    Failed { batch: usize, start: usize, end: usize, error: E },
    /// A batch has not one vector for each of its texts.
    VectorCount { batch: usize, vectors: usize, inputs: usize },
}

impl<E> BatchError<E> {
    pub open spec fn spec_message(&self) -> Seq<char> {
        match self {
            BatchError::Failed { batch, start, end, .. } => "embedding batch "@ + decimal(
                *batch as nat + 1,
            ) + " failed for input range ["@ + decimal(*start as nat) + ".."@ + decimal(
                *end as nat,
            ) + ")"@,
            BatchError::VectorCount { batch, vectors, inputs } => "embedding batch "@ + decimal(
                *batch as nat + 1,
            ) + " returned "@ + decimal(*vectors as nat) + " vectors for "@ + decimal(
                *inputs as nat,
            ) + " inputs"@,
        }
    }

    /// What went wrong, in words, without the error of the batch itself.
    pub fn message(&self) -> (text: String)
        requires
            match self {
                BatchError::Failed { batch, .. } => *batch < usize::MAX,
                BatchError::VectorCount { batch, .. } => *batch < usize::MAX,
            },
        ensures
            text@ == self.spec_message(),
    {
        match self {
            BatchError::Failed { batch, start, end, .. } => String::from_str(
                "embedding batch ",
            ).concat(decimal_of(*batch as u64 + 1).as_str()).concat(
                " failed for input range [",
            ).concat(decimal_of(*start as u64).as_str()).concat("..").concat(
                decimal_of(*end as u64).as_str(),
            ).concat(")"),
            BatchError::VectorCount { batch, vectors, inputs } => String::from_str(
                "embedding batch ",
            ).concat(decimal_of(*batch as u64 + 1).as_str()).concat(" returned ").concat(
                decimal_of(*vectors as u64).as_str(),
            ).concat(" vectors for ").concat(decimal_of(*inputs as u64).as_str()).concat(
                " inputs",
            ),
        }
    }
}

/// Where a batch that starts at `start` ends.
pub open spec fn batch_end(inputs: int, start: int, size: int) -> int {
    smaller(start + size, inputs)
}

/// Whether `answer` is what `embed_batch` may answer for the batch from `start` on.
pub open spec fn may_answer<V, E, F: Fn(&[String], usize, usize, usize) -> Result<Vec<V>, E>>(
    embed_batch: F,
    inputs: Seq<String>,
    size: int,
    batch: int,
    answer: Result<Vec<V>, E>,
) -> bool {
    let start = batch * size;
    let end = batch_end(inputs.len() as int, start, size);
    exists|slice: &[String]|
        {
            &&& #[trigger] slice@ == inputs.subrange(start, end)
            &&& call_ensures(
                embed_batch,
                (slice, batch as usize, start as usize, end as usize),
                answer,
            )
        }
}

/// Whether the vectors of a batch are what `embed_batch` may answer for it.
pub open spec fn batch_answered<V, E, F: Fn(&[String], usize, usize, usize) -> Result<Vec<V>, E>>(
    embed_batch: F,
    inputs: Seq<String>,
    size: int,
    batch: int,
    vectors: Seq<V>,
) -> bool {
    let start = batch * size;
    let end = batch_end(inputs.len() as int, start, size);
    exists|answer: Vec<V>|
        {
            &&& #[trigger] answer@ == vectors.subrange(start, end)
            &&& may_answer(embed_batch, inputs, size, batch, Ok::<Vec<V>, E>(answer))
        }
}

/// Whether `embed_batch` may answer a batch with one vector for each of its texts.
pub open spec fn batch_succeeds<V, E, F: Fn(&[String], usize, usize, usize) -> Result<Vec<V>, E>>(
    embed_batch: F,
    inputs: Seq<String>,
    size: int,
    batch: int,
) -> bool {
    let start = batch * size;
    let end = batch_end(inputs.len() as int, start, size);
    exists|answer: Vec<V>|
        #[trigger] answer@.len() == end - start && may_answer(
            embed_batch,
            inputs,
            size,
            batch,
            Ok::<Vec<V>, E>(answer),
        )
}

/// Embeds texts in batches of at most `max_batch_size`, one batch after another. The
/// first batch that fails, or is not answered with one vector for each text, ends it.
///
/// `embed_batch` is given a batch, its number, and where it starts and ends among the
/// texts. The answer is the vectors of all batches, in the order of the texts.
pub fn embed_inputs_in_batches<
    V,
    E,
    F: Fn(&[String], usize, usize, usize) -> Result<Vec<V>, E>,
>(inputs: &[String], max_batch_size: usize, embed_batch: F) -> (result: Result<
    Vec<V>,
    BatchError<E>,
>)
    requires
        max_batch_size > 0 || inputs@.len() == 0,
        forall|slice: &[String], batch: usize, start: usize, end: usize|
            call_requires(embed_batch, (slice, batch, start, end)),
    ensures
        match result {
            Ok(vectors) => {
                &&& vectors@.len() == inputs@.len()
                &&& forall|batch: int|
                    0 <= batch && batch * max_batch_size < inputs@.len()
                        ==> #[trigger] batch_answered::<V, E, F>(
                        embed_batch,
                        inputs@,
                        max_batch_size as int,
                        batch,
                        vectors@,
                    )
            },
            Err(BatchError::Failed { batch, start, end, error }) => {
                &&& batch < usize::MAX
                &&& forall|b: int|
                    0 <= b < batch ==> #[trigger] batch_succeeds::<V, E, F>(
                        embed_batch,
                        inputs@,
                        max_batch_size as int,
                        b,
                    )
                &&& start == batch * max_batch_size
                &&& start < inputs@.len()
                &&& end == batch_end(inputs@.len() as int, start as int, max_batch_size as int)
                &&& may_answer(
                    embed_batch,
                    inputs@,
                    max_batch_size as int,
                    batch as int,
                    Err::<Vec<V>, E>(error),
                )
            },
            Err(BatchError::VectorCount { batch, vectors, inputs: expected }) => {
                let start = batch * max_batch_size;
                let end = batch_end(inputs@.len() as int, start, max_batch_size as int);
                &&& batch < usize::MAX
                &&& forall|b: int|
                    0 <= b < batch ==> #[trigger] batch_succeeds::<V, E, F>(
                        embed_batch,
                        inputs@,
                        max_batch_size as int,
                        b,
                    )
                &&& start < inputs@.len()
                &&& expected == end - start
                &&& vectors != expected
                &&& exists|answer: Vec<V>|
                    #[trigger] answer@.len() == vectors && may_answer(
                        embed_batch,
                        inputs@,
                        max_batch_size as int,
                        batch as int,
                        Ok::<Vec<V>, E>(answer),
                    )
            },
        },
{
    let mut vectors: Vec<V> = Vec::new();
    let mut batch: usize = 0;
    let mut start: usize = 0;
    let ghost size = max_batch_size as int;
    let ghost texts = inputs@;
    while start < inputs.len()
        invariant
            start <= inputs.len(),
            inputs@ == texts,
            size == max_batch_size,
            max_batch_size > 0 || inputs@.len() == 0,
            batch <= start,
            start == smaller(batch * size, texts.len() as int),
            vectors@.len() == start,
            forall|slice: &[String], batch: usize, start: usize, end: usize|
                call_requires(embed_batch, (slice, batch, start, end)),
            forall|b: int|
                0 <= b < batch ==> #[trigger] batch_answered::<V, E, F>(
                    embed_batch,
                    texts,
                    size,
                    b,
                    vectors@,
                ),
            forall|b: int|
                0 <= b < batch ==> #[trigger] batch_succeeds::<V, E, F>(embed_batch, texts, size, b),
            forall|b: int| 0 <= b < batch ==> #[trigger] (b * size) < texts.len(),
        decreases inputs.len() - start,
    {
        let end: usize = if max_batch_size < inputs.len() - start {
            start + max_batch_size
        } else {
            inputs.len()
        };
        let slice: &[String] = vstd::slice::slice_subrange(inputs, start, end);
        let answer = embed_batch(slice, batch, start, end);
        proof {
            assert(start == batch * size);
            assert(slice@ == texts.subrange(start as int, end as int));
            assert(may_answer(embed_batch, texts, size, batch as int, answer));
        }
        match answer {
            Ok(answered) => {
                let mut answered: Vec<V> = answered;
                if answered.len() != end - start {
                    return Err(
                        BatchError::VectorCount {
                            batch,
                            vectors: answered.len(),
                            inputs: end - start,
                        },
                    );
                }
                let ghost before = vectors@;
                let ghost given = answered;
                vectors.append(&mut answered);
                proof {
                    assert(given@.len() == end - start);
                    assert(batch_succeeds::<V, E, F>(embed_batch, texts, size, batch as int));
                    assert(vectors@.subrange(start as int, end as int) =~= given@);
                    assert(batch_answered::<V, E, F>(
                        embed_batch,
                        texts,
                        size,
                        batch as int,
                        vectors@,
                    ));
                    assert forall|b: int| 0 <= b < batch implies #[trigger] batch_answered::<
                        V,
                        E,
                        F,
                    >(embed_batch, texts, size, b, vectors@) by {
                        let s = b * size;
                        let e = batch_end(texts.len() as int, s, size);
                        assert(batch_answered::<V, E, F>(embed_batch, texts, size, b, before));
                        assert(s + size <= batch * size) by (nonlinear_arith)
                            requires
                                s == b * size,
                                b + 1 <= batch,
                                size >= 0,
                        ;
                        assert(vectors@.subrange(s, e) =~= before.subrange(s, e));
                    }
                }
            },
            Err(error) => {
                return Err(BatchError::Failed { batch, start, end, error });
            },
        }
        proof {
            assert((batch + 1) * size == batch * size + size) by (nonlinear_arith);
        }
        batch = batch + 1;
        start = end;
    }
    proof {
        assert forall|b: int|
            0 <= b && b * max_batch_size < inputs@.len() implies #[trigger] batch_answered::<V, E, F>(
            embed_batch,
            inputs@,
            max_batch_size as int,
            b,
            vectors@,
        ) by {
            if b >= batch {
                assert(b * size >= batch * size) by (nonlinear_arith)
                    requires
                        b >= batch,
                        size >= 0,
                ;
            }
        }
    }
    Ok(vectors)
}

/// The bits of the single precision number nearest to `scaled / 10000 / 2^k`, for a
/// positive `scaled` below `2^24 * 10000`: the exponent, and the significand without its
/// leading bit.
pub open spec fn single_bits(scaled: nat, k: nat) -> int
    decreases 0x100_0000 * 10000 - scaled,
    when scaled > 0
{
    if scaled < 0x80_0000 * 10000 {
        single_bits(2 * scaled, k + 1)
    } else {
        let significand = round_ties_even(scaled, 10000);
        if significand == 0x100_0000 {
            (151 - k) * 0x80_0000
        } else {
            (150 - k) * 0x80_0000 + (significand - 0x80_0000)
        }
    }
}

/// The bits of the single precision number nearest to `n / 10000`.
pub open spec fn spec_ratio_bits(n: nat) -> int {
    if n == 0 {
        0
    } else {
        single_bits(n, 0)
    }
}

/// The bits of a number below one, as `single_bits` finds them.
proof fn lemma_single_bits(scaled: nat, k: nat)
    requires
        0 < scaled < 0x100_0000 * 10000,
        k <= 37,
        pow2(k) <= scaled <= 9999 * pow2(k),
    ensures
        0 <= single_bits(scaled, k) < 0x3f80_0000,
    decreases 0x100_0000 * 10000 - scaled,
{
    lemma2_to64();
    lemma2_to64_rest();
    if scaled < 0x80_0000 * 10000 {
        lemma_pow2_adds(k, 1);
        if k == 37 {
            assert(pow2(37) > 0x80_0000 * 10000);
        }
        lemma_single_bits(2 * scaled, k + 1);
    } else {
        if k < 23 {
            lemma_pow2_strictly_increases(k, 23);
        }
        assert(k >= 24);
    }
}

/// Each value of a vector is a number from zero on, and below one. Numbers from zero on
/// are in the order of their bits, and these are below the bits of one.
pub proof fn lemma_values_below_one(n: nat)
    requires
        n < 10000,
    ensures
        0 <= spec_ratio_bits(n) < 0x3f80_0000,
{
    if n > 0 {
        lemma2_to64();
        lemma_single_bits(n, 0);
    }
}

/// Each value of the vector of a text lies from zero on, and below one.
pub proof fn lemma_vector_below_one(
    model: Seq<char>,
    input: Seq<char>,
    dimensions: nat,
    i: int,
)
    requires
        0 <= i < dimensions,
    ensures
        hashed_vector(model, input, dimensions).len() == dimensions,
        hashed_vector(model, input, dimensions)[i] < 0x3f80_0000,
{
    let state = hashed(encode_utf8(model) + encode_utf8(input));
    lemma_values_below_one((hashed_on(state, (i + 1) as nat) % 10000) as nat);
}

/// The bits of the single precision number nearest to `n / 10000`.
fn ratio_bits(n: u64) -> (bits: u32)
    requires
        n < 10000,
    ensures
        bits == spec_ratio_bits(n as nat),
{
    if n == 0 {
        return 0;
    }
    let mut scaled: u64 = n;
    let mut k: u64 = 0;
    proof {
        lemma2_to64();
    }
    while scaled < 83886080000
        invariant
            0 < n < 10000,
            pow2(k as nat) <= scaled < 167772160000,
            pow2(k as nat) > 0,
            k <= 37,
            single_bits(scaled as nat, k as nat) == spec_ratio_bits(n as nat),
        decreases 167772160000 - scaled,
    {
        proof {
            lemma_pow2_adds(k as nat, 1);
            lemma2_to64();
            lemma2_to64_rest();
            if k >= 37 {
                assert(pow2(37) <= scaled);
            }
        }
        scaled = 2 * scaled;
        k = k + 1;
    }
    let q: u64 = scaled / 10000;
    let r: u64 = scaled % 10000;
    let significand: u64 = if 2 * r < 10000 || (2 * r == 10000 && q % 2 == 0) { q } else { q + 1 };
    if significand == 0x100_0000 {
        (151 - k as u32) * 0x80_0000
    } else {
        (150 - k as u32) * 0x80_0000 + (significand - 0x80_0000) as u32
    }
}

/// One step of the hash that vectors are made of.
pub open spec fn mixed(state: u64, value: u64) -> u64 {
    (state ^ value).wrapping_mul(0x100000001b3)
}

/// The hash of bytes.
pub open spec fn hashed(bytes: Seq<u8>) -> u64
    decreases bytes.len(),
{
    if bytes.len() == 0 {
        0xcbf29ce484222325
    } else {
        mixed(hashed(bytes.drop_last()), bytes.last() as u64)
    }
}

/// The hash after the first `n` values of a vector were made.
pub open spec fn hashed_on(state: u64, n: nat) -> u64
    decreases n,
{
    if n == 0 {
        state
    } else {
        mixed(hashed_on(state, (n - 1) as nat), (n - 1) as u64)
    }
}

/// The vector of a text for a model: the hash of both, carried on for each value, and
/// the last four digits of it as a fraction.
pub open spec fn hashed_vector(model: Seq<char>, input: Seq<char>, dimensions: nat) -> Seq<u32> {
    let state = hashed(encode_utf8(model) + encode_utf8(input));
    Seq::new(
        dimensions,
        |i: int| spec_ratio_bits((hashed_on(state, (i + 1) as nat) % 10000) as nat) as u32,
    )
}

/// Answers by itself, the same every time: for trials.
#[derive(Clone, Debug, Default)]
pub struct DeterministicEmbeddingClient {
    pub failure_trigger: Option<String>,
}

impl DeterministicEmbeddingClient {
    /// A client that always answers.
    pub fn new() -> (client: DeterministicEmbeddingClient)
        ensures
            client.failure_trigger is None,
    {
        DeterministicEmbeddingClient { failure_trigger: None }
    }

    /// A client that fails where a text contains `needle`.
    pub fn fail_on_input(needle: &str) -> (client: DeterministicEmbeddingClient)
        ensures
            client.failure_trigger matches Some(trigger) && trigger@ == needle@,
    {
        DeterministicEmbeddingClient { failure_trigger: Some(needle.to_owned()) }
    }

    /// Whether the client fails on these texts.
    pub open spec fn fails_on(&self, inputs: Seq<String>) -> bool {
        self.failure_trigger matches Some(trigger) && exists|i: int|
            0 <= i < inputs.len() && contains_text(#[trigger] inputs[i]@, trigger@)
    }

    fn is_triggered(&self, inputs: &[String]) -> (yes: bool)
        ensures
            yes == self.fails_on(inputs@),
    {
        match &self.failure_trigger {
            Some(trigger) => {
                let needle: Vec<char> = chars_of(trigger.as_str());
                let mut i: usize = 0;
                while i < inputs.len()
                    invariant
                        i <= inputs.len(),
                        needle@ == trigger@,
                        self.failure_trigger == Some(*trigger),
                        forall|j: int|
                            0 <= j < i ==> !contains_text(#[trigger] inputs@[j]@, trigger@),
                    decreases inputs.len() - i,
                {
                    let text: Vec<char> = chars_of(inputs[i].as_str());
                    if contains_chars(text.as_slice(), needle.as_slice()) {
                        proof {
                            assert(contains_text(inputs@[i as int]@, trigger@));
                        }
                        return true;
                    }
                    i = i + 1;
                }
                false
            },
            None => false,
        }
    }

    /// What the client answers: one vector for each text, made of the hash of the model's
    /// name and the text, or why there is none. It fails where a text triggers it, and
    /// where the model's dimensions are no size.
    pub open spec fn answers(
        &self,
        model: ModelView,
        inputs: Seq<String>,
        result: Result<Vec<Vec<u32>>, EmbeddingError>,
    ) -> bool {
        match result {
            Ok(vectors) => {
                &&& !self.fails_on(inputs)
                &&& 0 <= model.dimensions <= usize::MAX
                &&& vectors@.len() == inputs.len()
                &&& forall|i: int|
                    0 <= i < inputs.len() ==> (#[trigger] vectors@[i])@ == hashed_vector(
                        model.name,
                        inputs[i]@,
                        model.dimensions as nat,
                    )
            },
            Err(error) => {
                &&& error.retry_after is None
                &&& if self.fails_on(inputs) {
                    error.message@
                        == "deterministic embedding failure triggered by input containing '"@
                        + self.failure_trigger.unwrap()@ + "'"@
                } else {
                    !(0 <= model.dimensions <= usize::MAX) && error.message@
                        == "embedding dimensions must fit into usize"@
                }
            },
        }
    }

    /// One vector for each text, made of the hash of the model's name and the text.
    pub fn vectors(&self, model: &EmbeddingModel, inputs: &[String]) -> (result: Result<
        Vec<Vec<u32>>,
        EmbeddingError,
    >)
        ensures
            self.answers(model@, inputs@, result),
    {
        if self.is_triggered(inputs) {
            let trigger: String = match &self.failure_trigger {
                Some(trigger) => trigger.clone(),
                None => String::new(),
            };
            return Err(
                EmbeddingError::permanent(
                    String::from_str(
                        "deterministic embedding failure triggered by input containing '",
                    ).concat(trigger.as_str()).concat("'"),
                ),
            );
        }
        if model.dimensions < 0 || model.dimensions as u64 > usize::MAX as u64 {
            return Err(
                EmbeddingError::permanent(
                    String::from_str("embedding dimensions must fit into usize"),
                ),
            );
        }
        let dimensions: usize = model.dimensions as usize;
        let mut vectors: Vec<Vec<u32>> = Vec::new();
        let mut i: usize = 0;
        while i < inputs.len()
            invariant
                i <= inputs.len(),
                dimensions == model.dimensions,
                vectors@.len() == i,
                forall|j: int|
                    0 <= j < i ==> (#[trigger] vectors@[j])@ == hashed_vector(
                        model.name@,
                        inputs@[j]@,
                        dimensions as nat,
                    ),
            decreases inputs.len() - i,
        {
            vectors.push(text_vector(model.name.as_str(), inputs[i].as_str(), dimensions));
            i = i + 1;
        }
        Ok(vectors)
    }
}

fn mix(state: u64, bytes: &[u8], Ghost(before): Ghost<Seq<u8>>) -> (mixed_in: u64)
    requires
        state == hashed(before),
    ensures
        mixed_in == hashed(before + bytes@),
{
    let mut state: u64 = state;
    let mut i: usize = 0;
    proof {
        assert(before + bytes@.take(0) =~= before);
    }
    while i < bytes.len()
        invariant
            i <= bytes.len(),
            state == hashed(before + bytes@.take(i as int)),
        decreases bytes.len() - i,
    {
        proof {
            let next = before + bytes@.take(i + 1);
            assert(next.drop_last() =~= before + bytes@.take(i as int));
            assert(next.last() == bytes@[i as int]);
        }
        state = (state ^ (bytes[i] as u64)).wrapping_mul(0x100000001b3);
        i = i + 1;
    }
    proof {
        assert(bytes@.take(i as int) =~= bytes@);
    }
    state
}

fn text_vector(model: &str, input: &str, dimensions: usize) -> (vector: Vec<u32>)
    ensures
        vector@ == hashed_vector(model@, input@, dimensions as nat),
{
    proof {
        assert(Seq::<u8>::empty() + encode_utf8(model@) =~= encode_utf8(model@));
    }
    let named: u64 = mix(0xcbf29ce484222325, model.as_bytes(), Ghost(Seq::empty()));
    let mut state: u64 = mix(named, input.as_bytes(), Ghost(encode_utf8(model@)));
    let ghost start = state;
    let ghost expected = hashed_vector(model@, input@, dimensions as nat);
    let mut vector: Vec<u32> = Vec::new();
    let mut index: usize = 0;
    while index < dimensions
        invariant
            index <= dimensions,
            start == hashed(encode_utf8(model@) + encode_utf8(input@)),
            expected == hashed_vector(model@, input@, dimensions as nat),
            state == hashed_on(start, index as nat),
            vector@.len() == index,
            forall|j: int| 0 <= j < index ==> #[trigger] vector@[j] == expected[j],
        decreases dimensions - index,
    {
        state = (state ^ (index as u64)).wrapping_mul(0x100000001b3);
        vector.push(ratio_bits(state % 10000));
        index = index + 1;
    }
    proof {
        assert(vector@ =~= expected);
    }
    vector
}

/// The client fails exactly where a text contains its trigger, for any model whose
/// dimensions are a size; and all texts are answered as any part of them is: the answer
/// for two lists, one after the other, is the answer for the first and then that for
/// the second. So the same texts are answered the same every time.
pub proof fn lemma_answers_add_up(
    client: DeterministicEmbeddingClient,
    model: ModelView,
    first: Seq<String>,
    second: Seq<String>,
    of_first: Result<Vec<Vec<u32>>, EmbeddingError>,
    of_second: Result<Vec<Vec<u32>>, EmbeddingError>,
    of_both: Result<Vec<Vec<u32>>, EmbeddingError>,
)
    requires
        0 <= model.dimensions <= usize::MAX,
        client.answers(model, first, of_first),
        client.answers(model, second, of_second),
        client.answers(model, first + second, of_both),
    ensures
        of_both is Err <==> client.fails_on(first + second),
        of_both is Ok <==> of_first is Ok && of_second is Ok,
        of_both is Ok ==> vectors_view(of_both->Ok_0@) == vectors_view(of_first->Ok_0@)
            + vectors_view(of_second->Ok_0@),
{
    let both = first + second;
    if let Some(trigger) = client.failure_trigger {
        if client.fails_on(first) {
            let i = choose|i: int|
                0 <= i < first.len() && contains_text(#[trigger] first[i]@, trigger@);
            assert(both[i] == first[i]);
        }
        if client.fails_on(second) {
            let i = choose|i: int|
                0 <= i < second.len() && contains_text(#[trigger] second[i]@, trigger@);
            assert(both[first.len() + i] == second[i]);
        }
        if client.fails_on(both) {
            let i = choose|i: int|
                0 <= i < both.len() && contains_text(#[trigger] both[i]@, trigger@);
            if i < first.len() {
                assert(first[i] == both[i]);
            } else {
                assert(second[i - first.len()] == both[i]);
            }
        }
    }
    if of_both is Ok {
        assert(vectors_view(of_both->Ok_0@) =~= vectors_view(of_first->Ok_0@) + vectors_view(
            of_second->Ok_0@,
        ));
    }
}

impl EmbeddingClient for DeterministicEmbeddingClient {
    fn embed(&self, model: &EmbeddingModel, inputs: &[String]) -> (vectors: Result<
        Vec<Vec<u32>>,
        EmbeddingError,
    >)
        ensures
            self.answers(model@, inputs@, vectors),
    {
        self.vectors(model, inputs)
    }
}

/// What [`without_slashes`] leaves: the text up to where it has only slashes, and no slash
/// at its end.
pub proof fn lemma_without_slashes(s: Seq<char>)
    ensures
        ({
            let kept = without_slashes(s);
            &&& kept.len() <= s.len()
            &&& kept == s.take(kept.len() as int)
            &&& forall|i: int| kept.len() <= i < s.len() ==> #[trigger] s[i] == '/'
            &&& kept.len() > 0 ==> kept.last() != '/'
        }),
    decreases s.len(),
{
    if s.len() > 0 && s.last() == '/' {
        let head = s.drop_last();
        lemma_without_slashes(head);
        let kept = without_slashes(s);
        assert(head.take(kept.len() as int) =~= s.take(kept.len() as int));
        assert forall|i: int| kept.len() <= i < s.len() implies #[trigger] s[i] == '/' by {
            if i < head.len() {
                assert(head[i] == s[i]);
            }
        }
    } else {
        assert(s.take(s.len() as int) =~= s);
    }
}

/// An answer that numbers its vectors gives each text its own: where the places of the
/// items are all different and start at zero, the vector of the text `items[i].index` is
/// that of the item `i`.
pub proof fn lemma_own_vector(items: Seq<ItemView>, i: int)
    requires
        0 <= i < items.len(),
        forall|j: int| 0 <= j < items.len() ==> (#[trigger] items[j]).index < items.len(),
        forall|j: int, k: int|
            0 <= j < k < items.len() ==> (#[trigger] items[j]).index != (#[trigger] items[k]).index,
    ensures
        by_index(items)[items[i].index as int] == items[i],
{
    broadcast use vstd::seq_lib::group_to_multiset_ensures;

    lemma_by_index(items);
    let sorted = by_index(items);
    let n = items.len() as int;
    assert forall|x: int, y: int| 0 <= x < n && 0 <= y < n && x != y implies items[x] != items[y] by {
        if x < y {
            assert(items[x].index != items[y].index);
        } else {
            assert(items[y].index != items[x].index);
        }
    }
    items.lemma_multiset_has_no_duplicates();
    sorted.lemma_multiset_has_no_duplicates_conv();
    assert forall|j: int| 0 <= j < n implies items.contains(#[trigger] sorted[j]) by {
        assert(sorted.to_multiset().count(sorted[j]) > 0);
    }
    assert forall|j: int, k: int| 0 <= j < k < n implies (#[trigger] sorted[j]).index < (
    #[trigger] sorted[k]).index by {
        let a = choose|a: int| 0 <= a < n && items[a] == sorted[j];
        let b = choose|b: int| 0 <= b < n && items[b] == sorted[k];
        assert(items.contains(sorted[j]) && items.contains(sorted[k]));
        assert(sorted[j] != sorted[k]);
        assert(a != b);
        if a < b {
            assert(items[a].index != items[b].index);
        } else {
            assert(items[b].index != items[a].index);
        }
        assert(sorted[j].index <= sorted[k].index);
    }
    assert(sorted.contains(items[i])) by {
        assert(items.to_multiset().count(items[i]) > 0);
    }
    let k = choose|k: int| 0 <= k < n && sorted[k] == items[i];
    assert forall|j: int| 0 <= j < n implies (#[trigger] sorted[j]).index < n by {
        assert(items.contains(sorted[j]));
    }
    lemma_places_are(sorted, k);
}

/// Places that grow, from zero on and below their number, are all places in turn.
proof fn lemma_places_are(items: Seq<ItemView>, k: int)
    requires
        0 <= k < items.len(),
        forall|j: int| 0 <= j < items.len() ==> (#[trigger] items[j]).index < items.len(),
        forall|j: int, m: int|
            0 <= j < m < items.len() ==> (#[trigger] items[j]).index < (#[trigger] items[m]).index,
    ensures
        items[k].index == k,
{
    lemma_places_up(items, k);
    lemma_places_down(items, k);
}

proof fn lemma_places_up(items: Seq<ItemView>, k: int)
    requires
        0 <= k < items.len(),
        forall|j: int, m: int|
            0 <= j < m < items.len() ==> (#[trigger] items[j]).index < (#[trigger] items[m]).index,
    ensures
        items[k].index >= k,
    decreases k,
{
    if k > 0 {
        lemma_places_up(items, k - 1);
        assert(items[k - 1].index < items[k].index);
    }
}

proof fn lemma_places_down(items: Seq<ItemView>, k: int)
    requires
        0 <= k < items.len(),
        forall|j: int| 0 <= j < items.len() ==> (#[trigger] items[j]).index < items.len(),
        forall|j: int, m: int|
            0 <= j < m < items.len() ==> (#[trigger] items[j]).index < (#[trigger] items[m]).index,
    ensures
        items[k].index <= k,
    decreases items.len() - k,
{
    if k + 1 < items.len() {
        lemma_places_down(items, k + 1);
        assert(items[k].index < items[k + 1].index);
    }
}

/// Whether the bits of a single precision number stand for the number that is nearest to
/// `scaled / 10000 / 2^k`: as its exponent tells, its significand is not farther from that
/// value than half of one.
pub open spec fn nearest_single(bits: int, scaled: int, k: int) -> bool {
    let m = bits % 0x80_0000 + 0x80_0000;
    let places = 150 - bits / 0x80_0000 - k;
    if places >= 0 {
        -10000 <= 2 * (m * 10000 - scaled * pow2(places as nat)) <= 10000
    } else {
        places == -1 && -10000 <= 2 * (2 * m * 10000 - scaled) <= 10000
    }
}

proof fn lemma_single_rounds(scaled: nat, k: nat)
    requires
        0 < scaled < 0x100_0000 * 10000,
    ensures
        nearest_single(single_bits(scaled, k), scaled as int, k as int),
    decreases 0x100_0000 * 10000 - scaled,
{
    lemma2_to64();
    if scaled < 0x80_0000 * 10000 {
        lemma_single_rounds(2 * scaled, k + 1);
        let bits = single_bits(scaled, k);
        let places = 150 - bits / 0x80_0000 - k;
        if places >= 1 {
            lemma_pow2_adds((places - 1) as nat, 1);
            let p = pow2((places - 1) as nat) as int;
            assert(pow2(places as nat) == 2 * p);
            assert((2 * scaled) * p == scaled * (2 * p)) by (nonlinear_arith);
        } else {
            assert(scaled * 1 == scaled);
        }
    } else {
        let significand = round_ties_even(scaled, 10000) as int;
        assert(scaled * 1 == scaled);
    }
}

/// Each value of a vector is the single precision number that is nearest to its fraction.
pub proof fn lemma_ratio_is_nearest(n: nat)
    requires
        0 < n < 10000,
    ensures
        nearest_single(spec_ratio_bits(n), n as int, 0),
        spec_ratio_bits(0) == 0,
{
    lemma_single_rounds(n, 0);
}

/// How the hash that vectors are made of goes on: it starts from its basis, and each byte,
/// and after all bytes each place of the vector, is mixed in and the result multiplied by
/// its prime, modulo `2^64`.
pub proof fn lemma_hash_steps(bytes: Seq<u8>, b: u8, state: u64, n: nat)
    requires
        n <= u64::MAX,
    ensures
        hashed(seq![]) == 14695981039346656037,
        hashed(bytes.push(b)) == ((hashed(bytes) ^ (b as u64)) * 1099511628211)
            % 18446744073709551616,
        hashed_on(state, 0) == state,
        hashed_on(state, n + 1) == ((hashed_on(state, n) ^ (n as u64)) * 1099511628211)
            % 18446744073709551616,
{
    assert(bytes.push(b).drop_last() =~= bytes);
}

/// The vector of a text depends on its model and its text alone, and on both together: each
/// of its values is the fraction of ten thousand that the hash gives for its place.
pub proof fn lemma_hashed_vector(model: Seq<char>, input: Seq<char>, dimensions: nat, i: int)
    requires
        0 <= i < dimensions,
    ensures
        ({
            let n = hashed_on(
                hashed(encode_utf8(model) + encode_utf8(input)),
                (i + 1) as nat,
            ) % 10000;
            let bits = hashed_vector(model, input, dimensions)[i];
            &&& n == 0 ==> bits == 0
            &&& n > 0 ==> nearest_single(bits as int, n as int, 0)
        }),
{
    let n = hashed_on(hashed(encode_utf8(model) + encode_utf8(input)), (i + 1) as nat) % 10000;
    lemma_values_below_one(n as nat);
    if n > 0 {
        lemma_ratio_is_nearest(n as nat);
    }
}

/// A batch starts where the one before it ended, and holds as many texts as a batch may,
/// unless it is the last one, which holds the rest.
pub proof fn lemma_batch_end(inputs: int, start: int, size: int)
    requires
        0 <= start < inputs,
        size > 0,
    ensures
        start < batch_end(inputs, start, size) <= inputs,
        batch_end(inputs, start, size) == start + size || (batch_end(inputs, start, size) == inputs
            && inputs - start < size),
{
}

} // verus!
