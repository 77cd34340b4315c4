use ask::embeddings::{DeterministicEmbeddingClient, EmbeddingClient};
use ask::filepath_search::{search_by_filepath, search_documents_by_filepath};
use ask::models::{Document, EmbeddingModel};
use ask::repository::upsert_document;
use ask::search::{embed_failure, no_vectors, query_vector, validate_search};
use ask::store::Store;
use ask::types::DocCategory;

fn insert_document(store: &mut Store, path: &str) -> i64 {
    let document = Document {
        id: 0,
        filepath: path.to_string(),
        file_type: "txt".to_string(),
        doc_category: DocCategory::Resource,
        file_modified_at: 1,
        file_size: 1,
        updated_at: 1,
    };
    upsert_document(store, &document).unwrap().0
}

fn paths(store: &Store, query: &str, limit: usize) -> Vec<String> {
    search_documents_by_filepath(store, query, limit)
        .into_iter()
        .map(|result| result.filepath)
        .collect()
}

#[test]
fn filepath_fuzzy_search_returns_results_without_embedding_provider() {
    let mut store = Store::new();
    insert_document(&mut store, "/r/MyImplementationTests.cs");
    insert_document(&mut store, "/r/MyImplementation.cs");
    assert_eq!(
        paths(&store, "MyImplementation", 2),
        vec!["/r/MyImplementation.cs", "/r/MyImplementationTests.cs"]
    );
}

#[test]
fn filepath_fuzzy_search_works_without_active_model_state() {
    let mut store = Store::new();
    insert_document(&mut store, "/r/search-no-model.txt");
    assert_eq!(paths(&store, "search-no-model", 1), vec!["/r/search-no-model.txt"]);
}

#[test]
fn filepath_fuzzy_search_ignores_include_location() {
    let mut store = Store::new();
    insert_document(&mut store, "/r/search-location-ignore.txt");
    let search = validate_search("location-ignore", Some(1), Some(true)).unwrap();
    assert!(search.include_location);
    let found = search_by_filepath(&store, &search);
    assert_eq!(found.len(), 1);
    assert_eq!(found[0].filepath, "/r/search-location-ignore.txt");
    assert_eq!(found[0].byte_start, None);
    assert_eq!(found[0].byte_end, None);
    assert_eq!(
        found[0].match_score,
        search_documents_by_filepath(&store, "location-ignore", 1)[0].match_score
    );
}

#[test]
fn filepath_fuzzy_search_empty_index_returns_200_with_empty_results() {
    assert!(search_documents_by_filepath(&Store::new(), "nothing-here", 5).is_empty());
}

#[test]
fn search_provider_failure_returns_502() {
    let model = EmbeddingModel {
        id: 1,
        name: "search-provider-fail".to_string(),
        dimensions: 4,
        chunk_size: 512,
        chunk_overlap: 0,
        created_at: 1,
    };
    let client = DeterministicEmbeddingClient::fail_on_input("fail-search");
    let answer = client.embed(&model, &["please fail-search now".to_string()]);
    let refused = query_vector(answer).unwrap_err();
    assert_eq!(refused.status, 502);
    assert_eq!(refused.code, "bad_gateway");
    assert!(refused
        .message
        .starts_with("failed to embed query: deterministic embedding failure"));
    assert!(refused.message.contains(r#""mode":"filepath_fuzzy""#));
    assert_eq!(refused, embed_failure(
        "deterministic embedding failure triggered by input containing 'fail-search'"
    ));
}

#[test]
fn searches_take_the_first_vector() {
    assert_eq!(query_vector(Ok(vec![vec![1, 2], vec![3]])), Ok(vec![1, 2]));
    let refused = query_vector(Ok(Vec::new())).unwrap_err();
    assert_eq!(refused, no_vectors());
    assert_eq!(refused.status, 502);
    assert_eq!(refused.code, "bad_gateway");
    assert_eq!(refused.message, "embedding provider returned no vectors");
}

#[test]
fn better_paths_come_first() {
    let mut store = Store::new();
    for path in [
        "/x/l-o-n-g.md",
        "/long/other.md",
        "C:\\docs\\A-LONG-name.md",
        "/b/long.md",
        "/a/long.md",
        "/none.md",
    ] {
        insert_document(&mut store, path);
    }
    assert_eq!(
        paths(&store, "Long", 10),
        vec![
            "/a/long.md",
            "/b/long.md",
            "C:\\docs\\A-LONG-name.md",
            "/long/other.md",
            "/x/l-o-n-g.md",
        ]
    );
    assert_eq!(paths(&store, "long", 2), vec!["/a/long.md", "/b/long.md"]);
    assert_eq!(paths(&store, "docs/a-", 2), vec!["C:\\docs\\A-LONG-name.md"]);
    assert!(paths(&store, "gnol", 10).is_empty());

    let scores: Vec<f64> = search_documents_by_filepath(&store, "Long", 10)
        .into_iter()
        .map(|result| f64::from_bits(result.match_score))
        .collect();
    assert_eq!(
        scores,
        vec![
            (5.0 + 2.0 * 8.0) / 24.0,
            (5.0 + 2.0 * 8.0) / 24.0,
            (5.0 + 2.0 * 15.0) / 45.0,
            (5.0 + 15.0) / 45.0,
            5.0 / 42.0,
        ]
    );
}
