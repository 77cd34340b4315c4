use std::sync::{Arc, Mutex};

use ask::config::EmbeddingProvider;
use ask::embed_document::serialize_embedding;
use ask::embeddings::{
    embed_inputs_in_batches, parse_response_vectors, refused_message, BatchError,
    DeterministicEmbeddingClient, EmbeddingClient, EmbeddingError, EmbeddingResponseItem,
    EmptyBatches, HttpEmbeddingClient, ResponseError, TRANSIENT_RETRY_DELAY_SECS,
};
use ask::models::EmbeddingModel;

fn model() -> EmbeddingModel {
    EmbeddingModel {
        id: 1,
        name: "test".to_string(),
        dimensions: 4,
        chunk_size: 16,
        chunk_overlap: 0,
        created_at: 1,
    }
}

#[test]
fn deterministic_client_is_stable() {
    let client = DeterministicEmbeddingClient::new();
    let inputs = vec!["alpha".to_string(), "beta".to_string()];

    let first = client.embed(&model(), &inputs).unwrap();
    let second = client.embed(&model(), &inputs).unwrap();

    assert_eq!(first, second);
    assert_eq!(first.len(), 2);
    assert_eq!(first[0].len(), 4);
}

#[test]
fn deterministic_client_answers_each_text_by_itself() {
    let client = DeterministicEmbeddingClient::new();
    let inputs = ["alpha".to_string(), "".to_string(), "beta".to_string()];

    let mut parts = client.embed(&model(), &inputs[..1]).unwrap();
    parts.extend(client.embed(&model(), &inputs[1..]).unwrap());
    let all = client.embed(&model(), &inputs).unwrap();

    assert_eq!(all, parts);
    for value in all.iter().flatten() {
        assert!((0.0..1.0).contains(&f32::from_bits(*value)));
    }
}

#[test]
fn deterministic_client_can_fail_on_matching_input() {
    let client = DeterministicEmbeddingClient::fail_on_input("fail-me");
    let err = client
        .embed(
            &model(),
            &["ok".to_string(), "please fail-me now".to_string()],
        )
        .unwrap_err();

    assert!(err.message.contains("deterministic embedding failure"));
    assert_eq!(
        err.message,
        "deterministic embedding failure triggered by input containing 'fail-me'"
    );
    assert!(client.embed(&model(), &["fail-m".to_string()]).is_ok());
    assert!(client.embed(&model(), &["fail-mefail-me".to_string()]).is_err());
}

/// The vector of a text, in floating point.
fn reference_vector(model: &EmbeddingModel, input: &str) -> Vec<f32> {
    let mut state = 0xcbf29ce484222325u64;
    for byte in model.name.bytes().chain(input.bytes()) {
        state ^= u64::from(byte);
        state = state.wrapping_mul(0x100000001b3);
    }
    let mut vector = Vec::new();
    for index in 0..model.dimensions as usize {
        state ^= index as u64;
        state = state.wrapping_mul(0x100000001b3);
        vector.push((state % 10_000) as f32 / 10_000.0);
    }
    vector
}

#[test]
fn deterministic_vectors_are_those_of_floating_point() {
    let model = EmbeddingModel {
        dimensions: 20_000,
        ..model()
    };
    let client = DeterministicEmbeddingClient::new();
    for input in ["", "alpha", "gr\u{fc}\u{df}e", "\u{1f600}"] {
        let vectors = client.embed(&model, &[input.to_string()]).unwrap();
        let values: Vec<f32> = vectors[0].iter().map(|bits| f32::from_bits(*bits)).collect();
        assert_eq!(values, reference_vector(&model, input));
    }
}

#[test]
fn deterministic_client_needs_dimensions() {
    let model = EmbeddingModel {
        dimensions: -1,
        ..model()
    };
    let err = DeterministicEmbeddingClient::new()
        .embed(&model, &[])
        .unwrap_err();
    assert_eq!(err.message, "embedding dimensions must fit into usize");
    assert_eq!(err.retry_after_secs(), None);
}

#[test]
fn batch_helper_keeps_exact_limit_in_single_batch() {
    let calls = Arc::new(Mutex::new(Vec::new()));
    let inputs = (0..32).map(|i| format!("input-{i}")).collect::<Vec<_>>();
    let calls_for_closure = Arc::clone(&calls);

    let vectors = embed_inputs_in_batches(
        &inputs,
        32,
        move |batch: &[String], _, start, end| -> Result<Vec<Vec<f32>>, String> {
            calls_for_closure
                .lock()
                .unwrap()
                .push((batch.len(), start, end));
            Ok(batch
                .iter()
                .map(|value| {
                    vec![value
                        .strip_prefix("input-")
                        .unwrap()
                        .parse::<f32>()
                        .unwrap()]
                })
                .collect())
        },
    )
    .unwrap();

    assert_eq!(*calls.lock().unwrap(), vec![(32, 0, 32)]);
    assert_eq!(vectors.len(), 32);
    assert_eq!(vectors[0], vec![0.0]);
    assert_eq!(vectors[31], vec![31.0]);
}

#[test]
fn batch_helper_splits_over_limit_and_preserves_order() {
    let calls = Arc::new(Mutex::new(Vec::new()));
    let inputs = (0..53).map(|i| format!("input-{i}")).collect::<Vec<_>>();
    let calls_for_closure = Arc::clone(&calls);

    let vectors = embed_inputs_in_batches(
        &inputs,
        32,
        move |batch: &[String], _, start, end| -> Result<Vec<Vec<f32>>, String> {
            calls_for_closure
                .lock()
                .unwrap()
                .push((batch.len(), start, end));
            Ok(batch
                .iter()
                .map(|value| {
                    vec![value
                        .strip_prefix("input-")
                        .unwrap()
                        .parse::<f32>()
                        .unwrap()]
                })
                .collect())
        },
    )
    .unwrap();

    assert_eq!(*calls.lock().unwrap(), vec![(32, 0, 32), (21, 32, 53)]);
    assert_eq!(vectors.len(), 53);
    assert_eq!(vectors[0], vec![0.0]);
    assert_eq!(vectors[31], vec![31.0]);
    assert_eq!(vectors[32], vec![32.0]);
    assert_eq!(vectors[52], vec![52.0]);
}

#[test]
fn batch_helper_adds_context_on_subrequest_failure() {
    let inputs = (0..33).map(|i| format!("input-{i}")).collect::<Vec<_>>();

    let err = embed_inputs_in_batches(&inputs, 32, |batch: &[String], batch_index, _, _| {
        if batch_index == 1 {
            Err("synthetic provider failure".to_string())
        } else {
            Ok(batch.iter().map(|_| vec![1.0_f32]).collect())
        }
    })
    .unwrap_err();

    assert!(err
        .message()
        .contains("embedding batch 2 failed for input range [32..33)"));
    assert!(matches!(
        err,
        BatchError::Failed { error, .. } if error.contains("synthetic provider failure")
    ));
}

#[test]
fn batch_helper_counts_vectors() {
    let inputs = vec!["a".to_string(), "b".to_string()];
    let err = embed_inputs_in_batches(&inputs, 5, |_: &[String], _, _, _| {
        Ok::<Vec<Vec<f32>>, String>(vec![vec![1.0]])
    })
    .unwrap_err();
    assert_eq!(err.message(), "embedding batch 1 returned 1 vectors for 2 inputs");

    let none = embed_inputs_in_batches(&[], 0, |_: &[String], _, _, _| {
        Err::<Vec<Vec<f32>>, String>("never called".to_string())
    });
    assert_eq!(none, Ok(Vec::new()));
}

fn item(index: usize, embedding: Vec<u32>) -> EmbeddingResponseItem {
    EmbeddingResponseItem { index, embedding }
}

#[test]
fn answers_are_put_in_order() {
    let model = EmbeddingModel {
        dimensions: 1,
        ..model()
    };
    let items = vec![item(2, vec![20]), item(0, vec![0]), item(1, vec![10]), item(1, vec![11])];
    assert_eq!(
        parse_response_vectors(items, &model, 4),
        Ok(vec![vec![0], vec![10], vec![11], vec![20]])
    );
}

#[test]
fn answers_are_checked() {
    let model = EmbeddingModel {
        dimensions: 2,
        ..model()
    };
    let err = parse_response_vectors(vec![item(0, vec![1, 2])], &model, 2).unwrap_err();
    assert_eq!(err, ResponseError::VectorCount { vectors: 1, inputs: 2 });
    assert_eq!(
        err.message(),
        "embedding provider returned 1 vectors for 2 inputs"
    );

    let items = vec![item(1, vec![1]), item(0, vec![1, 2, 3])];
    let err = parse_response_vectors(items, &model, 2).unwrap_err();
    assert_eq!(
        err.message(),
        "embedding provider returned 3 dimensions for model test (expected 2)"
    );
}

#[test]
fn requests_go_to_the_service() {
    let tei = EmbeddingProvider::Tei {
        base_url: "http://localhost:18080//".to_string(),
    };
    let client = HttpEmbeddingClient::new(tei.clone(), 32).unwrap();
    assert_eq!(client.request_url(), "http://localhost:18080/embeddings");
    assert_eq!(client.bearer_token(), None);

    let open = EmbeddingProvider::OpenAi {
        base_url: "https://api.openai.example/v1".to_string(),
        auth_token: "secret-token".to_string(),
    };
    let client = HttpEmbeddingClient::new(open, 1).unwrap();
    assert_eq!(client.request_url(), "https://api.openai.example/v1/embeddings");
    assert_eq!(client.bearer_token(), Some("secret-token".to_string()));

    assert_eq!(HttpEmbeddingClient::new(tei, 0), Err(EmptyBatches));
    assert_eq!(EmptyBatches.message(), "max_batch_size must be greater than 0");
    assert_eq!(
        refused_message("503 Service Unavailable", " overloaded\n"),
        "embedding provider returned 503 Service Unavailable: overloaded"
    );
}

#[test]
fn errors_say_when_to_try_again() {
    assert_eq!(TRANSIENT_RETRY_DELAY_SECS, 5 * 60);
    let passing = EmbeddingError::retryable("busy".to_string(), TRANSIENT_RETRY_DELAY_SECS);
    assert_eq!(passing.retry_after_secs(), Some(300));
    assert_eq!(passing.message, "busy");
    assert_eq!(
        EmbeddingError::permanent("bad".to_string()).retry_after_secs(),
        None
    );
}

fn bits(values: &[f32]) -> Vec<u32> {
    values.iter().map(|value| value.to_bits()).collect()
}

#[test]
fn worker_serialize_embedding_writes_little_endian_f32_bytes() {
    let bytes = serialize_embedding(&bits(&[1.0, -2.5]));

    assert_eq!(bytes, [0, 0, 128, 63, 0, 0, 32, 192]);
}

#[test]
fn mod_serialize_embedding_writes_little_endian_f32_bytes() {
    let bytes = serialize_embedding(&bits(&[1.0, -2.5]));

    assert_eq!(bytes, [0, 0, 128, 63, 0, 0, 32, 192]);

    let values = [0.1_f32, f32::MAX, -0.0, f32::NAN];
    let expected: Vec<u8> = values.iter().flat_map(|value| value.to_le_bytes()).collect();
    assert_eq!(serialize_embedding(&bits(&values)), expected);
}
