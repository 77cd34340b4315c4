use ask::bootstrap;
use ask::config::{
    load, pool_max_size, ConfigError, EmbeddingProvider, Environment, PoolSizeError,
    RuntimeConfig, BIND_PORT_ENV, DATABASE_POOL_SIZE_ENV, DEFAULT_BIND_HOST, DEFAULT_BIND_PORT,
    DEFAULT_DATABASE_POOL_SIZE, DEFAULT_DATA_DIR, DEFAULT_EMBEDDING_MAX_BATCH_SIZE,
    DEFAULT_RESOURCE_DIR, DEFAULT_TEI_BASE_URL, DEFAULT_WORKER_COUNT, EMBEDDING_AUTH_TOKEN_ENV,
    EMBEDDING_BASE_URL_ENV, EMBEDDING_CHUNK_OVERLAP_ENV, EMBEDDING_CHUNK_SIZE_ENV,
    EMBEDDING_DIMENSIONS_ENV, EMBEDDING_MAX_BATCH_SIZE_ENV, EMBEDDING_MODEL_ENV,
    EMBEDDING_MODE_ENV,
};

fn set(value: &str) -> Option<String> {
    Some(value.to_string())
}

/// An environment with nothing but the name of the model.
fn with_model(name: &str) -> Environment {
    Environment {
        embedding_model: set(name),
        ..Environment::default()
    }
}

#[test]
fn load_uses_defaults_when_optional_env_is_missing() {
    let env = with_model("onnx-community/Qwen3-Embedding-0.6B-ONNX");

    let config = load(&env).expect("config load must succeed");

    assert_eq!(config.data_dir, DEFAULT_DATA_DIR);
    assert_eq!(config.data_display_dir, DEFAULT_DATA_DIR);
    assert_eq!(config.bind_host, DEFAULT_BIND_HOST);
    assert_eq!(config.bind_port, DEFAULT_BIND_PORT);
    assert_eq!(config.bind_address(), "0.0.0.0:3000");
    assert_eq!(config.sqlite_path(), ".data/ask.sqlite3");
    assert_eq!(
        config.embedding_provider,
        EmbeddingProvider::Tei {
            base_url: String::from(DEFAULT_TEI_BASE_URL),
        }
    );
    assert_eq!(
        config.embedding_model,
        "onnx-community/Qwen3-Embedding-0.6B-ONNX"
    );
    assert_eq!(
        config.embedding_max_batch_size,
        DEFAULT_EMBEDDING_MAX_BATCH_SIZE
    );
    assert_eq!(config.embedding_worker_count, DEFAULT_WORKER_COUNT);
    assert_eq!(config.database_pool_size, DEFAULT_DATABASE_POOL_SIZE);
    assert!(config.database_pool_size > DEFAULT_WORKER_COUNT);
    assert_eq!(config.resource_dir, DEFAULT_RESOURCE_DIR);
    assert_eq!(config.resource_display_dir, DEFAULT_RESOURCE_DIR);
}

#[test]
fn config_load_uses_env_overrides_when_present() {
    let env = Environment {
        data_dir: set("custom-data"),
        bind_host: set("127.0.0.1"),
        bind_port: set("4123"),
        embedding_mode: set("tei"),
        embedding_base_url: set("http://127.0.0.1:18080"),
        embedding_max_batch_size: set("64"),
        embedding_worker_count: set("4"),
        database_pool_size: set("9"),
        ..with_model("custom-model")
    };

    let config = load(&env).expect("config load must succeed");

    assert_eq!(config.data_dir, "custom-data");
    assert_eq!(config.data_display_dir, "custom-data");
    assert_eq!(config.bind_host, "127.0.0.1");
    assert_eq!(config.bind_port, 4123);
    assert_eq!(config.bind_address(), "127.0.0.1:4123");
    assert_eq!(config.sqlite_path(), "custom-data/ask.sqlite3");
    assert_eq!(
        config.embedding_provider,
        EmbeddingProvider::Tei {
            base_url: String::from("http://127.0.0.1:18080"),
        }
    );
    assert_eq!(config.embedding_model, "custom-model");
    assert_eq!(config.embedding_max_batch_size, 64);
    assert_eq!(config.embedding_worker_count, 4);
    assert_eq!(config.database_pool_size, 9);

    let bootstrap_env = bootstrap::Environment {
        sqlite_path: set("custom/ask.sqlite3"),
        bind_host: set("127.0.0.1"),
        bind_port: set("4123"),
    };
    let config = bootstrap::load(&bootstrap_env).expect("config load must succeed");
    assert_eq!(config.sqlite_path, "custom/ask.sqlite3");
    assert_eq!(config.bind_host, "127.0.0.1");
    assert_eq!(config.bind_port, 4123);
    assert_eq!(config.bind_address(), "127.0.0.1:4123");
}

#[test]
fn load_uses_defaults_when_env_is_missing() {
    let config =
        bootstrap::load(&bootstrap::Environment::default()).expect("config load must succeed");

    assert_eq!(config.sqlite_path, bootstrap::DEFAULT_SQLITE_PATH);
    assert_eq!(config.bind_host, DEFAULT_BIND_HOST);
    assert_eq!(config.bind_port, DEFAULT_BIND_PORT);
    assert_eq!(config.bind_address(), "0.0.0.0:3000");
}

#[test]
fn load_uses_internal_display_dir_overrides_when_present() {
    let env = Environment {
        data_dir: set("/data"),
        data_display_dir: set(".data"),
        resource_display_dir: set("."),
        embedding_mode: set("tei"),
        embedding_base_url: set("http://127.0.0.1:18080"),
        ..with_model("custom-model")
    };

    let config = load(&env).expect("config load must succeed");

    assert_eq!(config.data_dir, "/data");
    assert_eq!(config.data_display_dir, ".data");
    assert_eq!(config.resource_display_dir, ".");
}

#[test]
fn config_load_rejects_invalid_bind_port() {
    let env = Environment {
        bind_port: set("invalid-port"),
        ..with_model("custom-model")
    };

    let error = load(&env).expect_err("config load must fail for invalid port");

    assert!(error.message().contains(BIND_PORT_ENV));
    assert_eq!(
        error.message(),
        "failed to parse ASK_SERVER_BIND_PORT value 'invalid-port' as a valid TCP port"
    );

    let bootstrap_env = bootstrap::Environment {
        bind_port: set("invalid-port"),
        ..bootstrap::Environment::default()
    };
    let error = bootstrap::load(&bootstrap_env).expect_err("config load must fail");
    assert!(error.message().contains(BIND_PORT_ENV));
}

#[test]
fn ports_are_numbers_up_to_65535() {
    for (raw, expected) in [
        ("0", Some(0)),
        ("+80", Some(80)),
        ("00080", Some(80)),
        ("65535", Some(65535)),
        ("65536", None),
        ("-1", None),
        ("-0", None),
        ("", None),
        ("+", None),
        (" 80", None),
        ("80 ", None),
        ("8 0", None),
        ("0x50", None),
        ("\u{664}", None),
        ("99999999999999999999999999999999999999999999", None),
    ] {
        assert_eq!(raw.parse::<u16>().ok(), expected);
        let env = Environment {
            bind_port: set(raw),
            ..with_model("m")
        };
        assert_eq!(load(&env).ok().map(|config| config.bind_port), expected, "{raw:?}");
    }
}

#[test]
fn integers_are_read_as_usual() {
    for raw in [
        "1", "-1", "+7", "-0", "007", "9223372036854775807", "9223372036854775808",
        "-9223372036854775808", "-9223372036854775809", "", "-", "+-1", "1.0", "ten", "1_000",
    ] {
        let env = Environment {
            embedding_dimensions: set(raw),
            ..with_model("m")
        };
        match (raw.parse::<i64>(), load(&env)) {
            (Ok(n), Ok(config)) => assert_eq!(config.embedding_dimensions, n),
            (Ok(n), Err(error)) => {
                assert!(n <= 0);
                assert_eq!(
                    error,
                    ConfigError::NotPositive {
                        name: EMBEDDING_DIMENSIONS_ENV,
                        value: n
                    }
                );
            }
            (Err(_), Ok(_)) => panic!("{raw:?} is no number"),
            (Err(_), Err(error)) => assert_eq!(
                error.message(),
                format!("failed to parse ASK_SERVER_EMBEDDING_DIMENSIONS value '{raw}' as an integer")
            ),
        }
    }
}

#[test]
fn load_requires_openai_credentials_in_openai_mode() {
    let env = Environment {
        embedding_mode: set("openai"),
        ..with_model("text-embedding-3-small")
    };

    let error = load(&env).expect_err("config load must fail without openai credentials");

    assert!(error.message().contains(EMBEDDING_BASE_URL_ENV));

    let env = Environment {
        embedding_base_url: set("https://api.openai.example/v1"),
        ..env
    };
    let error = load(&env).expect_err("config load must fail without a token");
    assert!(error.message().contains(EMBEDDING_AUTH_TOKEN_ENV));
    assert_eq!(
        error.message(),
        "ASK_SERVER_EMBEDDING_AUTH_TOKEN must be set when ASK_SERVER_EMBEDDING_MODE=openai"
    );

    let env = Environment {
        embedding_auth_token: set(" \t"),
        ..env
    };
    let error = load(&env).expect_err("config load must fail with a blank token");
    assert_eq!(
        error.message(),
        "ASK_SERVER_EMBEDDING_AUTH_TOKEN must not be empty when ASK_SERVER_EMBEDDING_MODE=openai"
    );
}

#[test]
fn load_uses_openai_provider_when_fully_configured() {
    let env = Environment {
        embedding_mode: set("openai"),
        embedding_base_url: set("https://api.openai.example/v1"),
        embedding_auth_token: set("secret-token"),
        ..with_model("text-embedding-3-small")
    };

    let config = load(&env).expect("config load must succeed");

    assert_eq!(
        config.embedding_provider,
        EmbeddingProvider::OpenAi {
            base_url: String::from("https://api.openai.example/v1"),
            auth_token: String::from("secret-token"),
        }
    );
    assert_eq!(config.embedding_provider.mode_name(), "openai");
    assert_eq!(
        config.embedding_provider.base_url(),
        "https://api.openai.example/v1"
    );

    let shown = RuntimeConfig::from_config(&config);
    assert_eq!(shown.embedding_mode, "openai");
    assert_eq!(shown.embedding_base_url, "https://api.openai.example/v1");
    assert_eq!(shown.database_pool_size, config.database_pool_size);
    assert!(!format!("{shown:?}").contains("secret-token"));
}

#[test]
fn load_rejects_empty_tei_base_url() {
    let env = Environment {
        embedding_mode: set("tei"),
        embedding_base_url: set("   "),
        ..with_model("custom-model")
    };

    let error = load(&env).expect_err("config load must fail for empty tei base url");

    assert!(error.message().contains(EMBEDDING_BASE_URL_ENV));
}

#[test]
fn load_rejects_empty_openai_base_url() {
    let env = Environment {
        embedding_mode: set("openai"),
        embedding_base_url: set("   "),
        embedding_auth_token: set("secret-token"),
        ..with_model("text-embedding-3-small")
    };

    let error = load(&env).expect_err("config load must fail for empty openai base url");

    assert!(error.message().contains(EMBEDDING_BASE_URL_ENV));
}

#[test]
fn load_rejects_unknown_embedding_mode() {
    let env = Environment {
        embedding_mode: set("unknown"),
        ..with_model("custom-model")
    };

    let error = load(&env).expect_err("config load must fail for unknown embedding mode");

    assert!(error.message().contains(EMBEDDING_MODE_ENV));
    assert_eq!(
        error.message(),
        "ASK_SERVER_EMBEDDING_MODE must be either 'tei' or 'openai', got 'unknown'"
    );
}

#[test]
fn load_rejects_non_positive_embedding_dimensions() {
    let env = Environment {
        embedding_dimensions: set("0"),
        ..with_model("custom-model")
    };

    let error = load(&env).expect_err("config load must fail for non-positive dimensions");

    assert!(error.message().contains(EMBEDDING_DIMENSIONS_ENV));
}

#[test]
fn load_rejects_non_positive_embedding_chunk_size() {
    let env = Environment {
        embedding_chunk_size: set("-1"),
        ..with_model("custom-model")
    };

    let error = load(&env).expect_err("config load must fail for non-positive chunk size");

    assert!(error.message().contains(EMBEDDING_CHUNK_SIZE_ENV));
    assert_eq!(
        error.message(),
        "ASK_SERVER_EMBEDDING_CHUNK_SIZE must be greater than 0, got -1"
    );
}

#[test]
fn load_rejects_negative_embedding_chunk_overlap() {
    let env = Environment {
        embedding_chunk_overlap: set("-1"),
        ..with_model("custom-model")
    };

    let error = load(&env).expect_err("config load must fail for negative chunk overlap");

    assert!(error.message().contains(EMBEDDING_CHUNK_OVERLAP_ENV));
    assert_eq!(
        error.message(),
        "ASK_SERVER_EMBEDDING_CHUNK_OVERLAP must be greater than or equal to 0, got -1"
    );
}

#[test]
fn load_rejects_embedding_chunk_overlap_equal_to_chunk_size() {
    let env = Environment {
        embedding_chunk_size: set("32"),
        embedding_chunk_overlap: set("32"),
        ..with_model("custom-model")
    };

    let error = load(&env).expect_err("config load must fail when overlap matches chunk size");

    assert!(error.message().contains(EMBEDDING_CHUNK_OVERLAP_ENV));
    assert_eq!(
        error.message(),
        "ASK_SERVER_EMBEDDING_CHUNK_OVERLAP must be less than ASK_SERVER_EMBEDDING_CHUNK_SIZE, got 32 >= 32"
    );
}

#[test]
fn load_requires_embedding_model() {
    let error = load(&Environment::default())
        .expect_err("config load must fail without embedding model");

    assert!(error.message().contains(EMBEDDING_MODEL_ENV));
    assert_eq!(error.message(), "ASK_SERVER_EMBEDDING_MODEL must be set");
}

#[test]
fn load_rejects_empty_embedding_model() {
    let error =
        load(&with_model("   ")).expect_err("config load must fail for empty embedding model");

    assert!(error.message().contains(EMBEDDING_MODEL_ENV));
}

#[test]
fn load_rejects_zero_embedding_max_batch_size() {
    let env = Environment {
        embedding_max_batch_size: set("0"),
        ..with_model("custom-model")
    };

    let error = load(&env).expect_err("config load must fail for non-positive max batch size");

    assert!(error.message().contains(EMBEDDING_MAX_BATCH_SIZE_ENV));
}

#[test]
fn load_allows_zero_embedding_worker_count() {
    let env = Environment {
        embedding_worker_count: set("0"),
        ..with_model("custom-model")
    };

    let config = load(&env).expect("config load must allow disabling passive workers");

    assert_eq!(config.embedding_worker_count, 0);
}

#[test]
fn load_rejects_zero_database_pool_size() {
    let env = Environment {
        database_pool_size: set("0"),
        ..with_model("custom-model")
    };

    let error = load(&env).expect_err("config load must fail for non-positive database pool size");

    assert!(error.message().contains(DATABASE_POOL_SIZE_ENV));

    let env = Environment {
        database_pool_size: set("-2"),
        ..with_model("custom-model")
    };
    assert_eq!(
        load(&env).unwrap_err().message(),
        "failed to parse ASK_SERVER_DATABASE_POOL_SIZE value '-2' as a non-negative integer"
    );
}

#[test]
fn sqlite_path_has_one_separator() {
    let mut config = load(&with_model("m")).unwrap();
    for (dir, path) in [
        ("data//", "data/ask.sqlite3"),
        ("data\\/", "data/ask.sqlite3"),
        ("/", "/ask.sqlite3"),
        ("a/b", "a/b/ask.sqlite3"),
    ] {
        config.data_dir = dir.to_string();
        assert_eq!(config.sqlite_path(), path);
    }
    let identity = config.embedding_identity();
    assert_eq!(identity.name, "m");
    assert_eq!(identity.dimensions, 768);
    assert_eq!(identity.chunk_size, 512);
    assert_eq!(identity.chunk_overlap, 0);
}

#[test]
fn pool_sizes_fit_a_pool() {
    assert_eq!(pool_max_size(3), Ok(3));
    assert_eq!(pool_max_size(0), Err(PoolSizeError::Zero));
    assert_eq!(pool_max_size(usize::MAX), Err(PoolSizeError::TooLarge));
    assert_eq!(
        PoolSizeError::Zero.message(),
        "database pool size must be greater than 0"
    );
    assert_eq!(
        PoolSizeError::TooLarge.message(),
        "database pool size must fit into u32"
    );
}
