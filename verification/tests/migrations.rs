use ask::migrations::{pending_migrations, validate_migrations, Migration};
use ask::schema::{
    migrations, CREATE_ALL, CREATE_DOCUMENTS, CREATE_DOCUMENT_EMBEDDINGS,
    CREATE_DOCUMENT_FINGERPRINTS, CREATE_EMBEDDINGS_DOC_IDX, CREATE_EMBEDDINGS_MODEL_STATE_IDX,
    CREATE_EMBEDDINGS_UNIQUE_IDX, CREATE_EMBEDDING_MODELS, CREATE_MIGRATIONS,
};
use rusqlite::Connection;

fn open() -> Connection {
    let connection = Connection::open_in_memory().expect("in-memory database must open");
    connection
        .execute_batch("PRAGMA foreign_keys=ON;")
        .unwrap();
    connection.execute_batch(CREATE_MIGRATIONS).unwrap();
    connection.execute_batch(CREATE_DOCUMENT_FINGERPRINTS).unwrap();
    connection
}

fn applied_versions(connection: &Connection) -> Vec<i64> {
    let mut statement = connection
        .prepare("SELECT version FROM migrations ORDER BY version ASC")
        .unwrap();
    let rows = statement.query_map([], |row| row.get::<_, i64>(0)).unwrap();
    rows.map(|row| row.unwrap()).collect()
}

fn apply_pending_migrations(connection: &mut Connection) -> usize {
    let applied = applied_versions(connection);
    let pending = pending_migrations(&migrations(), &applied).expect("migrations are ordered");
    for migration in &pending {
        let transaction = connection.transaction().unwrap();
        transaction.execute_batch(migration.sql).unwrap();
        transaction
            .execute(
                "INSERT INTO migrations (version, required_actions) VALUES (?1, ?2)",
                (migration.version, migration.required_actions),
            )
            .unwrap();
        transaction.commit().unwrap();
    }
    pending.len()
}

#[test]
fn migrations_applies_migrations_only_once() {
    let mut connection = open();

    let first_run = apply_pending_migrations(&mut connection);
    let second_run = apply_pending_migrations(&mut connection);

    let applied_total: i64 = connection
        .query_row("SELECT COUNT(*) FROM migrations", [], |row| row.get(0))
        .expect("migration count query must succeed");

    assert_eq!(first_run, 7);
    assert_eq!(second_run, 0);
    assert_eq!(applied_total, 7);
}

#[test]
fn migrations_stores_required_actions_as_null_when_not_needed() {
    let mut connection = open();

    apply_pending_migrations(&mut connection);

    let required_actions: Option<String> = connection
        .query_row(
            "SELECT required_actions FROM migrations WHERE version = 1",
            [],
            |row| row.get(0),
        )
        .expect("required_actions query must succeed");

    assert_eq!(required_actions, None);
}

#[test]
fn embedding_model_identity_allows_same_name_across_different_chunking() {
    let mut connection = open();
    apply_pending_migrations(&mut connection);

    connection
        .execute(
            "INSERT INTO embedding_models (name, dimensions, chunk_size, chunk_overlap, created_at)
             VALUES (?1, ?2, ?3, ?4, ?5)",
            ("shared-model", 1024_i64, 512_i64, 0_i64, 1_i64),
        )
        .expect("first embedding model insert must succeed");

    connection
        .execute(
            "INSERT INTO embedding_models (name, dimensions, chunk_size, chunk_overlap, created_at)
             VALUES (?1, ?2, ?3, ?4, ?5)",
            ("shared-model", 1024_i64, 256_i64, 0_i64, 2_i64),
        )
        .expect("second embedding model insert must succeed");
}

#[test]
fn embedding_model_identity_rejects_exact_duplicates() {
    let mut connection = open();
    apply_pending_migrations(&mut connection);

    connection
        .execute(
            "INSERT INTO embedding_models (name, dimensions, chunk_size, chunk_overlap, created_at)
             VALUES (?1, ?2, ?3, ?4, ?5)",
            ("shared-model", 1024_i64, 512_i64, 0_i64, 1_i64),
        )
        .expect("first embedding model insert must succeed");

    let error = connection
        .execute(
            "INSERT INTO embedding_models (name, dimensions, chunk_size, chunk_overlap, created_at)
             VALUES (?1, ?2, ?3, ?4, ?5)",
            ("shared-model", 1024_i64, 512_i64, 0_i64, 2_i64),
        )
        .expect_err("duplicate embedding identity must fail");

    assert!(
        error.to_string().contains("UNIQUE"),
        "unexpected error: {error}"
    );
}

#[test]
fn filepath_search_migration_backfills_existing_documents() {
    let mut connection = open();
    for migration in migrations().iter().take(6) {
        connection.execute_batch(migration.sql).unwrap();
        connection
            .execute(
                "INSERT INTO migrations (version, required_actions) VALUES (?1, NULL)",
                [migration.version],
            )
            .unwrap();
    }

    connection
        .execute(
            "INSERT INTO documents
                (filepath, file_type, doc_category, file_modified_at, file_size, updated_at)
             VALUES (?1, ?2, ?3, ?4, ?5, ?6)",
            (
                "C:\\Work\\src\\MyImplementation.cs",
                "cs",
                "resource",
                1_i64,
                10_i64,
                1_i64,
            ),
        )
        .unwrap();

    let applied = apply_pending_migrations(&mut connection);
    assert_eq!(applied, 1);

    let row: (String, String) = connection
        .query_row(
            "SELECT normalized_filepath, normalized_basename
             FROM document_filepath_search
             WHERE document_id = 1",
            [],
            |row| Ok((row.get(0)?, row.get(1)?)),
        )
        .unwrap();

    assert_eq!(row.0, "c:/work/src/myimplementation.cs");
    assert_eq!(row.1, "myimplementation.cs");
}

#[test]
fn models_are_rebuilt_with_all_that_belongs_to_them() {
    let mut connection = open();
    for migration in migrations().iter().take(5) {
        connection.execute_batch(migration.sql).unwrap();
        connection
            .execute(
                "INSERT INTO migrations (version, required_actions) VALUES (?1, NULL)",
                [migration.version],
            )
            .unwrap();
    }
    connection
        .execute_batch(
            "INSERT INTO documents
                (id, filepath, file_type, doc_category, file_modified_at, file_size, updated_at)
             VALUES (3, '/a.txt', 'txt', 'resource', 1, 1, 1);
             INSERT INTO document_fingerprints VALUES (3, 'h', '{}');
             INSERT INTO embedding_models VALUES (4, 'm', 2, 512, 0, 1);
             INSERT INTO document_embeddings VALUES
                (8, 3, 4, 'filename', 0, 0, 'embedded', X'0102', 1),
                (9, 3, 4, 'content', 0, 5, 'pending', NULL, 1);
             DELETE FROM document_embeddings WHERE id = 9;
             INSERT INTO embedding_search_state VALUES (1, 4, 2, 1);",
        )
        .unwrap();

    assert_eq!(apply_pending_migrations(&mut connection), 2);

    let count = |sql: &str| -> i64 { connection.query_row(sql, [], |row| row.get(0)).unwrap() };
    assert_eq!(count("SELECT COUNT(*) FROM embedding_models WHERE id = 4"), 1);
    assert_eq!(
        count("SELECT id FROM document_embeddings WHERE embedding = X'0102' AND model_id = 4"),
        8
    );
    assert_eq!(count("SELECT COUNT(*) FROM document_embeddings"), 1);
    assert_eq!(count("SELECT active_model_id FROM embedding_search_state"), 4);
    assert_eq!(count("SELECT COUNT(*) FROM document_fingerprints"), 1);
    assert_eq!(count("SELECT COUNT(*) FROM pragma_foreign_key_check"), 0);
    assert_eq!(
        count("SELECT seq FROM sqlite_sequence WHERE name = 'document_embeddings'"),
        9
    );
    assert_eq!(
        count("SELECT seq FROM sqlite_sequence WHERE name = 'embedding_models'"),
        4
    );

    connection.execute("DELETE FROM documents", []).unwrap();
    let count = |sql: &str| -> i64 { connection.query_row(sql, [], |row| row.get(0)).unwrap() };
    assert_eq!(count("SELECT COUNT(*) FROM document_embeddings"), 0);
    assert_eq!(count("SELECT COUNT(*) FROM document_fingerprints"), 0);
}

#[test]
fn rejects_non_increasing_versions() {
    let migrations = [
        Migration {
            version: 2,
            required_actions: None,
            sql: "SELECT 1;",
        },
        Migration {
            version: 2,
            required_actions: None,
            sql: "SELECT 1;",
        },
    ];

    let error = validate_migrations(&migrations).expect_err("validation must fail");

    assert!(error.message().contains("strictly increasing"));
    assert_eq!(
        error.message(),
        "migration versions must be strictly increasing: 2 came after 2"
    );
}

#[test]
fn rejects_versions_that_are_not_positive() {
    let migrations = [Migration {
        version: -3,
        required_actions: None,
        sql: "",
    }];

    let error = validate_migrations(&migrations).expect_err("validation must fail");

    assert_eq!(error.message(), "migration versions must be positive: -3");
    assert!(pending_migrations(&migrations, &[]).is_err());
    assert!(validate_migrations(&[]).is_ok());
}

#[test]
fn all_tables_are_those_of_the_parts() {
    let parts = [
        CREATE_DOCUMENTS,
        CREATE_EMBEDDING_MODELS,
        CREATE_DOCUMENT_EMBEDDINGS,
        CREATE_EMBEDDINGS_UNIQUE_IDX,
        CREATE_EMBEDDINGS_DOC_IDX,
        CREATE_EMBEDDINGS_MODEL_STATE_IDX,
    ];
    assert_eq!(parts.concat(), CREATE_ALL);
    assert_eq!(migrations()[1].sql, CREATE_ALL);
}
