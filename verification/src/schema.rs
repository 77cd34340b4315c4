//! The schema of the database, as the migrations that build it.

use crate::migrations::{ordered, versions, Migration};
use vstd::prelude::*;

verus! {

/// The table of the migrations that have been applied.
pub const CREATE_MIGRATIONS: &'static str = "
CREATE TABLE IF NOT EXISTS migrations (
    version INTEGER PRIMARY KEY NOT NULL,
    required_actions TEXT NULL
);
";

/// What files held when they were last read. No migration makes this table: it is made
/// at each start where it is not there, before or after the documents are.
pub const CREATE_DOCUMENT_FINGERPRINTS: &'static str = "
CREATE TABLE IF NOT EXISTS document_fingerprints (
    document_id     INTEGER PRIMARY KEY REFERENCES documents(id) ON DELETE CASCADE,
    file_hash       TEXT    NOT NULL,
    metadata_json   TEXT    NOT NULL
);
";

/// Documents.
pub const CREATE_DOCUMENTS: &'static str = "
CREATE TABLE IF NOT EXISTS documents (
    id              INTEGER PRIMARY KEY AUTOINCREMENT,
    filepath        TEXT    NOT NULL,
    file_type       TEXT    NOT NULL,
    doc_category    TEXT    NOT NULL,
    file_modified_at INTEGER NOT NULL,
    file_size       INTEGER NOT NULL,
    updated_at      INTEGER NOT NULL
);
";

/// Models, told apart by their names.
pub const CREATE_EMBEDDING_MODELS: &'static str = "
CREATE TABLE IF NOT EXISTS embedding_models (
    id              INTEGER PRIMARY KEY AUTOINCREMENT,
    name            TEXT    NOT NULL UNIQUE,
    dimensions      INTEGER NOT NULL,
    chunk_size      INTEGER NOT NULL,
    chunk_overlap   INTEGER NOT NULL,
    created_at      INTEGER NOT NULL
);
";

/// Embeddings.
pub const CREATE_DOCUMENT_EMBEDDINGS: &'static str = "
CREATE TABLE IF NOT EXISTS document_embeddings (
    id              INTEGER PRIMARY KEY AUTOINCREMENT,
    document_id     INTEGER NOT NULL REFERENCES documents(id) ON DELETE CASCADE,
    model_id        INTEGER NOT NULL REFERENCES embedding_models(id) ON DELETE CASCADE,
    chunk_type      TEXT    NOT NULL,
    chunk_start     INTEGER NOT NULL,
    chunk_end       INTEGER NOT NULL,
    state           TEXT    NOT NULL,
    embedding       BLOB,
    created_at      INTEGER NOT NULL
);
";

/// One embedding for each document, model and chunk.
pub const CREATE_EMBEDDINGS_UNIQUE_IDX: &'static str = "
CREATE UNIQUE INDEX IF NOT EXISTS idx_embeddings_unique
    ON document_embeddings (document_id, model_id, chunk_type, chunk_start);
";

/// Embeddings by their document.
pub const CREATE_EMBEDDINGS_DOC_IDX: &'static str = "
CREATE INDEX IF NOT EXISTS idx_embeddings_document
    ON document_embeddings (document_id);
";

/// Embeddings by their model and state.
pub const CREATE_EMBEDDINGS_MODEL_STATE_IDX: &'static str = "
CREATE INDEX IF NOT EXISTS idx_embeddings_model_state
    ON document_embeddings (model_id, state);
";

/// Documents, models and embeddings, all at once.
pub const CREATE_ALL: &'static str = "
CREATE TABLE IF NOT EXISTS documents (
    id              INTEGER PRIMARY KEY AUTOINCREMENT,
    filepath        TEXT    NOT NULL,
    file_type       TEXT    NOT NULL,
    doc_category    TEXT    NOT NULL,
    file_modified_at INTEGER NOT NULL,
    file_size       INTEGER NOT NULL,
    updated_at      INTEGER NOT NULL
);

CREATE TABLE IF NOT EXISTS embedding_models (
    id              INTEGER PRIMARY KEY AUTOINCREMENT,
    name            TEXT    NOT NULL UNIQUE,
    dimensions      INTEGER NOT NULL,
    chunk_size      INTEGER NOT NULL,
    chunk_overlap   INTEGER NOT NULL,
    created_at      INTEGER NOT NULL
);

CREATE TABLE IF NOT EXISTS document_embeddings (
    id              INTEGER PRIMARY KEY AUTOINCREMENT,
    document_id     INTEGER NOT NULL REFERENCES documents(id) ON DELETE CASCADE,
    model_id        INTEGER NOT NULL REFERENCES embedding_models(id) ON DELETE CASCADE,
    chunk_type      TEXT    NOT NULL,
    chunk_start     INTEGER NOT NULL,
    chunk_end       INTEGER NOT NULL,
    state           TEXT    NOT NULL,
    embedding       BLOB,
    created_at      INTEGER NOT NULL
);

CREATE UNIQUE INDEX IF NOT EXISTS idx_embeddings_unique
    ON document_embeddings (document_id, model_id, chunk_type, chunk_start);

CREATE INDEX IF NOT EXISTS idx_embeddings_document
    ON document_embeddings (document_id);

CREATE INDEX IF NOT EXISTS idx_embeddings_model_state
    ON document_embeddings (model_id, state);
";

/// Jobs, with the state that they were in at first.
pub const CREATE_JOB_QUEUE: &'static str = "
CREATE TABLE IF NOT EXISTS job_queue (
    id          INTEGER PRIMARY KEY AUTOINCREMENT,
    job_type    TEXT    NOT NULL,
    payload     TEXT    NOT NULL,
    state       TEXT    NOT NULL DEFAULT 'pending',
    claimed_at  INTEGER,
    created_at  INTEGER NOT NULL
);

CREATE UNIQUE INDEX IF NOT EXISTS idx_job_queue_unique
    ON job_queue (job_type, payload);
";

/// Jobs without a state: a job is claimed or it is not.
pub const SIMPLIFY_JOB_QUEUE_CLAIM: &'static str = "
ALTER TABLE job_queue DROP COLUMN state;
";

/// The model that the search index was built for.
pub const CREATE_EMBEDDING_SEARCH_STATE: &'static str = "
CREATE TABLE IF NOT EXISTS embedding_search_state (
    singleton_id    INTEGER PRIMARY KEY CHECK (singleton_id = 1),
    active_model_id INTEGER NOT NULL REFERENCES embedding_models(id),
    dimensions      INTEGER NOT NULL,
    updated_at      INTEGER NOT NULL
);
";

/// Models that differ in more than their names. What belongs to models is set aside while
/// their table is replaced, so that nothing goes with the old one.
pub const REBUILD_EMBEDDING_MODEL_IDENTITY: &'static str = "
CREATE TABLE embedding_models_rebuilt (
    id              INTEGER PRIMARY KEY AUTOINCREMENT,
    name            TEXT    NOT NULL,
    dimensions      INTEGER NOT NULL,
    chunk_size      INTEGER NOT NULL,
    chunk_overlap   INTEGER NOT NULL,
    created_at      INTEGER NOT NULL,
    UNIQUE (name, dimensions, chunk_size, chunk_overlap)
);

INSERT INTO embedding_models_rebuilt
    (id, name, dimensions, chunk_size, chunk_overlap, created_at)
SELECT id, name, dimensions, chunk_size, chunk_overlap, created_at
FROM embedding_models;

CREATE TABLE document_embeddings_kept AS SELECT * FROM document_embeddings;
CREATE TABLE embedding_search_state_kept AS SELECT * FROM embedding_search_state;
DELETE FROM document_embeddings;
DELETE FROM embedding_search_state;

DROP TABLE embedding_models;
ALTER TABLE embedding_models_rebuilt RENAME TO embedding_models;

INSERT INTO document_embeddings
    (id, document_id, model_id, chunk_type, chunk_start, chunk_end, state, embedding, created_at)
SELECT
    id, document_id, model_id, chunk_type, chunk_start, chunk_end, state, embedding, created_at
FROM document_embeddings_kept
ORDER BY id;
INSERT INTO embedding_search_state (singleton_id, active_model_id, dimensions, updated_at)
SELECT singleton_id, active_model_id, dimensions, updated_at
FROM embedding_search_state_kept;

DROP TABLE document_embeddings_kept;
DROP TABLE embedding_search_state_kept;
";

/// Paths in the form that they are searched in.
pub const CREATE_DOCUMENT_FILEPATH_SEARCH: &'static str = "
CREATE TABLE IF NOT EXISTS document_filepath_search (
    document_id         INTEGER PRIMARY KEY REFERENCES documents(id) ON DELETE CASCADE,
    normalized_filepath TEXT NOT NULL,
    normalized_basename TEXT NOT NULL
);

INSERT OR REPLACE INTO document_filepath_search
    (document_id, normalized_filepath, normalized_basename)
SELECT
    id,
    path,
    substr(path, length(rtrim(path, replace(path, '/', ''))) + 1)
FROM (SELECT id, lower(replace(filepath, '\\', '/')) AS path FROM documents);

CREATE TRIGGER IF NOT EXISTS document_filepath_search_insert
AFTER INSERT ON documents
BEGIN
    INSERT OR REPLACE INTO document_filepath_search
        (document_id, normalized_filepath, normalized_basename)
    SELECT
        new.id,
        path,
        substr(path, length(rtrim(path, replace(path, '/', ''))) + 1)
    FROM (SELECT lower(replace(new.filepath, '\\', '/')) AS path);
END;

CREATE TRIGGER IF NOT EXISTS document_filepath_search_update
AFTER UPDATE OF filepath ON documents
BEGIN
    INSERT OR REPLACE INTO document_filepath_search
        (document_id, normalized_filepath, normalized_basename)
    SELECT
        new.id,
        path,
        substr(path, length(rtrim(path, replace(path, '/', ''))) + 1)
    FROM (SELECT lower(replace(new.filepath, '\\', '/')) AS path);
END;
";

/// The statements of migrations.
pub open spec fn statements(migrations: Seq<Migration>) -> Seq<Seq<char>> {
    migrations.map_values(|migration: Migration| migration.sql@)
}

/// All migrations, in their order, each with its statements.
pub fn migrations() -> (all: Vec<Migration>)
    ensures
        ordered(all@),
        versions(all@) == seq![1i64, 2i64, 3i64, 4i64, 5i64, 6i64, 7i64],
        statements(all@) == seq![
            CREATE_MIGRATIONS@,
            CREATE_ALL@,
            CREATE_JOB_QUEUE@,
            SIMPLIFY_JOB_QUEUE_CLAIM@,
            CREATE_EMBEDDING_SEARCH_STATE@,
            REBUILD_EMBEDDING_MODEL_IDENTITY@,
            CREATE_DOCUMENT_FILEPATH_SEARCH@,
        ],
        forall|i: int| 0 <= i < all@.len() ==> (#[trigger] all@[i]).required_actions is None,
{
    let mut all: Vec<Migration> = Vec::new();
    all.push(Migration { version: 1, required_actions: None, sql: CREATE_MIGRATIONS });
    all.push(Migration { version: 2, required_actions: None, sql: CREATE_ALL });
    all.push(Migration { version: 3, required_actions: None, sql: CREATE_JOB_QUEUE });
    all.push(Migration { version: 4, required_actions: None, sql: SIMPLIFY_JOB_QUEUE_CLAIM });
    all.push(Migration { version: 5, required_actions: None, sql: CREATE_EMBEDDING_SEARCH_STATE });
    all.push(
        Migration { version: 6, required_actions: None, sql: REBUILD_EMBEDDING_MODEL_IDENTITY },
    );
    all.push(
        Migration { version: 7, required_actions: None, sql: CREATE_DOCUMENT_FILEPATH_SEARCH },
    );
    proof {
        assert(versions(all@) =~= seq![1i64, 2i64, 3i64, 4i64, 5i64, 6i64, 7i64]);
        assert(statements(all@) =~= seq![
            CREATE_MIGRATIONS@,
            CREATE_ALL@,
            CREATE_JOB_QUEUE@,
            SIMPLIFY_JOB_QUEUE_CLAIM@,
            CREATE_EMBEDDING_SEARCH_STATE@,
            REBUILD_EMBEDDING_MODEL_IDENTITY@,
            CREATE_DOCUMENT_FILEPATH_SEARCH@,
        ]);
    }
    all
}

} // verus!
