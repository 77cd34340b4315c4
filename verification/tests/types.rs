use ask::types::{ChunkType, DocCategory, EmbedState, JobType};
use rusqlite::Connection;

fn stored(name: &str) -> String {
    let conn = Connection::open_in_memory().expect("in-memory database must open");
    conn.query_row("SELECT ?1", [name], |row| row.get(0))
        .expect("round-trip must succeed")
}

#[test]
fn sql_round_trip_decodes_every_persisted_enum() {
    let doc_category = DocCategory::decode(&stored(DocCategory::KnowledgeFile.as_str())).unwrap();
    let embed_state = EmbedState::decode(&stored(EmbedState::Embedded.as_str())).unwrap();
    let chunk_type = ChunkType::decode(&stored(ChunkType::Filename.as_str())).unwrap();
    let job_type = JobType::decode(&stored(JobType::EmbedDocument.as_str())).unwrap();

    assert_eq!(doc_category, DocCategory::KnowledgeFile);
    assert_eq!(embed_state, EmbedState::Embedded);
    assert_eq!(chunk_type, ChunkType::Filename);
    assert_eq!(job_type, JobType::EmbedDocument);
}

#[test]
fn sql_decode_rejects_unknown_enum_values() {
    let err = EmbedState::decode(&stored("unknown_state"))
        .expect_err("invalid embed state must fail to decode");

    assert!(
        err.message().contains("invalid EmbedState value"),
        "unexpected error: {}",
        err.message()
    );
    assert_eq!(err.message(), "invalid EmbedState value: unknown_state");
}

#[test]
fn names_read_back_as_themselves() {
    for value in [DocCategory::KnowledgeFile, DocCategory::Resource] {
        assert_eq!(DocCategory::try_from_str(value.as_str()), Some(value));
    }
    for value in [EmbedState::Pending, EmbedState::Embedded, EmbedState::Stale] {
        assert_eq!(EmbedState::try_from_str(value.as_str()), Some(value));
    }
    for value in [ChunkType::Content, ChunkType::Filename] {
        assert_eq!(ChunkType::try_from_str(value.as_str()), Some(value));
    }
    for value in [
        JobType::IngestFolder,
        JobType::IngestFolderGit,
        JobType::EmbedDocument,
    ] {
        assert_eq!(JobType::try_from_str(value.as_str()), Some(value));
    }
    assert_eq!(DocCategory::as_str(&DocCategory::KnowledgeFile), "knowledge_file");
    assert_eq!(JobType::IngestFolder.as_str(), "ingest_folder");
    assert_eq!(DocCategory::try_from_str("Resource"), None);
    assert_eq!(EmbedState::try_from_str(""), None);
    assert_eq!(ChunkType::try_from_str("content "), None);
    assert_eq!(JobType::try_from_str("embed"), None);
}
