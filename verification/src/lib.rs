//! A local document search service: ingestion, chunking, the job queue and the
//! rules that turn documents into embeddings and search results.

pub mod binary64;
pub mod bootstrap;
pub mod chunking;
pub mod chunking_laws;
pub mod config;
pub mod content;
pub mod embed_document;
pub mod embeddings;
pub mod filepath_search;
pub mod git;
pub mod hashing;
pub mod ingest;
pub mod json;
pub mod migrations;
pub mod models;
pub mod numbers;
pub mod paths;
pub mod patterns;
pub mod queue;
pub mod repository;
pub mod response_paths;
pub mod responses;
pub mod rows;
pub mod schema;
pub mod score_laws;
pub mod search;
pub mod startup;
pub mod stats;
pub mod store;
pub mod store_laws;
pub mod text;
pub mod types;
pub mod vector_index;
pub mod worker;
pub mod workspace;

pub use workspace::{workspace_members, WorkspaceMember, WORKSPACE_NAME};
