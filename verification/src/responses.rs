//! What requests are answered: the decisions behind the HTTP interface.

use crate::models::{EmbeddingModel, IngestFolderPayload};
use crate::paths::{spec_starts_with, starts_with};
use crate::patterns::{compiled_pattern, effective_pattern, resolve_file_pattern};
use crate::repository::{enqueue_job, find_model_by_id, RepositoryError};
use crate::rows::first_where;
use crate::store::{model_id_test, Store, Tables};
use crate::text::{signed_decimal, signed_decimal_of};
use crate::types::JobType;
use vstd::prelude::*;

verus! {

/// An answer that refuses a request.
#[derive(Clone, Debug, PartialEq, Eq)]
pub struct Refused {
    /// The HTTP status.
    pub status: u16,
    pub code: &'static str,
    pub message: String,
}

/// The answer to a request that failed for no fault of its own.
pub fn internal_error(message: String) -> (refused: Refused)
    ensures
        refused.status == 500,
        refused.code@ == "internal_error"@,
        refused.message == message,
{
    Refused { status: 500, code: "internal_error", message }
}

/// The answer to a request to ingest whose job was queued.
#[derive(Clone, Copy, Debug, PartialEq, Eq)]
pub struct Accepted {
    pub status: &'static str,
    pub job_type: JobType,
}

/// What became of a request to ingest a directory.
#[derive(Clone, Debug, PartialEq, Eq)]
pub enum IngestOutcome {
    Queued(JobType),
    NotFound(String),
    NotADirectory(String),
    OutsideAllowedRoot(String),
    InvalidPattern(String),
    Conflict(String),
}

/// What was found at the path of a request.
#[derive(Clone, Debug, PartialEq, Eq)]
pub enum RootState {
    /// There is nothing.
    Missing,
    /// There is something else than a directory.
    NotADirectory,
    /// A directory, with its canonical path.
    Directory { canonical: String },
}

/// Checks a request to ingest a directory: its pattern has to be a regular expression,
/// and its path a directory in the resource root.
pub fn check_ingest_request(
    root_path: &str,
    file_pattern: Option<&str>,
    resource_root: &str,
    found: &RootState,
) -> (result: Result<IngestFolderPayload, IngestOutcome>)
    ensures
        match compiled_pattern(effective_pattern(file_pattern)) {
            Err(wrong) => result matches Err(IngestOutcome::InvalidPattern(message)) && message@
                == wrong,
            Ok(_) => match *found {
                RootState::Missing => result matches Err(IngestOutcome::NotFound(path)) && path@
                    == root_path@,
                RootState::NotADirectory => result matches Err(
                    IngestOutcome::NotADirectory(path),
                ) && path@ == root_path@,
                RootState::Directory { canonical } => if spec_starts_with(
                    canonical@,
                    resource_root@,
                ) {
                    result matches Ok(payload) && payload.root_path@ == canonical@
                        && payload.file_pattern@ == effective_pattern(file_pattern)
                } else {
                    result matches Err(IngestOutcome::OutsideAllowedRoot(path)) && path@
                        == root_path@
                },
            },
        },
{
    let file_pattern: String = match resolve_file_pattern(file_pattern) {
        Ok(pattern) => pattern,
        Err(error) => {
            return Err(IngestOutcome::InvalidPattern(error.message()));
        },
    };
    match found {
        RootState::Missing => Err(IngestOutcome::NotFound(root_path.to_owned())),
        RootState::NotADirectory => Err(IngestOutcome::NotADirectory(root_path.to_owned())),
        RootState::Directory { canonical } => {
            if !starts_with(canonical.as_str(), resource_root) {
                return Err(IngestOutcome::OutsideAllowedRoot(root_path.to_owned()));
            }
            Ok(IngestFolderPayload { root_path: canonical.clone(), file_pattern })
        },
    }
}

/// Queues the job of a request that was checked.
pub fn queue_ingest(store: &mut Store, job_type: JobType, payload_json: &str, now: i64) -> (outcome:
    IngestOutcome)
    ensures
        match outcome {
            IngestOutcome::Queued(t) => {
                &&& t == job_type
                &&& old(store)@.jobs.accepts(job_type.name(), payload_json@, now as int)
                &&& !old(store)@.jobs.full_for(job_type.name(), payload_json@)
                &&& final(store)@ == (Tables {
                    jobs: old(store)@.jobs.enqueued(job_type.name(), payload_json@, now),
                    ..old(store)@
                })
            },
            IngestOutcome::Conflict(message) => {
                &&& final(store)@ == old(store)@
                &&& if old(store)@.jobs.accepts(job_type.name(), payload_json@, now as int) {
                    old(store)@.jobs.full_for(job_type.name(), payload_json@) && message@
                        == RepositoryError::Full.spec_message()
                } else {
                    message@ == "a job with type '"@ + job_type.name() + "' and payload '"@
                        + payload_json@ + "' is already queued or in progress"@
                }
            },
            _ => false,
        },
        old(store)@.wf() ==> final(store)@.wf(),
{
    match enqueue_job(store, &job_type, payload_json, now) {
        Ok(()) => IngestOutcome::Queued(job_type),
        Err(error) => IngestOutcome::Conflict(error.message()),
    }
}

/// The status, code and message of the answer to a request that was refused.
pub open spec fn spec_refusal(outcome: IngestOutcome) -> Option<(int, Seq<char>, Seq<char>)> {
    match outcome {
        IngestOutcome::Queued(_) => None,
        IngestOutcome::NotFound(path) => Some(
            (404, "not_found"@, "path does not exist: "@ + path@),
        ),
        IngestOutcome::NotADirectory(path) => Some(
            (400, "bad_request"@, "path is not a directory: "@ + path@),
        ),
        IngestOutcome::OutsideAllowedRoot(path) => Some(
            (403, "forbidden"@, "path is outside the configured resource root: "@ + path@),
        ),
        IngestOutcome::InvalidPattern(message) => Some(
            (400, "bad_request"@, "invalid file_pattern regex: "@ + message@),
        ),
        IngestOutcome::Conflict(message) => Some((409, "conflict"@, message@)),
    }
}

/// The answer to a request to ingest: that its job is queued, or why it is not.
pub fn ingest_response(outcome: IngestOutcome) -> (result: Result<Accepted, Refused>)
    ensures
        match result {
            Ok(accepted) => outcome == IngestOutcome::Queued(accepted.job_type)
                && accepted.status@ == "queued"@,
            Err(refused) => spec_refusal(outcome) == Some(
                (refused.status as int, refused.code@, refused.message@),
            ),
        },
{
    match outcome {
        IngestOutcome::Queued(job_type) => Ok(Accepted { status: "queued", job_type }),
        IngestOutcome::NotFound(path) => Err(
            Refused {
                status: 404,
                code: "not_found",
                message: String::from_str("path does not exist: ").concat(path.as_str()),
            },
        ),
        IngestOutcome::NotADirectory(path) => Err(
            Refused {
                status: 400,
                code: "bad_request",
                message: String::from_str("path is not a directory: ").concat(path.as_str()),
            },
        ),
        IngestOutcome::OutsideAllowedRoot(path) => Err(
            Refused {
                status: 403,
                code: "forbidden",
                message: String::from_str(
                    "path is outside the configured resource root: ",
                ).concat(path.as_str()),
            },
        ),
        IngestOutcome::InvalidPattern(message) => Err(
            Refused {
                status: 400,
                code: "bad_request",
                message: String::from_str("invalid file_pattern regex: ").concat(
                    message.as_str(),
                ),
            },
        ),
        IngestOutcome::Conflict(message) => Err(
            Refused { status: 409, code: "conflict", message },
        ),
    }
}

/// Checks a request to mark documents as stale, which has to name some.
pub fn check_mark_stale(document_ids: &[i64]) -> (result: Result<(), Refused>)
    ensures
        match result {
            Ok(()) => document_ids@.len() > 0,
            Err(refused) => document_ids@.len() == 0 && refused.status == 400 && refused.code@
                == "bad_request"@ && refused.message@ == "document_ids must not be empty"@,
        },
{
    if document_ids.len() == 0 {
        return Err(
            Refused {
                status: 400,
                code: "bad_request",
                message: String::from_str("document_ids must not be empty"),
            },
        );
    }
    Ok(())
}

/// Why there is no model to search with.
#[derive(Clone, Copy, Debug, PartialEq, Eq, Structural)]
pub enum ActiveModelError {
    /// None was made active.
    NoActiveModel,
    /// The active one is gone.
    Missing { model_id: i64 },
}

impl ActiveModelError {
    pub open spec fn spec_message(&self) -> Seq<char> {
        match self {
            ActiveModelError::NoActiveModel => "active embedding_search_state row is missing"@,
            ActiveModelError::Missing { model_id } => "active model "@ + signed_decimal(
                *model_id as int,
            ) + " does not exist"@,
        }
    }

    /// What is wrong, in words.
    pub fn message(&self) -> (text: String)
        ensures
            text@ == self.spec_message(),
    {
        match self {
            ActiveModelError::NoActiveModel => String::from_str(
                "active embedding_search_state row is missing",
            ),
            ActiveModelError::Missing { model_id } => String::from_str("active model ").concat(
                signed_decimal_of(*model_id).as_str(),
            ).concat(" does not exist"),
        }
    }

    /// The answer to a search.
    pub fn refused(&self) -> (refused: Refused)
        ensures
            refused.status == 500,
            refused.code@ == "internal_error"@,
            refused.message@ == "failed to load active model: "@ + self.spec_message(),
    {
        internal_error(
            String::from_str("failed to load active model: ").concat(self.message().as_str()),
        )
    }
}

/// The model to search with.
pub fn load_active_model(store: &Store, active_model_id: Option<i64>) -> (result: Result<
    EmbeddingModel,
    ActiveModelError,
>)
    ensures
        match result {
            Ok(model) => active_model_id matches Some(id) && first_where(
                store@.models.rows,
                model_id_test(id),
            ) matches Some(i) && model@ == store@.models.rows[i],
            Err(ActiveModelError::NoActiveModel) => active_model_id is None,
            Err(ActiveModelError::Missing { model_id }) => active_model_id == Some(model_id)
                && !store@.models.has(model_id),
        },
{
    match active_model_id {
        Some(model_id) => match find_model_by_id(store, model_id) {
            Some(model) => Ok(model),
            None => Err(ActiveModelError::Missing { model_id }),
        },
        None => Err(ActiveModelError::NoActiveModel),
    }
}

/// What a request that was refused is answered: each reason has its own status, and only a
/// job that was queued is none.
pub proof fn lemma_refusal(outcome: IngestOutcome)
    ensures
        spec_refusal(outcome) is None <==> outcome is Queued,
        spec_refusal(outcome) matches Some((status, code, message)) ==> {
            &&& status == 404 <==> outcome is NotFound
            &&& status == 403 <==> outcome is OutsideAllowedRoot
            &&& status == 409 <==> outcome is Conflict
            &&& status == 400 <==> outcome is NotADirectory || outcome is InvalidPattern
            &&& status == 404 ==> code == "not_found"@
            &&& status == 403 ==> code == "forbidden"@
            &&& status == 409 ==> code == "conflict"@
            &&& status == 400 ==> code == "bad_request"@
        },
{
}

} // verus!
