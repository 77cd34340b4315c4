//! What becomes of a claimed job.

use crate::models::JobQueueEntry;
use crate::queue::deferred_claim;
use crate::repository::{complete_job, defer_job_for_retry};
use crate::store::{Store, Tables};
use crate::text::{signed_decimal, signed_decimal_of};
use crate::types::JobType;
use vstd::prelude::*;

verus! {

/// How often workers look for jobs, in seconds.
pub const POLL_INTERVAL_SECS: u64 = 5;

/// What does a job.
#[derive(Clone, Copy, Debug, PartialEq, Eq, Structural)]
pub enum JobHandler {
    EmbedDocument,
    IngestFolder,
    IngestFolderGit,
}

impl JobHandler {
    pub open spec fn spec_job_type(self) -> JobType {
        match self {
            JobHandler::EmbedDocument => JobType::EmbedDocument,
            JobHandler::IngestFolder => JobType::IngestFolder,
            JobHandler::IngestFolderGit => JobType::IngestFolderGit,
        }
    }

    /// The type of the jobs that this handler does.
    pub fn job_type(&self) -> (job_type: JobType)
        ensures
            job_type == self.spec_job_type(),
    {
        match self {
            JobHandler::EmbedDocument => JobType::EmbedDocument,
            JobHandler::IngestFolder => JobType::IngestFolder,
            JobHandler::IngestFolderGit => JobType::IngestFolderGit,
        }
    }
}

/// The handler for a type of jobs.
pub fn resolve_handler(job_type: JobType) -> (handler: JobHandler)
    ensures
        handler.spec_job_type() == job_type,
{
    match job_type {
        JobType::EmbedDocument => JobHandler::EmbedDocument,
        JobType::IngestFolder => JobHandler::IngestFolder,
        JobType::IngestFolderGit => JobHandler::IngestFolderGit,
    }
}

/// How a handler ended.
#[derive(Clone, Debug, PartialEq, Eq)]
pub enum HandlerResult {
    /// The job is done.
    Done,
    /// The job failed.
    Failed {
        message: String,
        /// After how many seconds to try again, if the failure passes.
        retry_after_secs: Option<u64>,
    },
}

/// Why a job was not done.
#[derive(Clone, Debug, PartialEq, Eq)]
pub enum DispatchError {
    /// The handler does not do jobs of this type.
    Mismatch { job_id: i64, claimed: JobType, resolved: JobType },
    /// The handler failed.
    Failed { job_id: i64, job_type: JobType, message: String },
}

impl DispatchError {
    pub open spec fn spec_message(&self) -> Seq<char> {
        match self {
            DispatchError::Mismatch { job_id, claimed, resolved } =>
            "job handler registry mismatch for job "@ + signed_decimal(*job_id as int)
                + ": claimed "@ + claimed.name() + ", resolved "@ + resolved.name(),
            DispatchError::Failed { job_id, job_type, message } => "job "@ + signed_decimal(
                *job_id as int,
            ) + " ("@ + job_type.name() + "): "@ + message@,
        }
    }

    /// What went wrong, in words.
    pub fn message(&self) -> (text: String)
        ensures
            text@ == self.spec_message(),
    {
        match self {
            DispatchError::Mismatch { job_id, claimed, resolved } => String::from_str(
                "job handler registry mismatch for job ",
            ).concat(signed_decimal_of(*job_id).as_str()).concat(": claimed ").concat(
                claimed.as_str(),
            ).concat(", resolved ").concat(resolved.as_str()),
            DispatchError::Failed { job_id, job_type, message } => String::from_str(
                "job ",
            ).concat(signed_decimal_of(*job_id).as_str()).concat(" (").concat(
                job_type.as_str(),
            ).concat("): ").concat(message.as_str()),
        }
    }
}

/// Checks that a handler does jobs of the type of a claimed job, before it is run.
pub fn check_handler(entry: &JobQueueEntry, handler_type: JobType) -> (result: Result<
    (),
    DispatchError,
>)
    ensures
        match result {
            Ok(()) => handler_type == entry.job_type,
            Err(error) => handler_type != entry.job_type && error == (DispatchError::Mismatch {
                job_id: entry.id,
                claimed: entry.job_type,
                resolved: handler_type,
            }),
        },
{
    if handler_type != entry.job_type {
        return Err(
            DispatchError::Mismatch {
                job_id: entry.id,
                claimed: entry.job_type,
                resolved: handler_type,
            },
        );
    }
    Ok(())
}

/// Settles a claimed job after its handler ended: a job that is done is removed, one
/// whose failure passes is set aside for a while, and any other keeps its claim until
/// that is dead.
pub fn settle_job(store: &mut Store, entry: &JobQueueEntry, result: HandlerResult, now: i64)
    -> (outcome: Result<(), DispatchError>)
    ensures
        match result {
            HandlerResult::Done => {
                &&& outcome is Ok
                &&& final(store)@ == (Tables {
                    jobs: old(store)@.jobs.completed(entry.id),
                    ..old(store)@
                })
            },
            HandlerResult::Failed { message, retry_after_secs } => {
                &&& outcome == Err::<(), DispatchError>(
                    DispatchError::Failed { job_id: entry.id, job_type: entry.job_type, message },
                )
                &&& final(store)@ == match retry_after_secs {
                    Some(secs) => Tables {
                        jobs: old(store)@.jobs.reclaimed_at(entry.id, deferred_claim(now, secs)),
                        ..old(store)@
                    },
                    None => old(store)@,
                }
            },
        },
        old(store)@.wf() ==> final(store)@.wf(),
{
    match result {
        HandlerResult::Done => {
            complete_job(store, entry.id);
            Ok(())
        },
        HandlerResult::Failed { message, retry_after_secs } => {
            match retry_after_secs {
                Some(secs) => {
                    defer_job_for_retry(store, entry.id, now, secs);
                },
                None => {},
            }
            Err(DispatchError::Failed { job_id: entry.id, job_type: entry.job_type, message })
        },
    }
}

/// Each type of jobs has the handler of its own name.
pub proof fn lemma_handlers(handler: JobHandler)
    ensures
        handler is EmbedDocument <==> handler.spec_job_type() == JobType::EmbedDocument,
        handler is IngestFolder <==> handler.spec_job_type() == JobType::IngestFolder,
        handler is IngestFolderGit <==> handler.spec_job_type() == JobType::IngestFolderGit,
{
}

} // verus!
