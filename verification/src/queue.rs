//! The job queue: which job may be queued, which one is claimed next, and what
//! becomes of a claimed job.
//!
//! A job is free until a worker claims it. A claim that is older than
//! [`STALE_JOB_AGE_SECS`] is dead: its job may be claimed or queued again.

use crate::models::{JobQueueEntry, JobRow, StoredJob};
use crate::rows::{
    first_where, is_first, lemma_first_exists, lemma_first_where, lemma_first_where_is_first,
    lemma_without_keeps, lemma_without_order, lemma_without_origin, position, remove_where, rows_of,
    without,
};
use crate::text::same_text;
use crate::types::{InvalidName, JobType};
use vstd::prelude::*;

verus! {

/// The age in seconds from which on a claim is dead.
pub const STALE_JOB_AGE_SECS: i64 = 86400;

/// The jobs, in the order of their ids, and the last id that was given out.
#[derive(Clone, Debug)]
pub struct JobTable {
    pub rows: Vec<StoredJob>,
    pub last_id: i64,
}

/// The view of a [`JobTable`].
pub struct Jobs {
    pub rows: Seq<JobRow>,
    pub last_id: i64,
}

impl View for JobTable {
    type V = Jobs;

    open spec fn view(&self) -> Jobs {
        Jobs { rows: rows_of(self.rows@), last_id: self.last_id }
    }
}

/// Whether the claim on a job is dead at the time `now`.
pub open spec fn dead_claim(row: JobRow, now: int) -> bool {
    row.claimed_at matches Some(claimed_at) && claimed_at < now - STALE_JOB_AGE_SECS
}

/// Whether a worker may claim a job at the time `now`.
pub open spec fn claimable(row: JobRow, now: int) -> bool {
    row.claimed_at is None || dead_claim(row, now)
}

/// Whether a job has this type and payload.
pub open spec fn has_key(row: JobRow, job_type: Seq<char>, payload: Seq<char>) -> bool {
    row.job_type == job_type && row.payload == payload
}

/// The property to have this type and payload.
pub open spec fn key_test(job_type: Seq<char>, payload: Seq<char>) -> spec_fn(JobRow) -> bool {
    |row: JobRow| has_key(row, job_type, payload)
}

/// The property to be claimable at the time `now`.
pub open spec fn claim_test(now: int) -> spec_fn(JobRow) -> bool {
    |row: JobRow| claimable(row, now)
}

/// The property to have this id.
pub open spec fn id_test(id: i64) -> spec_fn(JobRow) -> bool {
    |row: JobRow| row.id == id
}

impl Jobs {
    /// Ids are positive, grow from row to row and do not exceed the last one; no two
    /// jobs have the same type and payload.
    pub open spec fn wf(self) -> bool {
        &&& self.last_id >= 0
        &&& forall|i: int|
            0 <= i < self.rows.len() ==> 0 < (#[trigger] self.rows[i]).id <= self.last_id
        &&& forall|i: int, j: int|
            0 <= i < j < self.rows.len() ==> (#[trigger] self.rows[i]).id < (
            #[trigger] self.rows[j]).id
        &&& forall|i: int, j: int|
            0 <= i < self.rows.len() && 0 <= j < self.rows.len() && i != j ==> !has_key(
                #[trigger] self.rows[i],
                (#[trigger] self.rows[j]).job_type,
                self.rows[j].payload,
            )
    }

    /// The index of the job with this type and payload.
    pub open spec fn find(self, job_type: Seq<char>, payload: Seq<char>) -> Option<int> {
        first_where(self.rows, key_test(job_type, payload))
    }

    /// Whether such a job can be queued: there is none, or its claim is dead.
    pub open spec fn accepts(self, job_type: Seq<char>, payload: Seq<char>, now: int) -> bool {
        match self.find(job_type, payload) {
            Some(i) => dead_claim(self.rows[i], now),
            None => true,
        }
    }

    /// Whether queueing such a job needs a new row, and there is no id left for it.
    pub open spec fn full_for(self, job_type: Seq<char>, payload: Seq<char>) -> bool {
        self.find(job_type, payload) is None && self.last_id == i64::MAX
    }

    /// The jobs after one was queued that is accepted: a new row, or the old one set
    /// free again as of `now`.
    pub open spec fn enqueued(self, job_type: Seq<char>, payload: Seq<char>, now: i64) -> Jobs {
        match self.find(job_type, payload) {
            Some(i) => Jobs {
                rows: self.rows.update(
                    i,
                    JobRow { claimed_at: None, created_at: now, ..self.rows[i] },
                ),
                ..self
            },
            None => Jobs {
                rows: self.rows.push(
                    JobRow {
                        id: (self.last_id + 1) as i64,
                        job_type,
                        payload,
                        claimed_at: None,
                        created_at: now,
                    },
                ),
                last_id: (self.last_id + 1) as i64,
            },
        }
    }

    /// The index of the job that is claimed next.
    pub open spec fn next(self, now: int) -> Option<int> {
        first_where(self.rows, claim_test(now))
    }

    /// The jobs after the one at `i` was claimed.
    pub open spec fn claimed(self, i: int, now: i64) -> Jobs {
        Jobs {
            rows: self.rows.update(i, JobRow { claimed_at: Some(now), ..self.rows[i] }),
            ..self
        }
    }

    /// The jobs without the one with this id.
    pub open spec fn completed(self, id: i64) -> Jobs {
        Jobs { rows: without(self.rows, id_test(id)), ..self }
    }

    /// The jobs after the claim on the one with this id was set to `claimed_at`.
    pub open spec fn reclaimed_at(self, id: i64, claimed_at: i64) -> Jobs {
        Jobs {
            rows: self.rows.map_values(
                |row: JobRow|
                    if row.id == id {
                        JobRow { claimed_at: Some(claimed_at), ..row }
                    } else {
                        row
                    },
            ),
            ..self
        }
    }
}

/// Why a job was not queued.
#[derive(Clone, Copy, Debug, PartialEq, Eq, Structural)]
pub enum Refusal {
    /// Such a job is queued or in progress.
    Taken,
    /// No id is left.
    Full,
}

/// The claim that keeps a job from being claimed until `retry_after_secs` seconds
/// after `now`, as far as times go.
pub open spec fn deferred_claim(now: i64, retry_after_secs: u64) -> i64 {
    let claimed_at = now + retry_after_secs - STALE_JOB_AGE_SECS;
    if claimed_at > i64::MAX {
        i64::MAX
    } else if claimed_at < i64::MIN {
        i64::MIN
    } else {
        claimed_at as i64
    }
}

fn claim_is_dead(claimed_at: Option<i64>, now: i64) -> (dead: bool)
    ensures
        dead == (claimed_at matches Some(t) && t < now - STALE_JOB_AGE_SECS),
{
    match claimed_at {
        Some(t) => (t as i128) < now as i128 - STALE_JOB_AGE_SECS as i128,
        None => false,
    }
}

impl JobTable {
    /// Queues a job, unless it is queued or in progress. A job with a dead claim is set
    /// free again.
    pub fn enqueue(&mut self, job_type: JobType, payload: &str, now: i64) -> (result: Result<
        (),
        Refusal,
    >)
        ensures
            match result {
                Ok(()) => {
                    &&& old(self)@.accepts(job_type.name(), payload@, now as int)
                    &&& !old(self)@.full_for(job_type.name(), payload@)
                    &&& final(self)@ == old(self)@.enqueued(job_type.name(), payload@, now)
                },
                Err(Refusal::Taken) => {
                    &&& !old(self)@.accepts(job_type.name(), payload@, now as int)
                    &&& final(self)@ == old(self)@
                },
                Err(Refusal::Full) => {
                    &&& old(self)@.full_for(job_type.name(), payload@)
                    &&& final(self)@ == old(self)@
                },
            },
            old(self)@.wf() ==> final(self)@.wf(),
    {
        proof {
            if self@.wf() && !self@.full_for(job_type.name(), payload@) {
                lemma_enqueue_wf(self@, job_type.name(), payload@, now);
            }
        }
        let name = job_type.as_str();
        let ghost p = key_test(job_type.name(), payload@);
        let same_key = |row: &StoredJob| -> (same: bool)
            ensures
                same == p(row@),
            {
                same_text(row.job_type.as_str(), name) && same_text(row.payload.as_str(), payload)
            };
        let found: Option<usize> = position(&self.rows, same_key, Ghost(p));
        match found {
            Some(i) => {
                if !claim_is_dead(self.rows[i].claimed_at, now) {
                    return Err(Refusal::Taken);
                }
                self.rows[i].claimed_at = None;
                self.rows[i].created_at = now;
                proof {
                    assert(self@.rows =~= old(self)@.enqueued(job_type.name(), payload@, now).rows);
                }
                Ok(())
            },
            None => {
                if self.last_id == i64::MAX {
                    return Err(Refusal::Full);
                }
                self.last_id = self.last_id + 1;
                self.rows.push(
                    StoredJob {
                        id: self.last_id,
                        job_type: name.to_owned(),
                        payload: payload.to_owned(),
                        claimed_at: None,
                        created_at: now,
                    },
                );
                proof {
                    assert(self@.rows =~= old(self)@.enqueued(job_type.name(), payload@, now).rows);
                }
                Ok(())
            },
        }
    }

    /// Claims the free job, or the one with a dead claim, that has the lowest id. A job
    /// whose type is unknown is not claimed.
    pub fn claim(&mut self, now: i64) -> (result: Result<Option<JobQueueEntry>, InvalidName>)
        ensures
            match result {
                Ok(Some(entry)) => old(self)@.next(now as int) matches Some(i) && {
                    &&& final(self)@ == old(self)@.claimed(i, now)
                    &&& entry@ == final(self)@.rows[i]
                },
                Ok(None) => old(self)@.next(now as int) is None && final(self)@ == old(self)@,
                Err(error) => old(self)@.next(now as int) matches Some(i) && {
                    &&& forall|job_type: JobType|
                        old(self)@.rows[i].job_type != #[trigger] job_type.name()
                    &&& error.enumeration@ == "JobType"@
                    &&& error.name@ == old(self)@.rows[i].job_type
                    &&& final(self)@ == old(self)@
                },
            },
            old(self)@.wf() ==> final(self)@.wf(),
    {
        proof {
            if self@.wf() && self@.next(now as int) is Some {
                lemma_claim_is_exclusive(self@, now, now as int);
            }
        }
        let ghost p = claim_test(now as int);
        let is_free = |row: &StoredJob| -> (free: bool)
            ensures
                free == p(row@),
            { row.claimed_at.is_none() || claim_is_dead(row.claimed_at, now) };
        let found: Option<usize> = position(&self.rows, is_free, Ghost(p));
        match found {
            Some(i) => {
                match JobType::decode(self.rows[i].job_type.as_str()) {
                    Ok(job_type) => {
                        self.rows[i].claimed_at = Some(now);
                        let row: &StoredJob = &self.rows[i];
                        let entry = JobQueueEntry {
                            id: row.id,
                            job_type,
                            payload: row.payload.clone(),
                            claimed_at: row.claimed_at,
                            created_at: row.created_at,
                        };
                        proof {
                            assert(self@.rows =~= old(self)@.claimed(i as int, now).rows);
                        }
                        Ok(Some(entry))
                    },
                    Err(error) => Err(error),
                }
            },
            None => Ok(None),
        }
    }

    /// Removes a job.
    pub fn complete(&mut self, id: i64)
        ensures
            final(self)@ == old(self)@.completed(id),
            old(self)@.wf() ==> final(self)@.wf(),
    {
        proof {
            if self@.wf() {
                lemma_complete_removes(self@, id);
            }
        }
        let ghost p = id_test(id);
        let has_id = |row: &StoredJob| -> (same: bool)
            ensures
                same == p(row@),
            { row.id == id };
        remove_where(&mut self.rows, has_id, Ghost(p));
    }

    /// Sets a job aside until `retry_after_secs` seconds from now.
    pub fn defer(&mut self, id: i64, now: i64, retry_after_secs: u64)
        ensures
            final(self)@ == old(self)@.reclaimed_at(id, deferred_claim(now, retry_after_secs)),
            old(self)@.wf() ==> final(self)@.wf(),
    {
        proof {
            if self@.wf() {
                lemma_reclaimed_wf(self@, id, deferred_claim(now, retry_after_secs));
            }
        }
        let exact: i128 = now as i128 + retry_after_secs as i128 - STALE_JOB_AGE_SECS as i128;
        let claimed_at: i64 = if exact > i64::MAX as i128 {
            i64::MAX
        } else if exact < i64::MIN as i128 {
            i64::MIN
        } else {
            exact as i64
        };
        let ghost before = old(self)@.rows;
        let ghost after = old(self)@.reclaimed_at(id, claimed_at).rows;
        let mut i: usize = 0;
        while i < self.rows.len()
            invariant
                i <= self.rows.len(),
                self.last_id == old(self).last_id,
                before == old(self)@.rows,
                after == old(self)@.reclaimed_at(id, claimed_at).rows,
                self@.rows.len() == before.len(),
                forall|j: int| 0 <= j < i ==> #[trigger] self@.rows[j] == after[j],
                forall|j: int| i <= j < before.len() ==> #[trigger] self@.rows[j] == before[j],
            decreases self.rows.len() - i,
        {
            let ghost rows = self@.rows;
            if self.rows[i].id == id {
                self.rows[i].claimed_at = Some(claimed_at);
            }
            proof {
                assert(rows[i as int] == before[i as int]);
                assert(self@.rows =~= rows.update(i as int, after[i as int]));
            }
            i = i + 1;
        }
        proof {
            assert(self@.rows =~= after);
        }
    }
}

/// Queueing an accepted job keeps the queue well formed: each type and payload occurs
/// once.
pub proof fn lemma_enqueue_wf(jobs: Jobs, job_type: Seq<char>, payload: Seq<char>, now: i64)
    requires
        jobs.wf(),
        !jobs.full_for(job_type, payload),
    ensures
        jobs.enqueued(job_type, payload, now).wf(),
{
    let p = key_test(job_type, payload);
    lemma_first_where_is_first(jobs.rows, p);
    let after = jobs.enqueued(job_type, payload, now);
    assert forall|i: int, j: int|
        0 <= i < after.rows.len() && 0 <= j < after.rows.len() && i != j implies !has_key(
        #[trigger] after.rows[i],
        (#[trigger] after.rows[j]).job_type,
        after.rows[j].payload,
    ) by {
        if i < jobs.rows.len() && j < jobs.rows.len() {
            assert(!has_key(jobs.rows[i], jobs.rows[j].job_type, jobs.rows[j].payload));
        } else if i < jobs.rows.len() {
            assert(!p(jobs.rows[i]));
        } else {
            assert(!p(jobs.rows[j]));
        }
    }
}

/// A job that was queued is not accepted again, at no later or earlier time, until it
/// has been claimed.
pub proof fn lemma_queued_is_taken(
    jobs: Jobs,
    job_type: Seq<char>,
    payload: Seq<char>,
    now: i64,
    later: int,
)
    requires
        jobs.wf(),
        !jobs.full_for(job_type, payload),
    ensures
        !jobs.enqueued(job_type, payload, now).accepts(job_type, payload, later),
{
    let p = key_test(job_type, payload);
    let after = jobs.enqueued(job_type, payload, now);
    lemma_first_where_is_first(jobs.rows, p);
    match jobs.find(job_type, payload) {
        Some(i) => {
            assert forall|j: int| 0 <= j < i implies !p(#[trigger] after.rows[j]) by {
                assert(!p(jobs.rows[j]));
            }
            lemma_first_where(after.rows, p, i);
        },
        None => {
            assert forall|j: int| 0 <= j < jobs.rows.len() implies !p(#[trigger] after.rows[j]) by {
                assert(!p(jobs.rows[j]));
            }
            lemma_first_where(after.rows, p, jobs.rows.len() as int);
        },
    }
}

/// A queued job can be claimed: some job is, and none with a higher id.
pub proof fn lemma_queued_is_claimable(
    jobs: Jobs,
    job_type: Seq<char>,
    payload: Seq<char>,
    now: i64,
    later: int,
)
    requires
        jobs.wf(),
        !jobs.full_for(job_type, payload),
    ensures
        ({
            let after = jobs.enqueued(job_type, payload, now);
            &&& after.find(job_type, payload) matches Some(i) && after.next(later) matches Some(k)
                && k <= i
        }),
{
    let p = key_test(job_type, payload);
    let after = jobs.enqueued(job_type, payload, now);
    lemma_queued_is_taken(jobs, job_type, payload, now, later);
    lemma_first_where_is_first(after.rows, p);
    let i = after.find(job_type, payload).unwrap();
    assert(is_first(after.rows, p, i));
    lemma_first_where_is_first(jobs.rows, p);
    if jobs.find(job_type, payload) is None && i < jobs.rows.len() {
        assert(!p(jobs.rows[i]));
    }
    if let Some(k) = jobs.find(job_type, payload) {
        if i != k {
            assert(p(after.rows[k]));
            assert(!has_key(jobs.rows[i], jobs.rows[k].job_type, jobs.rows[k].payload));
        }
    }
    lemma_first_exists(after.rows, claim_test(later), i);
}

/// Of the jobs that can be claimed, the one with the lowest id is.
pub proof fn lemma_next_has_lowest_id(jobs: Jobs, now: int, other: int)
    requires
        jobs.wf(),
        0 <= other < jobs.rows.len(),
        claimable(jobs.rows[other], now),
    ensures
        jobs.next(now) matches Some(i) && jobs.rows[i].id <= jobs.rows[other].id,
{
    lemma_first_exists(jobs.rows, claim_test(now), other);
}

/// A claimed job stays with its worker: until its claim is dead nobody else gets it,
/// and from then on it can be claimed again.
pub proof fn lemma_claim_is_exclusive(jobs: Jobs, now: i64, later: int)
    requires
        jobs.wf(),
        jobs.next(now as int) is Some,
    ensures
        ({
            let i = jobs.next(now as int).unwrap();
            let after = jobs.claimed(i, now);
            &&& after.wf()
            &&& later <= now + STALE_JOB_AGE_SECS ==> after.next(later) != Some(i)
            &&& later > now + STALE_JOB_AGE_SECS ==> claimable(after.rows[i], later)
            &&& after.rows[i].id == jobs.rows[i].id
        }),
{
    let i = jobs.next(now as int).unwrap();
    lemma_first_where_is_first(jobs.rows, claim_test(now as int));
    let after = jobs.claimed(i, now);
    lemma_first_where_is_first(after.rows, claim_test(later));
    assert forall|a: int, b: int|
        0 <= a < after.rows.len() && 0 <= b < after.rows.len() && a != b implies !has_key(
        #[trigger] after.rows[a],
        (#[trigger] after.rows[b]).job_type,
        after.rows[b].payload,
    ) by {
        assert(!has_key(jobs.rows[a], jobs.rows[b].job_type, jobs.rows[b].payload));
    }
}

/// A completed job is gone, and every other one is still there.
pub proof fn lemma_complete_removes(jobs: Jobs, id: i64)
    requires
        jobs.wf(),
    ensures
        jobs.completed(id).wf(),
        forall|i: int|
            0 <= i < jobs.completed(id).rows.len() ==> (#[trigger] jobs.completed(id).rows[i]).id
                != id,
        forall|i: int|
            0 <= i < jobs.rows.len() && (#[trigger] jobs.rows[i]).id != id ==> jobs.completed(
                id,
            ).rows.contains(jobs.rows[i]),
{
    let p = id_test(id);
    let after = jobs.completed(id);
    assert forall|i: int| 0 <= i < after.rows.len() implies (#[trigger] after.rows[i]).id != id && 0
        < after.rows[i].id <= jobs.last_id by {
        let o = lemma_without_origin(jobs.rows, p, i);
    }
    assert forall|i: int, j: int| 0 <= i < j < after.rows.len() implies (
    #[trigger] after.rows[i]).id < (#[trigger] after.rows[j]).id && !has_key(
        after.rows[i],
        after.rows[j].job_type,
        after.rows[j].payload,
    ) by {
        let o = lemma_without_order(jobs.rows, p, i, j);
        assert(jobs.rows[o.0].id < jobs.rows[o.1].id);
        assert(!has_key(jobs.rows[o.0], jobs.rows[o.1].job_type, jobs.rows[o.1].payload));
    }
    assert forall|i: int, j: int|
        0 <= i < after.rows.len() && 0 <= j < after.rows.len() && i != j implies !has_key(
        #[trigger] after.rows[i],
        (#[trigger] after.rows[j]).job_type,
        after.rows[j].payload,
    ) by {
        if i < j {
            assert(after.rows[i].id < after.rows[j].id);
        } else {
            assert(after.rows[j].id < after.rows[i].id);
        }
    }
    assert forall|i: int|
        0 <= i < jobs.rows.len() && (#[trigger] jobs.rows[i]).id != id implies after.rows.contains(
        jobs.rows[i],
    ) by {
        let k = lemma_without_keeps(jobs.rows, p, i);
    }
}

/// To change a claim keeps the queue well formed.
pub proof fn lemma_reclaimed_wf(jobs: Jobs, id: i64, claimed_at: i64)
    requires
        jobs.wf(),
    ensures
        jobs.reclaimed_at(id, claimed_at).wf(),
{
    let after = jobs.reclaimed_at(id, claimed_at);
    assert forall|a: int, b: int|
        0 <= a < after.rows.len() && 0 <= b < after.rows.len() && a != b implies !has_key(
        #[trigger] after.rows[a],
        (#[trigger] after.rows[b]).job_type,
        after.rows[b].payload,
    ) by {
        assert(!has_key(jobs.rows[a], jobs.rows[b].job_type, jobs.rows[b].payload));
    }
}

/// A job set aside at `now` can be claimed again once more than `retry_after_secs`
/// seconds have passed, and not before.
pub proof fn lemma_deferred_until(
    jobs: Jobs,
    i: int,
    now: i64,
    retry_after_secs: u64,
    later: int,
)
    requires
        jobs.wf(),
        0 <= i < jobs.rows.len(),
        i64::MIN + STALE_JOB_AGE_SECS <= now + retry_after_secs <= i64::MAX,
    ensures
        ({
            let after = jobs.reclaimed_at(
                jobs.rows[i].id,
                deferred_claim(now, retry_after_secs),
            );
            &&& after.wf()
            &&& claimable(after.rows[i], later) <==> later > now + retry_after_secs
            &&& forall|j: int|
                0 <= j < jobs.rows.len() && j != i ==> #[trigger] after.rows[j] == jobs.rows[j]
        }),
{
    let after = jobs.reclaimed_at(jobs.rows[i].id, deferred_claim(now, retry_after_secs));
    assert forall|j: int| 0 <= j < jobs.rows.len() && j != i implies #[trigger] after.rows[j]
        == jobs.rows[j] by {
        if j < i {
            assert(jobs.rows[j].id < jobs.rows[i].id);
        } else {
            assert(jobs.rows[i].id < jobs.rows[j].id);
        }
    }
    lemma_reclaimed_wf(jobs, jobs.rows[i].id, deferred_claim(now, retry_after_secs));
}

/// Which jobs a worker may claim, told from the row: those that nobody has claimed, and
/// those that were claimed more than a day ago.
pub proof fn lemma_claimable(row: JobRow, now: int)
    ensures
        claimable(row, now) <==> (row.claimed_at matches Some(t) ==> now - t > 24 * 60 * 60),
        dead_claim(row, now) <==> row.claimed_at is Some && claimable(row, now),
{
}

/// A job that was queued stands in the queue once, free, with its time; all others are as
/// they were.
pub proof fn lemma_enqueued(jobs: Jobs, job_type: Seq<char>, payload: Seq<char>, now: i64)
    requires
        jobs.wf(),
        !jobs.full_for(job_type, payload),
    ensures
        ({
            let after = jobs.enqueued(job_type, payload, now);
            &&& exists|k: int|
                {
                    &&& 0 <= k < after.rows.len()
                    &&& (#[trigger] after.rows[k]).job_type == job_type
                    &&& after.rows[k].payload == payload
                    &&& after.rows[k].claimed_at is None
                    &&& after.rows[k].created_at == now
                }
            &&& forall|i: int|
                0 <= i < jobs.rows.len() && !((#[trigger] jobs.rows[i]).job_type == job_type
                    && jobs.rows[i].payload == payload) ==> after.rows[i] == jobs.rows[i]
            &&& jobs.rows.len() <= after.rows.len() <= jobs.rows.len() + 1
        }),
{
    let after = jobs.enqueued(job_type, payload, now);
    let p = key_test(job_type, payload);
    lemma_first_where_is_first(jobs.rows, p);
    match jobs.find(job_type, payload) {
        Some(i) => {
            assert(p(jobs.rows[i]));
            assert(after.rows[i].claimed_at is None);
        },
        None => {
            assert(after.rows[jobs.rows.len() as int].claimed_at is None);
        },
    }
}

/// A job can be queued if and only if each one of its type and payload that is there was
/// claimed more than a day ago.
pub proof fn lemma_accepts(jobs: Jobs, job_type: Seq<char>, payload: Seq<char>, now: int)
    requires
        jobs.wf(),
    ensures
        jobs.accepts(job_type, payload, now) <==> forall|i: int|
            0 <= i < jobs.rows.len() && (#[trigger] jobs.rows[i]).job_type == job_type
                && jobs.rows[i].payload == payload ==> (jobs.rows[i].claimed_at matches Some(t)
                && now - t > 24 * 60 * 60),
{
    let p = key_test(job_type, payload);
    lemma_first_where_is_first(jobs.rows, p);
    match jobs.find(job_type, payload) {
        Some(k) => {
            assert(p(jobs.rows[k]));
            assert forall|i: int|
                0 <= i < jobs.rows.len() && (#[trigger] jobs.rows[i]).job_type == job_type
                    && jobs.rows[i].payload == payload implies i == k by {
                if i != k {
                    assert(!has_key(jobs.rows[i], jobs.rows[k].job_type, jobs.rows[k].payload));
                }
            }
        },
        None => {
            assert forall|i: int| 0 <= i < jobs.rows.len() implies !((
            #[trigger] jobs.rows[i]).job_type == job_type && jobs.rows[i].payload == payload) by {
                assert(!p(jobs.rows[i]));
            }
        },
    }
}

} // verus!
