//! The background consolidation scheduler's decisions. The runtime owns the
//! timers and the job channel; these functions decide what each step does to
//! the shared scheduler state.
use vstd::prelude::*;

use crate::consolidate::ConsolidateReport;
use crate::error::BiError;
use crate::text::{append_chars, chars_of, string_of};

verus! {

/// Seconds between scheduled runs (six hours).
pub const INTERVAL_SECS: u64 = 21600;

/// Seconds to wait after start-up before the first scheduled run.
pub const STARTUP_DELAY_SECS: u64 = 60;

/// How many manual jobs may wait in the channel.
pub const JOB_CHANNEL_CAPACITY: usize = 8;

/// What the scheduler reports.
#[derive(Debug, Clone, Copy, PartialEq, Eq, Structural)]
pub struct ConsolidateStatus {
    pub last_run_at: Option<i64>,
    pub next_run_in_secs: u64,
    pub last_report: Option<ConsolidateReport>,
    pub running: bool,
    pub interval_secs: u64,
    pub queued: bool,
}

/// The state shared by the periodic loop, the manual worker and status
/// queries. `last_finish` is a monotonic clock reading in seconds.
#[derive(Debug, Clone, Copy, PartialEq, Eq, Structural)]
pub struct SchedulerShared {
    pub last_run_at: Option<i64>,
    pub last_report: Option<ConsolidateReport>,
    pub running: bool,
    pub last_finish: Option<u64>,
    /// A manual job is waiting for the current run to finish.
    pub queued: bool,
}

/// A manual consolidation request; no project means every project.
#[derive(Debug, Clone, PartialEq, Eq)]
pub struct ManualJob {
    pub project_id: Option<String>,
}

impl SchedulerShared {
    pub fn new() -> (s: Self)
        ensures
            s.last_run_at is None && s.last_report is None && !s.running,
            s.last_finish is None && !s.queued,
    {
        SchedulerShared {
            last_run_at: None,
            last_report: None,
            running: false,
            last_finish: None,
            queued: false,
        }
    }
}

/// Seconds until the next scheduled run: none while a run is going on or a
/// manual job waits, the rest of the interval after a finished run, the
/// whole interval before the first one.
pub open spec fn next_run_in(s: SchedulerShared, now: u64) -> u64 {
    if s.running || s.queued {
        0
    } else {
        match s.last_finish {
            Some(f) => {
                let elapsed: int = if now >= f {
                    now - f
                } else {
                    0
                };
                if elapsed >= INTERVAL_SECS {
                    0
                } else {
                    (INTERVAL_SECS - elapsed) as u64
                }
            },
            None => INTERVAL_SECS,
        }
    }
}

/// Before the first run, with nothing running or queued, the next scheduled
/// run is a whole interval away, whatever the time. After a run the wait
/// plus the time since the run finished makes up the interval (no wait once
/// it has passed; a clock reading before the finish counts as no time). The
/// wait never exceeds the interval, and while a run is going on or a job
/// waits it is none.
pub proof fn lemma_next_run_bounds(s: SchedulerShared, now: u64)
    ensures
        !s.running && !s.queued && s.last_finish is None ==> next_run_in(s, now) == INTERVAL_SECS,
        next_run_in(s, now) <= INTERVAL_SECS,
        s.running || s.queued ==> next_run_in(s, now) == 0,
        !s.running && !s.queued && s.last_finish == Some(now) ==> next_run_in(s, now) == INTERVAL_SECS,
        !s.running && !s.queued && s.last_finish is Some && s.last_finish.unwrap() <= now ==> next_run_in(s, now)
            + (if now - s.last_finish.unwrap() < INTERVAL_SECS {
            now - s.last_finish.unwrap()
        } else {
            INTERVAL_SECS as int
        }) == INTERVAL_SECS,
        !s.running && !s.queued && s.last_finish is Some && now < s.last_finish.unwrap() ==> next_run_in(s, now)
            == INTERVAL_SECS,
{
}

/// The status at monotonic time `now` (seconds).
pub fn get_status(s: &SchedulerShared, now: u64) -> (st: ConsolidateStatus)
    ensures
        st.last_run_at == s.last_run_at,
        st.last_report == s.last_report,
        st.running == s.running,
        st.queued == s.queued,
        st.interval_secs == INTERVAL_SECS,
        st.next_run_in_secs == next_run_in(*s, now),
{
    let next = if s.running || s.queued {
        0
    } else {
        match s.last_finish {
            Some(f) => {
                let elapsed = now.saturating_sub(f);
                INTERVAL_SECS.saturating_sub(elapsed)
            },
            None => INTERVAL_SECS,
        }
    };
    ConsolidateStatus {
        last_run_at: s.last_run_at,
        next_run_in_secs: next,
        last_report: s.last_report,
        running: s.running,
        interval_secs: INTERVAL_SECS,
        queued: s.queued,
    }
}

/// What a manual request asks the runtime to do.
#[derive(Debug, Clone, Copy, PartialEq, Eq, Structural)]
pub enum EnqueueStep {
    /// A run is going on: the request was folded into one queued job.
    Coalesced,
    /// Hand the job to the worker channel.
    Send,
}

/// The refusal of a manual request for a project that does not exist.
pub open spec fn missing_project_message(project_id: Seq<char>) -> Seq<char> {
    "project '"@ + project_id + "' does not exist"@
}

/// A manual request for `project_id` (none: every project), given whether
/// that project exists and whether the worker was started. A request for a
/// missing project is refused and changes nothing; while a run is going on
/// the request is coalesced into one queued job and nothing is sent; with no
/// worker started it fails and changes nothing; otherwise the job is to be
/// sent.
pub fn enqueue(
    s: &mut SchedulerShared,
    project_id: Option<&str>,
    project_exists: bool,
    worker_started: bool,
) -> (r: Result<EnqueueStep, BiError>)
    ensures
        project_id is Some && !project_exists ==> *final(s) == *old(s) && (r matches Err(
            BiError::Invalid(m),
        ) && m@ == missing_project_message(project_id.unwrap()@)),
        (project_id is None || project_exists) && old(s).running ==> r == Ok::<
            EnqueueStep,
            BiError,
        >(EnqueueStep::Coalesced) && *final(s) == (SchedulerShared { queued: true, ..*old(s) }),
        (project_id is None || project_exists) && !old(s).running && !worker_started ==> *final(s)
            == *old(s) && (r matches Err(BiError::Internal(m)) && m@
            == "consolidate worker has not been started yet"@),
        (project_id is None || project_exists) && !old(s).running && worker_started ==> r == Ok::<
            EnqueueStep,
            BiError,
        >(EnqueueStep::Send) && *final(s) == *old(s),
{
    if let Some(p) = project_id {
        if !project_exists {
            let mut m: Vec<char> = chars_of("project '");
            append_chars(&mut m, chars_of(p).as_slice());
            append_chars(&mut m, chars_of("' does not exist").as_slice());
            return Err(BiError::Invalid(string_of(m.as_slice())));
        }
    }
    if s.running {
        s.queued = true;
        Ok(EnqueueStep::Coalesced)
    } else if !worker_started {
        Err(BiError::Internal("consolidate worker has not been started yet".to_owned()))
    } else {
        Ok(EnqueueStep::Send)
    }
}

/// How handing a job to the worker channel went.
#[derive(Debug, Clone, Copy, PartialEq, Eq, Structural)]
pub enum SendOutcome {
    Sent,
    /// The channel was full: the job counts as queued.
    Full,
    /// The worker is gone.
    Closed,
    /// The worker was never started.
    NotStarted,
}

/// Records the outcome of handing a job over.
pub fn after_send(s: &mut SchedulerShared, outcome: SendOutcome) -> (r: Result<(), BiError>)
    ensures
        outcome == SendOutcome::Sent ==> r is Ok && *final(s) == *old(s),
        outcome == SendOutcome::Full ==> r is Ok && *final(s) == (SchedulerShared {
            queued: true,
            ..*old(s)
        }),
        outcome == SendOutcome::Closed ==> *final(s) == *old(s) && (r matches Err(
            BiError::Internal(m),
        ) && m@ == "consolidate worker is not running"@),
        outcome == SendOutcome::NotStarted ==> *final(s) == *old(s) && (r matches Err(
            BiError::Internal(m),
        ) && m@ == "consolidate worker has not been started yet"@),
{
    match outcome {
        SendOutcome::Sent => Ok(()),
        SendOutcome::Full => {
            s.queued = true;
            Ok(())
        },
        SendOutcome::Closed => Err(BiError::Internal("consolidate worker is not running".to_owned())),
        SendOutcome::NotStarted => Err(
            BiError::Internal("consolidate worker has not been started yet".to_owned()),
        ),
    }
}

/// The worker took a job off the channel: nothing waits any more.
pub fn job_received(s: &mut SchedulerShared)
    ensures
        *final(s) == (SchedulerShared { queued: false, ..*old(s) }),
{
    s.queued = false;
}

/// Tries to start a run; a run already going on makes this one a no-op.
pub fn begin_run(s: &mut SchedulerShared) -> (started: bool)
    ensures
        started == !old(s).running,
        started ==> *final(s) == (SchedulerShared { running: true, ..*old(s) }),
        !started ==> *final(s) == *old(s),
{
    if s.running {
        false
    } else {
        s.running = true;
        true
    }
}

/// Ends a run at wall time `now_ms` and monotonic time `now`; a successful
/// run records its report.
pub fn finish_run(
    s: &mut SchedulerShared,
    report: Option<ConsolidateReport>,
    now_ms: i64,
    now: u64,
)
    ensures
        !final(s).running,
        final(s).last_finish == Some(now),
        final(s).queued == old(s).queued,
        report matches Some(r) ==> final(s).last_run_at == Some(now_ms) && final(s).last_report
            == Some(r),
        report is None ==> final(s).last_run_at == old(s).last_run_at && final(s).last_report
            == old(s).last_report,
{
    s.running = false;
    s.last_finish = Some(now);
    if let Some(r) = report {
        s.last_run_at = Some(now_ms);
        s.last_report = Some(r);
    }
}

/// While a run goes on, any number of manual requests leave exactly one
/// queued job and send nothing; the status then reports no wait.
pub proof fn lemma_requests_coalesce(s: SchedulerShared, a: SchedulerShared, b: SchedulerShared)
    requires
        s.running,
        a == (SchedulerShared { queued: true, ..s }),
        b == (SchedulerShared { queued: true, ..a }),
    ensures
        b == a,
        b.queued,
        forall|now: u64| next_run_in(b, now) == 0,
{
}

} // verus!
