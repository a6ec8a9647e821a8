//! The life cycle of background jobs: the status transitions that pause,
//! resume, cancel and finish a job.

use vstd::prelude::*;
use crate::text::owned;

verus! {

/// Where a job is in its life cycle.
#[derive(Clone, Copy, PartialEq, Eq, Structural, Debug)]
pub enum JobStatus {
    Queued,
    Running,
    Paused,
    Cancelling,
    Cancelled,
    Completed,
    Failed,
}

/// The status and pause flag of a job after a pause request: only a
/// running job pauses; the flag is raised exactly when the job is paused
/// afterwards, and otherwise left as it was.
pub open spec fn spec_pause(s: JobStatus, flag: bool) -> (JobStatus, bool) {
    let next = if s == JobStatus::Running { JobStatus::Paused } else { s };
    (next, if next == JobStatus::Paused { true } else { flag })
}

/// Applies a pause request (see `spec_pause`).
pub fn pause(s: JobStatus, flag: bool) -> (r: (JobStatus, bool))
    ensures
        r == spec_pause(s, flag),
{
    let next = if s == JobStatus::Running { JobStatus::Paused } else { s };
    (next, if next == JobStatus::Paused { true } else { flag })
}

/// After a resume request: a paused job runs again; the pause flag is
/// cleared in every case.
pub open spec fn spec_resume(s: JobStatus) -> (JobStatus, bool) {
    (if s == JobStatus::Paused { JobStatus::Running } else { s }, false)
}

/// Applies a resume request (see `spec_resume`).
pub fn resume(s: JobStatus) -> (r: (JobStatus, bool))
    ensures
        r == spec_resume(s),
{
    (if s == JobStatus::Paused { JobStatus::Running } else { s }, false)
}

/// A cancel request always moves the job to `Cancelling`.
pub fn request_cancel(s: JobStatus) -> (r: JobStatus)
    ensures
        r == JobStatus::Cancelling,
{
    JobStatus::Cancelling
}

/// A job counts as cancelled once cancelling or cancelled.
pub open spec fn spec_is_cancelled(s: Option<JobStatus>) -> bool {
    s == Some(JobStatus::Cancelling) || s == Some(JobStatus::Cancelled)
}

/// Whether a job counts as cancelled.
pub fn is_cancelled(s: Option<JobStatus>) -> (r: bool)
    ensures
        r == spec_is_cancelled(s),
{
    match s {
        Some(JobStatus::Cancelling) => true,
        Some(JobStatus::Cancelled) => true,
        _ => false,
    }
}

/// The status name in upper case, as stored.
pub open spec fn spec_status_upper(s: JobStatus) -> Seq<char> {
    match s {
        JobStatus::Queued => "QUEUED"@,
        JobStatus::Running => "RUNNING"@,
        JobStatus::Paused => "PAUSED"@,
        JobStatus::Cancelling => "CANCELLING"@,
        JobStatus::Cancelled => "CANCELLED"@,
        JobStatus::Completed => "COMPLETED"@,
        JobStatus::Failed => "FAILED"@,
    }
}

/// The stored name of a status.
pub fn status_upper(s: JobStatus) -> (r: String)
    ensures
        r@ == spec_status_upper(s),
{
    owned(
        match s {
            JobStatus::Queued => "QUEUED",
            JobStatus::Running => "RUNNING",
            JobStatus::Paused => "PAUSED",
            JobStatus::Cancelling => "CANCELLING",
            JobStatus::Cancelled => "CANCELLED",
            JobStatus::Completed => "COMPLETED",
            JobStatus::Failed => "FAILED",
        },
    )
}

/// Pausing a running job and then resuming it leaves it running and not
/// paused.
pub proof fn law_pause_then_resume_runs(flag: bool)
    ensures
        spec_resume(spec_pause(JobStatus::Running, flag).0) == (JobStatus::Running, false),
{
}

/// A pause request leaves any job that is not running in its status.
pub proof fn law_pause_only_affects_running(s: JobStatus, flag: bool)
    requires
        s != JobStatus::Running,
    ensures
        spec_pause(s, flag).0 == s,
{
}

/// Resuming is a no-op on the status of a job that is not paused, and
/// always clears the pause flag.
pub proof fn law_resume_clears_flag(s: JobStatus)
    ensures
        spec_resume(s).1 == false,
        s != JobStatus::Paused ==> spec_resume(s).0 == s,
{
}

/// After a cancel request the job counts as cancelled, whatever it was.
pub proof fn law_cancel_request_is_seen(s: JobStatus)
    ensures
        spec_is_cancelled(Some(JobStatus::Cancelling)),
        spec_is_cancelled(Some(JobStatus::Cancelled)),
        !spec_is_cancelled(None),
{
}

} // verus!
