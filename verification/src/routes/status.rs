//! The state of a job.

use vstd::prelude::*;

use crate::job::JobStatus;
use crate::routes::{self, ApiError};
use crate::state::AppState;
use crate::text;

verus! {

/// The state of a job.
pub struct StatusReport {
    pub job_id: String,
    pub status: JobStatus,
    pub model: String,
    pub segment_count: usize,
    pub error: Option<String>,
}

/// The state of a job.
pub fn status(state: &AppState, job_id: &str) -> (out: Result<StatusReport, ApiError>)
    requires
        state.wf(),
    ensures
        if state@.has_job(job_id@) {
            match out {
                Ok(report) => {
                    let job = state@.jobs.jobs[job_id@];
                    &&& report.job_id@ == job.job_id
                    &&& report.status == job.status
                    &&& report.model@ == job.model_name
                    &&& report.segment_count == job.segments.len()
                    &&& text::opt_text(report.error) == job.error
                },
                Err(_) => false,
            }
        } else {
            routes::is_refused(out, routes::no_such_job())
        },
{
    match state.jobs.get(job_id) {
        None => Err(routes::api_error(404, "Job not found")),
        Some(j) => Ok(
            StatusReport {
                job_id: j.job_id.clone(),
                status: j.status,
                model: j.model_name.clone(),
                segment_count: j.segments.len(),
                error: text::clone_opt(&j.error),
            },
        ),
    }
}

} // verus!
