//! Telling the speakers of a job apart, and how far that is.

use vstd::prelude::*;

use crate::diarize::{self, Recording, WorkerRun};
use crate::job::{self, DiarizeStatus, JobStatus, JobView, Segment, SegmentView};
use crate::models_dir::ModelsDir;
use crate::routes::{self, ApiError, ApiErrorView};
use crate::state::{AppState, AppView};
use crate::text;

verus! {

/// A request to tell the speakers of a job apart.
pub struct DiarizeRequest {
    pub num_speakers: Option<u32>,
}

/// What the worker is to do: the recording, and the number of speakers that was asked
/// for.
pub struct DiarizeTask {
    pub recording: Recording,
    pub num_speakers: Option<u32>,
}

/// Why diarization of the job is refused, if it is.
pub open spec fn diarize_refusal(state: AppView, id: Seq<char>, models: &ModelsDir) -> Option<ApiErrorView> {
    let job = state.jobs.jobs[id];
    if !state.has_job(id) {
        Some(routes::no_such_job())
    } else if job.status != JobStatus::Done {
        Some(routes::refusal(400, "Transcription must complete before diarization"@))
    } else if job.diarize_status == DiarizeStatus::Running {
        Some(routes::refusal(429, "Diarization already in progress"@))
    } else if !diarize::can_diarize(models) {
        Some(
            routes::refusal(
                503,
                "Diarization models not found. See PHASES.md for download instructions."@,
            ),
        )
    } else {
        None
    }
}

impl AppView {
    /// The state after diarization of the job was started.
    pub open spec fn with_diarization(self, id: Seq<char>, now: u64) -> AppView {
        AppView { jobs: self.jobs.updated(id, self.jobs.jobs[id].diarizing(now)), ..self }
    }

    /// The state after a run of the worker on these segments of the job.
    pub open spec fn without_diarization(
        self,
        id: Seq<char>,
        segments: Seq<SegmentView>,
        run: WorkerRun,
    ) -> AppView {
        AppView {
            jobs: if self.has_job(id) {
                self.jobs.updated(id, self.jobs.jobs[id].after_worker(segments, run))
            } else {
                self.jobs
            },
            ..self
        }
    }
}

/// Starts diarization of the job, if nothing stands against it. Hands out a copy of the
/// recording.
pub fn diarize(
    state: &mut AppState,
    job_id: &str,
    req: &DiarizeRequest,
    models: &ModelsDir,
    now: u64,
) -> (out: Result<DiarizeTask, ApiError>)
    requires
        old(state).wf(),
    ensures
        final(state).wf(),
        match diarize_refusal(old(state)@, job_id@, models) {
            Some(e) => routes::is_refused(out, e) && final(state)@ == old(state)@,
            None => match out {
                Ok(task) => {
                    let job = old(state)@.jobs.jobs[job_id@];
                    &&& final(state)@ == old(state)@.with_diarization(job_id@, now)
                    &&& task.num_speakers == req.num_speakers
                    &&& task.recording.audio_data@ == job.audio_data
                    &&& task.recording.audio_ext@ == job.audio_ext
                    &&& job::segment_views(task.recording.segments@) == job.segments
                },
                Err(_) => false,
            },
        },
{
    let ghost before = state@;
    match state.jobs.get(job_id) {
        None => {
            return Err(routes::api_error(404, "Job not found"));
        },
        Some(j) => {
            match j.status {
                JobStatus::Done => {},
                _ => {
                    return Err(
                        routes::api_error(400, "Transcription must complete before diarization"),
                    );
                },
            }
            match j.diarize_status {
                DiarizeStatus::Running => {
                    return Err(routes::api_error(429, "Diarization already in progress"));
                },
                _ => {},
            }
        },
    }
    if !diarize::models_available(models) {
        return Err(
            routes::api_error(
                503,
                "Diarization models not found. See PHASES.md for download instructions.",
            ),
        );
    }
    match state.jobs.get_mut(job_id) {
        Some(j) => {
            let recording = j.begin_diarization(now);
            assert(state@ =~= before.with_diarization(job_id@, now));
            Ok(DiarizeTask { recording, num_speakers: req.num_speakers })
        },
        None => Err(routes::api_error(404, "Job not found")),
    }
}

/// Ends diarization: the job takes over what the worker gave for these segments, if it
/// is still there.
pub fn end_diarization(state: &mut AppState, job_id: &str, segments: &[Segment], run: WorkerRun)
    requires
        old(state).wf(),
    ensures
        final(state).wf(),
        final(state)@ == old(state)@.without_diarization(
            job_id@,
            job::segment_views(segments@),
            run,
        ),
{
    let ghost before = state@;
    if let Some(j) = state.jobs.get_mut(job_id) {
        j.end_diarization(segments, run);
    }
    assert(state@ =~= before.without_diarization(job_id@, job::segment_views(segments@), run));
}

/// How far diarization of a job is.
pub struct DiarizeReport {
    pub diarize_status: DiarizeStatus,
    pub diarize_error: Option<String>,
    pub speakers: Vec<String>,
    pub stage: String,
    /// In percent.
    pub progress: u32,
    /// How long ago it started, in tenths of a second.
    pub elapsed_tenths: u64,
    /// The segments with their speakers, once it is done.
    pub segments: Option<Vec<Segment>>,
}

/// The values of a report on diarization.
#[verifier::ext_equal]
pub struct DiarizeReportView {
    pub diarize_status: DiarizeStatus,
    pub diarize_error: Option<Seq<char>>,
    pub speakers: Seq<Seq<char>>,
    pub stage: Seq<char>,
    pub progress: nat,
    pub elapsed_tenths: nat,
    pub segments: Option<Seq<SegmentView>>,
}

impl View for DiarizeReport {
    type V = DiarizeReportView;

    open spec fn view(&self) -> DiarizeReportView {
        DiarizeReportView {
            diarize_status: self.diarize_status,
            diarize_error: text::opt_text(self.diarize_error),
            speakers: text::texts(self.speakers@),
            stage: self.stage@,
            progress: self.progress as nat,
            elapsed_tenths: self.elapsed_tenths as nat,
            segments: match self.segments {
                Some(s) => Some(job::segment_views(s@)),
                None => None,
            },
        }
    }
}

/// The time since a start in tenths of a second, rounded half up; none where there was
/// no start.
pub open spec fn tenths_since(start: Option<u64>, now: u64) -> nat {
    match start {
        Some(t) if now > t => ((now - t + 50) / 100) as nat,
        _ => 0,
    }
}

/// The time since a start in tenths of a second.
pub fn elapsed_tenths(start: Option<u64>, now: u64) -> (tenths: u64)
    ensures
        tenths == tenths_since(start, now),
{
    match start {
        Some(t) => {
            if now > t {
                let ms: u64 = now - t;
                ms / 100 + (ms % 100 + 50) / 100
            } else {
                0
            }
        },
        None => 0,
    }
}

/// The report on a job at the given time.
pub open spec fn diarize_report(job: JobView, now: u64) -> DiarizeReportView {
    DiarizeReportView {
        diarize_status: job.diarize_status,
        diarize_error: job.diarize_error,
        speakers: job.diarize_speakers,
        stage: job.diarize_stage,
        progress: job.diarize_progress,
        elapsed_tenths: tenths_since(job.diarize_start, now),
        segments: if job.diarize_status == DiarizeStatus::Done {
            Some(job.segments)
        } else {
            None
        },
    }
}

/// How far diarization of a job is.
pub fn diarize_status(state: &AppState, job_id: &str, now: u64) -> (out: Result<DiarizeReport, ApiError>)
    requires
        state.wf(),
    ensures
        if state@.has_job(job_id@) {
            match out {
                Ok(report) => report@ == diarize_report(state@.jobs.jobs[job_id@], now),
                Err(_) => false,
            }
        } else {
            routes::is_refused(out, routes::no_such_job())
        },
{
    match state.jobs.get(job_id) {
        None => Err(routes::api_error(404, "Job not found")),
        Some(j) => {
            let segments = match j.diarize_status {
                DiarizeStatus::Done => Some(job::clone_segments(&j.segments)),
                _ => None,
            };
            let report = DiarizeReport {
                diarize_status: j.diarize_status,
                diarize_error: text::clone_opt(&j.diarize_error),
                speakers: text::clone_texts(&j.diarize_speakers),
                stage: j.diarize_stage.clone(),
                progress: j.diarize_progress,
                elapsed_tenths: elapsed_tenths(j.diarize_start, now),
                segments,
            };
            assert(report@ =~= diarize_report(j@, now));
            Ok(report)
        },
    }
}

/// Diarization needs a transcription that is done.
pub proof fn diarization_needs_a_transcript(state: AppView, id: Seq<char>, models: &ModelsDir)
    requires
        state.has_job(id),
        state.jobs.jobs[id].status != JobStatus::Done,
    ensures
        diarize_refusal(state, id, models) matches Some(e) && e.status == 400,
{
}

/// From its start to its end, diarization of a job is not started again, whatever
/// happens to other jobs.
pub proof fn one_diarization_per_job(state: AppView, id: Seq<char>, models: &ModelsDir, now: u64)
    requires
        diarize_refusal(state, id, models) is None,
    ensures
        diarize_refusal(state.with_diarization(id, now), id, models) matches Some(e) && e.status
            == 429,
{
}


/// Diarization leaves the recording where it is: it is there while the speakers are being
/// told apart and after that, however the worker ended.
pub proof fn diarization_keeps_the_recording(
    job: JobView,
    now: u64,
    segments: Seq<SegmentView>,
    run: WorkerRun,
)
    ensures
        job.diarizing(now).audio_data == job.audio_data,
        job.diarizing(now).audio_ext == job.audio_ext,
        job.diarizing(now).after_worker(segments, run).audio_data == job.audio_data,
        job.diarizing(now).after_worker(segments, run).audio_ext == job.audio_ext,
{
}

/// Diarization is refused exactly where there is no such job, no finished transcript, one
/// is running for the job, or a model is missing, in that order.
pub proof fn diarization_starts_when_it_can(state: AppView, id: Seq<char>, models: &ModelsDir)
    ensures
        ({
            let job = state.jobs.jobs[id];
            let refused = diarize_refusal(state, id, models);
            &&& refused is None <==> state.has_job(id) && job.status == JobStatus::Done
                && job.diarize_status != DiarizeStatus::Running && diarize::can_diarize(models)
            &&& !state.has_job(id) ==> (refused matches Some(e) && e.status == 404)
            &&& state.has_job(id) && job.status != JobStatus::Done ==> (refused matches Some(e)
                && e.status == 400)
            &&& state.has_job(id) && job.status == JobStatus::Done && job.diarize_status
                == DiarizeStatus::Running ==> (refused matches Some(e) && e.status == 429)
            &&& state.has_job(id) && job.status == JobStatus::Done && job.diarize_status
                != DiarizeStatus::Running && !diarize::can_diarize(models) ==> (refused matches Some(e)
                && e.status == 503)
        }),
{
}

/// The time since the start is in tenths of a second to the nearest one; there is none
/// before the start.
pub proof fn elapsed_time_is_in_tenths(start: u64, now: u64)
    ensures
        now >= start ==> 100 * tenths_since(Some(start), now) - 50 <= now - start < 100 * tenths_since(
            Some(start),
            now,
        ) + 50,
        now <= start ==> tenths_since(Some(start), now) == 0,
        tenths_since(None, now) == 0,
{
}

/// Starting and ending diarization of a job leaves all other jobs, the slot, the sessions
/// and the settings as they are.
pub proof fn diarization_touches_one_job(
    state: AppView,
    id: Seq<char>,
    other: Seq<char>,
    now: u64,
    segments: Seq<SegmentView>,
    run: WorkerRun,
)
    requires
        state.has_job(other),
        other != id,
    ensures
        state.with_diarization(id, now).jobs.jobs[other] == state.jobs.jobs[other],
        state.with_diarization(id, now).has_job(other),
        state.with_diarization(id, now).slot_free == state.slot_free,
        state.with_diarization(id, now).auth == state.auth,
        state.without_diarization(id, segments, run).has_job(other),
        state.without_diarization(id, segments, run).jobs.jobs[other] == state.jobs.jobs[other],
        state.without_diarization(id, segments, run).slot_free == state.slot_free,
        state.without_diarization(id, segments, run).auth == state.auth,
        !state.has_job(id) ==> state.without_diarization(id, segments, run) == state,
{
}

/// A report says of a job what it holds, and shows the segments once they have speakers.
pub proof fn reports_say_how_far_it_is(job: JobView, now: u64)
    ensures
        ({
            let report = diarize_report(job, now);
            &&& report.diarize_status == job.diarize_status
            &&& report.diarize_error == job.diarize_error
            &&& report.speakers == job.diarize_speakers
            &&& report.stage == job.diarize_stage
            &&& report.progress == job.diarize_progress
            &&& job.diarize_status == DiarizeStatus::Done ==> report.segments == Some(job.segments)
            &&& job.diarize_status != DiarizeStatus::Done ==> report.segments is None
        }),
{
}

} // verus!
