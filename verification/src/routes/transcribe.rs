//! Starting a transcription, and ending it.

use vstd::prelude::*;

use crate::job::{self, DiarizeStatus, JobStatus, SegmentEvent};
use crate::routes::{self, ApiError, ApiErrorView};
use crate::state::{AppState, AppView};
use crate::text;
use crate::transcribe::{closing_event, TranscriptionRun};

verus! {

/// A request to transcribe a job.
pub struct TranscribeRequest {
    pub model: String,
}

/// The model that is used where a request names none.
pub fn default_model() -> (model: String)
    ensures
        model@ == "small"@,
{
    "small".to_owned()
}

/// The models that a request may name.
pub open spec fn is_allowed_model(model: Seq<char>) -> bool {
    ||| model == "tiny"@ || model == "tiny-q8_0"@ || model == "tiny-q5_1"@
    ||| model == "base"@ || model == "base-q8_0"@ || model == "base-q5_1"@
    ||| model == "small"@ || model == "small-q8_0"@ || model == "small-q5_1"@
    ||| model == "medium"@ || model == "medium-q8_0"@ || model == "medium-q5_0"@
    ||| model == "large-v3"@ || model == "large-v3-q8_0"@ || model == "large-v3-q5_0"@
    ||| model == "large-v3-turbo"@ || model == "large-v3-turbo-q8_0"@ || model
        == "large-v3-turbo-q5_0"@
    ||| model == "distil-medium.en"@ || model == "distil-large-v3"@
}

/// Whether a request may name the model.
pub fn allowed_model(model: &str) -> (yes: bool)
    ensures
        yes == is_allowed_model(model@),
{
    text::same_text(model, "tiny") || text::same_text(model, "tiny-q8_0") || text::same_text(
        model,
        "tiny-q5_1",
    ) || text::same_text(model, "base") || text::same_text(model, "base-q8_0") || text::same_text(
        model,
        "base-q5_1",
    ) || text::same_text(model, "small") || text::same_text(model, "small-q8_0") || text::same_text(
        model,
        "small-q5_1",
    ) || text::same_text(model, "medium") || text::same_text(model, "medium-q8_0") || text::same_text(
        model,
        "medium-q5_0",
    ) || text::same_text(model, "large-v3") || text::same_text(model, "large-v3-q8_0") || text::same_text(
        model,
        "large-v3-q5_0",
    ) || text::same_text(model, "large-v3-turbo") || text::same_text(model, "large-v3-turbo-q8_0")
        || text::same_text(model, "large-v3-turbo-q5_0") || text::same_text(model, "distil-medium.en")
        || text::same_text(model, "distil-large-v3")
}

/// The model that a request gets: the one that it names, or the default one.
pub open spec fn chosen_model(model: Seq<char>) -> Seq<char> {
    if is_allowed_model(model) {
        model
    } else {
        "small"@
    }
}

/// Why a transcription of the job is refused, if it is.
pub open spec fn transcribe_refusal(state: AppView, id: Seq<char>) -> Option<ApiErrorView> {
    let job = state.jobs.jobs[id];
    if !state.has_job(id) {
        Some(routes::no_such_job())
    } else if job.status == JobStatus::Running || job.status == JobStatus::Queued {
        Some(routes::refusal(429, "Transcription already in progress"@))
    } else if job.diarize_status == DiarizeStatus::Running {
        Some(
            routes::refusal(
                409,
                "Diarization is in progress; wait for it to finish before re-transcribing"@,
            ),
        )
    } else if !state.slot_free {
        Some(routes::refusal(429, "A transcription is already in progress"@))
    } else {
        None
    }
}

impl AppView {
    /// The state after a transcription of the job was started.
    pub open spec fn with_transcription(self, id: Seq<char>, model: Seq<char>) -> AppView {
        AppView {
            jobs: self.jobs.updated(id, self.jobs.jobs[id].transcribing(model)),
            slot_free: false,
            ..self
        }
    }

    /// The state after a transcription of the job ended.
    pub open spec fn without_transcription(self, id: Seq<char>, run: TranscriptionRun) -> AppView {
        AppView {
            jobs: if self.has_job(id) {
                self.jobs.updated(id, self.jobs.jobs[id].transcribed(run))
            } else {
                self.jobs
            },
            slot_free: true,
            ..self
        }
    }
}

/// Starts a transcription of the job, if nothing stands against it. Returns the model
/// that is used.
pub fn transcribe(state: &mut AppState, job_id: &str, req: &TranscribeRequest) -> (out: Result<
    String,
    ApiError,
>)
    requires
        old(state).wf(),
    ensures
        final(state).wf(),
        match transcribe_refusal(old(state)@, job_id@) {
            Some(e) => routes::is_refused(out, e) && final(state)@ == old(state)@,
            None => match out {
                Ok(model) => {
                    &&& model@ == chosen_model(req.model@)
                    &&& final(state)@ == old(state)@.with_transcription(job_id@, model@)
                },
                Err(_) => false,
            },
        },
{
    let ghost before = state@;
    match state.jobs.get(job_id) {
        None => {
            return Err(routes::api_error(404, "Job not found"));
        },
        Some(j) => {
            match j.status {
                JobStatus::Running | JobStatus::Queued => {
                    return Err(routes::api_error(429, "Transcription already in progress"));
                },
                _ => {},
            }
            match j.diarize_status {
                DiarizeStatus::Running => {
                    return Err(
                        routes::api_error(
                            409,
                            "Diarization is in progress; wait for it to finish before re-transcribing",
                        ),
                    );
                },
                _ => {},
            }
        },
    }
    let model = if allowed_model(req.model.as_str()) { req.model.clone() } else { "small".to_owned() };
    if !state.transcribe_slot.try_take() {
        assert(state@ =~= before);
        return Err(routes::api_error(429, "A transcription is already in progress"));
    }
    if let Some(j) = state.jobs.get_mut(job_id) {
        let ghost job = j@;
        j.reset();
        j.model_name = model.clone();
        j.status = JobStatus::Running;
        assert(j@ =~= job.transcribing(model@));
    }
    assert(state@ =~= before.with_transcription(job_id@, model@));
    Ok(model)
}

/// Ends the transcription that holds the slot: the job takes over the outcome if it is
/// still there, and the slot is free again. Returns what the listeners are told.
pub fn end_transcription(state: &mut AppState, job_id: &str, run: TranscriptionRun) -> (event: SegmentEvent)
    requires
        old(state).wf(),
        !old(state).transcribe_slot.is_free(),
    ensures
        final(state).wf(),
        final(state)@ == old(state)@.without_transcription(job_id@, run),
        event@ == run.event(),
{
    let ghost before = state@;
    if let Some(j) = state.jobs.get_mut(job_id) {
        j.end_transcription(&run);
    }
    state.transcribe_slot.release();
    assert(state@ =~= before.without_transcription(job_id@, run));
    closing_event(&run)
}

// ── Laws ────────────────────────────────────────────────────────────────────

/// At most one job is being transcribed, and if one is, the slot is taken.
pub open spec fn one_at_a_time(state: AppView) -> bool {
    &&& forall|a: Seq<char>, b: Seq<char>|
        #![trigger state.has_job(a), state.has_job(b)]
        state.has_job(a) && state.has_job(b) && state.jobs.jobs[a].status == JobStatus::Running
            && state.jobs.jobs[b].status == JobStatus::Running ==> a == b
    &&& forall|a: Seq<char>|
        #[trigger] state.has_job(a) && state.jobs.jobs[a].status == JobStatus::Running
            ==> !state.slot_free
}

/// Starting a transcription keeps it so that one runs at most.
pub proof fn starting_keeps_one_at_a_time(state: AppView, id: Seq<char>, model: Seq<char>)
    requires
        one_at_a_time(state),
        transcribe_refusal(state, id) is None,
    ensures
        one_at_a_time(state.with_transcription(id, model)),
{
    let next = state.with_transcription(id, model);
    assert forall|a: Seq<char>| next.has_job(a) implies state.has_job(a) by {}
    assert forall|a: Seq<char>, b: Seq<char>|
        #![trigger next.has_job(a), next.has_job(b)]
        next.has_job(a) && next.has_job(b) && next.jobs.jobs[a].status == JobStatus::Running
            && next.jobs.jobs[b].status == JobStatus::Running implies a == b by {
        assert(state.has_job(a) && state.has_job(b));
    }
}

/// Ending the transcription that runs leaves none running.
pub proof fn ending_keeps_one_at_a_time(state: AppView, id: Seq<char>, run: TranscriptionRun)
    requires
        one_at_a_time(state),
        forall|a: Seq<char>|
            #[trigger] state.has_job(a) && state.jobs.jobs[a].status == JobStatus::Running ==> a == id,
    ensures
        one_at_a_time(state.without_transcription(id, run)),
        forall|a: Seq<char>| #[trigger]
            state.without_transcription(id, run).has_job(a)
                ==> state.without_transcription(id, run).jobs.jobs[a].status != JobStatus::Running,
{
    let next = state.without_transcription(id, run);
    assert forall|a: Seq<char>| #[trigger] next.has_job(a) implies next.jobs.jobs[a].status
        != JobStatus::Running by {
        assert(state.has_job(a));
    }
}

/// Adding a job keeps it so that one runs at most: a job that was just added does not.
pub proof fn adding_keeps_one_at_a_time(state: AppView, id: Seq<char>, job: job::JobView)
    requires
        one_at_a_time(state),
        job.status == JobStatus::Uploaded,
    ensures
        one_at_a_time(AppView { jobs: state.jobs.inserted(id, job), ..state }),
{
    let next = AppView { jobs: state.jobs.inserted(id, job), ..state };
    assert forall|a: Seq<char>| #[trigger] next.has_job(a) && next.jobs.jobs[a].status
        == JobStatus::Running implies state.has_job(a) && state.jobs.jobs[a] == next.jobs.jobs[a] by {}
}

/// Changing anything but the status of a job keeps it so that one runs at most.
pub proof fn other_changes_keep_one_at_a_time(state: AppView, id: Seq<char>, job: job::JobView)
    requires
        one_at_a_time(state),
        state.has_job(id),
        job.status == state.jobs.jobs[id].status,
    ensures
        one_at_a_time(AppView { jobs: state.jobs.updated(id, job), ..state }),
{
    let next = AppView { jobs: state.jobs.updated(id, job), ..state };
    assert forall|a: Seq<char>| #[trigger] next.has_job(a) implies state.has_job(a)
        && state.jobs.jobs[a].status == next.jobs.jobs[a].status by {}
}

/// A transcription is refused exactly where there is no such job, one is running for the job,
/// its speakers are being told apart, or one is running for another job, in that order.
pub proof fn a_transcription_starts_when_it_can(state: AppView, id: Seq<char>)
    ensures
        ({
            let job = state.jobs.jobs[id];
            let refused = transcribe_refusal(state, id);
            let busy = job.status == JobStatus::Running || job.status == JobStatus::Queued;
            &&& refused is None <==> state.has_job(id) && !busy && job.diarize_status
                != DiarizeStatus::Running && state.slot_free
            &&& !state.has_job(id) ==> (refused matches Some(e) && e.status == 404)
            &&& state.has_job(id) && busy ==> (refused matches Some(e) && e.status == 429)
            &&& state.has_job(id) && !busy && job.diarize_status == DiarizeStatus::Running ==> (
            refused matches Some(e) && e.status == 409)
            &&& state.has_job(id) && !busy && job.diarize_status != DiarizeStatus::Running
                && !state.slot_free ==> (refused matches Some(e) && e.status == 429)
        }),
{
}

/// A model that may be used is used; any other name stands for the small one, which may be
/// used.
pub proof fn models_that_may_be_used_are_used(model: Seq<char>)
    ensures
        is_allowed_model(chosen_model(model)),
        is_allowed_model(model) ==> chosen_model(model) == model,
        !is_allowed_model(model) ==> chosen_model(model) == "small"@,
        is_allowed_model("small"@),
{
}

/// Starting and ending a transcription leaves all other jobs, the sessions and the settings
/// as they are; it takes the slot and gives it back.
pub proof fn a_transcription_touches_one_job(
    state: AppView,
    id: Seq<char>,
    other: Seq<char>,
    model: Seq<char>,
    run: TranscriptionRun,
)
    requires
        state.has_job(other),
        other != id,
    ensures
        state.with_transcription(id, model).has_job(other),
        state.with_transcription(id, model).jobs.jobs[other] == state.jobs.jobs[other],
        !state.with_transcription(id, model).slot_free,
        state.with_transcription(id, model).auth == state.auth,
        state.without_transcription(id, run).has_job(other),
        state.without_transcription(id, run).jobs.jobs[other] == state.jobs.jobs[other],
        state.without_transcription(id, run).slot_free,
        state.without_transcription(id, run).auth == state.auth,
        !state.has_job(id) ==> state.without_transcription(id, run).jobs == state.jobs,
{
}

} // verus!
