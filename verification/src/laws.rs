//! What every request keeps, whatever the order in which requests come.

use vstd::prelude::*;

use crate::diarize::WorkerRun;
use crate::job::{self, DiarizeStatus, JobStatus, JobStoreView, JobView, SegmentView};
use crate::models_dir::ModelsDir;
use crate::routes::diarize;
use crate::routes::summarize::{self, SummaryRun};
use crate::routes::transcribe;
use crate::state::AppView;
use crate::transcribe::TranscriptionRun;

verus! {

impl AppView {
    /// The speakers of a job are told apart only once it was transcribed.
    pub open spec fn diarizes_transcripts(self) -> bool {
        forall|id: Seq<char>|
            #[trigger] self.has_job(id) && self.jobs.jobs[id].diarize_status == DiarizeStatus::Running
                ==> self.jobs.jobs[id].status == JobStatus::Done
    }

    /// Every job is kept under its own identifier.
    pub open spec fn keeps_identifiers(self) -> bool {
        forall|id: Seq<char>| #[trigger] self.has_job(id) ==> self.jobs.jobs[id].job_id == id
    }

    /// There are no more jobs than the limit, each under its own identifier; at most one
    /// is being transcribed, by the one who holds the slot; and speakers are told apart
    /// only in transcripts.
    pub open spec fn is_sound(self) -> bool {
        &&& self.jobs.is_bounded()
        &&& self.keeps_identifiers()
        &&& transcribe::one_at_a_time(self)
        &&& self.diarizes_transcripts()
    }
}

/// At the start the state is sound.
pub proof fn the_start_is_sound(state: AppView)
    requires
        state.jobs == JobStoreView::none(),
    ensures
        state.is_sound(),
{
    job::empty_store_is_bounded();
}

/// Taking in a recording under a new identifier keeps the state sound.
pub proof fn uploading_keeps_it_sound(
    state: AppView,
    id: Seq<char>,
    filename: Seq<char>,
    ext: Seq<char>,
    data: Seq<u8>,
)
    requires
        state.is_sound(),
        !state.has_job(id),
    ensures
        state.with_upload(id, filename, ext, data).is_sound(),
{
    let next = state.with_upload(id, filename, ext, data);
    let job = next.jobs.jobs[id];
    job::store_stays_bounded(state.jobs, id, job);
    transcribe::adding_keeps_one_at_a_time(state, id, job);
    assert(next =~= (AppView { jobs: state.jobs.inserted(id, job), ..state }));
    assert forall|a: Seq<char>| #[trigger] next.has_job(a) && a != id implies state.has_job(a)
        && next.jobs.jobs[a] == state.jobs.jobs[a] by {}
}

proof fn lemma_changed_job(state: AppView, id: Seq<char>, job: JobView)
    requires
        state.is_sound(),
        state.has_job(id),
        job.job_id == id,
        job.diarize_status == DiarizeStatus::Running ==> job.status == JobStatus::Done,
    ensures
        state.with_job(id, job).jobs.is_bounded(),
        state.with_job(id, job).keeps_identifiers(),
        state.with_job(id, job).diarizes_transcripts(),
{
    let next = state.with_job(id, job);
    job::changes_keep_the_bound(state.jobs, id, job);
    assert forall|a: Seq<char>| #[trigger] next.has_job(a) && a != id implies state.has_job(a)
        && next.jobs.jobs[a] == state.jobs.jobs[a] by {}
}

/// Starting a transcription keeps the state sound.
pub proof fn transcribing_keeps_it_sound(state: AppView, id: Seq<char>, model: Seq<char>)
    requires
        state.is_sound(),
        transcribe::transcribe_refusal(state, id) is None,
    ensures
        state.with_transcription(id, model).is_sound(),
{
    let job = state.jobs.jobs[id].transcribing(model);
    lemma_changed_job(state, id, job);
    transcribe::starting_keeps_one_at_a_time(state, id, model);
    let next = state.with_transcription(id, model);
    let same = state.with_job(id, job);
    assert(next.jobs == same.jobs);
    assert forall|a: Seq<char>| #[trigger] next.has_job(a) implies same.has_job(a) by {}
}

/// Ending the transcription that runs keeps the state sound, also if its job was dropped
/// meanwhile.
pub proof fn ending_transcription_keeps_it_sound(state: AppView, id: Seq<char>, run: TranscriptionRun)
    requires
        state.is_sound(),
        state.has_job(id) ==> state.jobs.jobs[id].status == JobStatus::Running,
        forall|a: Seq<char>|
            #[trigger] state.has_job(a) && state.jobs.jobs[a].status == JobStatus::Running ==> a == id,
    ensures
        state.without_transcription(id, run).is_sound(),
{
    let next = state.without_transcription(id, run);
    transcribe::ending_keeps_one_at_a_time(state, id, run);
    if state.has_job(id) {
        let job = state.jobs.jobs[id].transcribed(run);
        lemma_changed_job(state, id, job);
        let same = state.with_job(id, job);
        assert(next.jobs == same.jobs);
        assert forall|a: Seq<char>| #[trigger] next.has_job(a) implies same.has_job(a) by {}
    } else {
        assert forall|a: Seq<char>| #[trigger] next.has_job(a) implies state.has_job(a) by {}
    }
}

proof fn lemma_other_change(state: AppView, id: Seq<char>, job: JobView)
    requires
        state.is_sound(),
        state.has_job(id),
        job.job_id == state.jobs.jobs[id].job_id,
        job.status == state.jobs.jobs[id].status,
        job.diarize_status == DiarizeStatus::Running ==> job.status == JobStatus::Done,
    ensures
        state.with_job(id, job).is_sound(),
{
    lemma_changed_job(state, id, job);
    transcribe::other_changes_keep_one_at_a_time(state, id, job);
}

/// Starting diarization keeps the state sound.
pub proof fn diarizing_keeps_it_sound(state: AppView, id: Seq<char>, models: &ModelsDir, now: u64)
    requires
        state.is_sound(),
        diarize::diarize_refusal(state, id, models) is None,
    ensures
        state.with_diarization(id, now).is_sound(),
{
    lemma_other_change(state, id, state.jobs.jobs[id].diarizing(now));
}

/// Ending diarization keeps the state sound, also if the job was dropped meanwhile.
pub proof fn ending_diarization_keeps_it_sound(
    state: AppView,
    id: Seq<char>,
    segments: Seq<SegmentView>,
    run: WorkerRun,
)
    requires
        state.is_sound(),
    ensures
        state.without_diarization(id, segments, run).is_sound(),
{
    let next = state.without_diarization(id, segments, run);
    if state.has_job(id) {
        lemma_other_change(state, id, state.jobs.jobs[id].after_worker(segments, run));
    } else {
        assert(next =~= state);
    }
}

/// Starting a summary keeps the state sound.
pub proof fn summarizing_keeps_it_sound(
    state: AppView,
    id: Seq<char>,
    names: Option<Seq<(Seq<char>, Seq<char>)>>,
    now: u64,
)
    requires
        state.is_sound(),
        summarize::summarize_refusal(state, id) is None,
    ensures
        state.with_job(id, state.jobs.jobs[id].summarizing(names, now)).is_sound(),
{
    lemma_other_change(state, id, state.jobs.jobs[id].summarizing(names, now));
}

/// A piece of a summary, and its end, keep the state sound, also if the job was dropped
/// meanwhile.
pub proof fn summaries_keep_it_sound(state: AppView, id: Seq<char>, piece: Seq<char>, run: SummaryRun)
    requires
        state.is_sound(),
    ensures
        state.with_summary_piece(id, piece).is_sound(),
        state.without_summary(id, run).is_sound(),
{
    if state.has_job(id) {
        lemma_other_change(state, id, state.jobs.jobs[id].with_piece(piece));
        lemma_other_change(state, id, state.jobs.jobs[id].summarized(run));
    }
}

/// In a sound state, a job whose speakers are being told apart is not transcribed again:
/// the request is answered with 409.
pub proof fn no_transcription_during_diarization(state: AppView, id: Seq<char>)
    requires
        state.is_sound(),
        state.has_job(id),
        state.jobs.jobs[id].diarize_status == DiarizeStatus::Running,
    ensures
        transcribe::transcribe_refusal(state, id) matches Some(e) && e.status == 409,
{
}

/// Once its speakers were told apart, a job can be transcribed again, from the recording
/// that was uploaded.
pub proof fn transcription_after_diarization(
    state: AppView,
    id: Seq<char>,
    models: &ModelsDir,
    now: u64,
    segments: Seq<SegmentView>,
    run: WorkerRun,
    model: Seq<char>,
)
    requires
        diarize::diarize_refusal(state, id, models) is None,
        state.slot_free,
    ensures
        ({
            let done = state.with_diarization(id, now).without_diarization(id, segments, run);
            &&& transcribe::transcribe_refusal(done, id) is None
            &&& done.with_transcription(id, model).jobs.jobs[id].audio_data
                == state.jobs.jobs[id].audio_data
        }),
{
}

/// In a sound state, while a transcription runs, every request for one is answered with
/// 429, unless there is no such job or its speakers are being told apart.
pub proof fn a_second_transcription_is_refused(state: AppView, running: Seq<char>, id: Seq<char>)
    requires
        state.is_sound(),
        state.has_job(running),
        state.jobs.jobs[running].status == JobStatus::Running,
        state.has_job(id),
        state.jobs.jobs[id].diarize_status != DiarizeStatus::Running,
    ensures
        transcribe::transcribe_refusal(state, id) matches Some(e) && e.status == 429,
{
}

/// A transcription that was refused a slot is given one when the running one has ended.
pub proof fn the_slot_comes_back(state: AppView, running: Seq<char>, id: Seq<char>, run: TranscriptionRun)
    requires
        state.is_sound(),
        state.has_job(id),
        id != running,
        state.jobs.jobs[id].status == JobStatus::Uploaded,
    ensures
        transcribe::transcribe_refusal(state.without_transcription(running, run), id) is None,
{
    assert(state.jobs.jobs[id].diarize_status != DiarizeStatus::Running);
}

/// A job goes from its upload to its transcript: what was taken in, transcribed without
/// an error and not dropped has the segments that the model gave, and its speakers can be
/// told apart.
pub proof fn from_upload_to_transcript(
    state: AppView,
    id: Seq<char>,
    filename: Seq<char>,
    ext: Seq<char>,
    data: Seq<u8>,
    model: Seq<char>,
    run: TranscriptionRun,
    models: &ModelsDir,
)
    requires
        state.is_sound(),
        state.slot_free,
        run is Done,
        crate::diarize::can_diarize(models),
    ensures
        ({
            let uploaded = state.with_upload(id, filename, ext, data);
            let started = uploaded.with_transcription(id, model);
            let done = started.without_transcription(id, run);
            &&& transcribe::transcribe_refusal(uploaded, id) is None
            &&& started.jobs.jobs[id].audio_data == data
            &&& done.jobs.jobs[id].status == JobStatus::Done
            &&& Ok::<Seq<SegmentView>, Seq<char>>(done.jobs.jobs[id].segments) == run.result()
            &&& done.slot_free
            &&& diarize::diarize_refusal(done, id, models) is None
        }),
{
}

} // verus!
