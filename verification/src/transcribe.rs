//! Transcription: how the model is run, and what becomes of the job.

use vstd::prelude::*;

use crate::job::{self, Job, JobStatus, JobView, Segment, SegmentEvent, SegmentEventView, SegmentView};
use crate::models_dir::ModelsDir;
use crate::text;

verus! {

/// The width of the beam search.
pub const BEAM_SIZE: i32 = 5;

/// The shortest silence that ends a stretch of speech, in milliseconds.
pub const VAD_MIN_SILENCE_MS: i32 = 500;

/// How far a stretch of speech is widened at both ends, in milliseconds.
pub const VAD_SPEECH_PAD_MS: i32 = 400;

/// How many threads the model runs on: half of those there are, but four to eight.
pub open spec fn threads_of(parallelism: Option<usize>) -> int {
    let half = match parallelism {
        Some(p) => p as int / 2,
        None => 2,
    };
    if half < 4 {
        4
    } else if half > 8 {
        8
    } else {
        half
    }
}

/// How many threads the model runs on: half of those there are, but four to eight.
pub fn thread_count(parallelism: Option<usize>) -> (n: i32)
    ensures
        n == threads_of(parallelism),
{
    let half: usize = match parallelism {
        Some(p) => p / 2,
        None => 2,
    };
    if half < 4 {
        4
    } else if half > 8 {
        8
    } else {
        half as i32
    }
}

/// The model that detects speech, if it is there.
pub fn vad_model(models: &ModelsDir) -> (path: Option<String>)
    ensures
        text::opt_text(path) == if models.holds("ggml-silero-vad.bin"@) {
            Some(models.path_of("ggml-silero-vad.bin"@))
        } else {
            None
        },
{
    if models.has("ggml-silero-vad.bin") {
        Some(models.join("ggml-silero-vad.bin"))
    } else {
        None
    }
}

// ── Segments ────────────────────────────────────────────────────────────────

/// A segment as the model gives it: times are hundredths of a second.
pub struct RawSegment {
    pub start: i64,
    pub end: i64,
    pub text: String,
}

/// A time in hundredths of a second as milliseconds, as far as they go.
pub open spec fn centis_to_ms(centis: i64) -> int {
    if centis * 10 > i64::MAX {
        i64::MAX as int
    } else if centis * 10 < i64::MIN {
        i64::MIN as int
    } else {
        centis * 10
    }
}

/// A time in hundredths of a second as milliseconds, as far as they go.
pub fn milliseconds(centis: i64) -> (ms: i64)
    ensures
        ms == centis_to_ms(centis),
{
    let ms: i128 = centis as i128 * 10;
    if ms > i64::MAX as i128 {
        i64::MAX
    } else if ms < i64::MIN as i128 {
        i64::MIN
    } else {
        ms as i64
    }
}

/// The segment that the model gives at position `id`.
pub open spec fn segment_at(id: nat, raw: RawSegment) -> SegmentView {
    SegmentView {
        id,
        start: centis_to_ms(raw.start),
        end: centis_to_ms(raw.end),
        text: text::trimmed(raw.text@),
        speaker: None,
        speaker_name: None,
    }
}

/// The segment that the model gives at position `id`.
pub fn make_segment(id: usize, raw: &RawSegment) -> (segment: Segment)
    ensures
        segment@ == segment_at(id as nat, *raw),
{
    Segment {
        id,
        start: milliseconds(raw.start),
        end: milliseconds(raw.end),
        text: text::trim(raw.text.as_str()),
        speaker: None,
        speaker_name: None,
    }
}

/// The segments of a transcript: numbered from zero in the order of the model.
pub open spec fn segments_of(raw: Seq<RawSegment>) -> Seq<SegmentView> {
    Seq::new(raw.len(), |i: int| segment_at(i as nat, raw[i]))
}

/// The segments of a transcript: numbered from zero in the order of the model.
pub fn make_segments(raw: &Vec<RawSegment>) -> (out: Vec<Segment>)
    ensures
        job::segment_views(out@) == segments_of(raw@),
{
    let mut out: Vec<Segment> = Vec::new();
    let mut i: usize = 0;
    while i < raw.len()
        invariant
            i <= raw.len(),
            out.len() == i,
            forall|j: int| 0 <= j < i ==> (#[trigger] out@[j])@ == segment_at(j as nat, raw@[j]),
        decreases raw.len() - i,
    {
        out.push(make_segment(i, &raw[i]));
        i += 1;
    }
    assert(job::segment_views(out@) =~= segments_of(raw@));
    out
}

// ── The job ─────────────────────────────────────────────────────────────────

/// How a transcription ended.
pub enum TranscriptionRun {
    /// The model gave these segments.
    Done(Vec<RawSegment>),
    /// It failed.
    Failed(String),
    /// The task that ran it panicked.
    Panicked(String),
}

impl TranscriptionRun {
    /// The segments, or the error.
    pub open spec fn result(self) -> Result<Seq<SegmentView>, Seq<char>> {
        match self {
            TranscriptionRun::Done(raw) => Ok(segments_of(raw@)),
            TranscriptionRun::Failed(cause) => Err(cause@),
            TranscriptionRun::Panicked(cause) => Err("task panicked: "@ + cause@),
        }
    }

    /// What the listeners are told.
    pub open spec fn event(self) -> SegmentEventView {
        match self.result() {
            Ok(segments) => SegmentEventView::Done { total_segments: segments.len() },
            Err(message) => SegmentEventView::Error { message },
        }
    }
}

impl JobView {
    /// The job while it is being transcribed with the given model.
    pub open spec fn transcribing(self, model: Seq<char>) -> JobView {
        JobView { model_name: model, status: JobStatus::Running, ..self.cleared() }
    }

    /// The job after a transcription.
    pub open spec fn transcribed(self, run: TranscriptionRun) -> JobView {
        match run.result() {
            Ok(segments) => JobView { segments, status: JobStatus::Done, ..self },
            Err(message) => JobView { status: JobStatus::Error, error: Some(message), ..self },
        }
    }
}

impl Job {
    /// Takes over how a transcription ended.
    pub fn end_transcription(&mut self, run: &TranscriptionRun)
        ensures
            final(self)@ == old(self)@.transcribed(*run),
    {
        let ghost before = self@;
        match run {
            TranscriptionRun::Done(raw) => {
                self.segments = make_segments(raw);
                self.status = JobStatus::Done;
            },
            TranscriptionRun::Failed(cause) => {
                self.set_error(cause.clone());
            },
            TranscriptionRun::Panicked(cause) => {
                self.set_error(panic_message(cause));
            },
        }
        assert(self@ =~= before.transcribed(*run));
    }

    fn set_error(&mut self, message: String)
        ensures
            final(self)@ == (JobView {
                status: JobStatus::Error,
                error: Some(message@),
                ..old(self)@
            }),
    {
        self.status = JobStatus::Error;
        self.error = Some(message);
    }
}

fn panic_message(cause: &String) -> (message: String)
    ensures
        message@ == "task panicked: "@ + cause@,
{
    let mut message = "task panicked: ".to_owned();
    message.append(cause.as_str());
    message
}

/// What the listeners are told after a transcription.
pub fn closing_event(run: &TranscriptionRun) -> (event: SegmentEvent)
    ensures
        event@ == run.event(),
{
    match run {
        TranscriptionRun::Done(raw) => SegmentEvent::Done { total_segments: raw.len() },
        TranscriptionRun::Failed(cause) => SegmentEvent::Error { message: cause.clone() },
        TranscriptionRun::Panicked(cause) => SegmentEvent::Error { message: panic_message(cause) },
    }
}

/// The segments of a transcript are numbered by their place in it and have no speaker
/// yet.
pub proof fn segments_are_numbered(raw: Seq<RawSegment>, i: int)
    requires
        0 <= i < raw.len(),
    ensures
        segments_of(raw).len() == raw.len(),
        segments_of(raw)[i].id == i,
        segments_of(raw)[i].speaker is None,
{
}

/// Hundredths of a second become milliseconds, ten times as many, with their sign; what is
/// out of range becomes the nearest time that is in range.
pub proof fn times_become_milliseconds(centis: i64, later: i64)
    ensures
        i64::MIN <= 10 * centis <= i64::MAX ==> centis_to_ms(centis) == 10 * centis,
        10 * centis > i64::MAX ==> centis_to_ms(centis) == i64::MAX,
        10 * centis < i64::MIN ==> centis_to_ms(centis) == i64::MIN,
        centis <= later ==> centis_to_ms(centis) <= centis_to_ms(later),
{
}

/// The transcript holds what the model gave, segment by segment: its times in milliseconds
/// and its text without the whitespace around it.
pub proof fn the_transcript_is_what_the_model_gave(raw: Seq<RawSegment>, i: int)
    requires
        0 <= i < raw.len(),
    ensures
        segments_of(raw).len() == raw.len(),
        segments_of(raw)[i].text == text::trimmed(raw[i].text@),
        -1_000_000_000_000 < raw[i].start < 1_000_000_000_000 ==> segments_of(raw)[i].start == 10
            * raw[i].start,
        -1_000_000_000_000 < raw[i].end < 1_000_000_000_000 ==> segments_of(raw)[i].end == 10 * raw[i].end,
        segments_of(raw)[i].speaker_name is None,
{
}

/// How a transcription ends: with its segments, and the listeners are told how many; or
/// with an error, which the job keeps and the listeners are told. The recording stays.
pub proof fn transcriptions_end_with_segments_or_an_error(job: JobView, run: TranscriptionRun)
    ensures
        ({
            let done = job.transcribed(run);
            &&& done.audio_data == job.audio_data
            &&& done.job_id == job.job_id
            &&& done.model_name == job.model_name
            &&& match run {
                TranscriptionRun::Done(raw) => {
                    &&& done.status == JobStatus::Done
                    &&& done.segments == segments_of(raw@)
                    &&& done.error == job.error
                    &&& run.event() == (SegmentEventView::Done { total_segments: raw@.len() })
                },
                TranscriptionRun::Failed(cause) => {
                    &&& done.status == JobStatus::Error
                    &&& done.error == Some(cause@)
                    &&& done.segments == job.segments
                    &&& run.event() == (SegmentEventView::Error { message: cause@ })
                },
                TranscriptionRun::Panicked(cause) => {
                    &&& done.status == JobStatus::Error
                    &&& done.error == Some("task panicked: "@ + cause@)
                    &&& done.segments == job.segments
                    &&& run.event() == (SegmentEventView::Error { message: "task panicked: "@ + cause@ })
                },
            }
        }),
{
}

/// A transcription starts afresh: nothing is left of an earlier one but the recording and
/// its name.
pub proof fn transcriptions_start_afresh(before: JobView, model: Seq<char>)
    ensures
        ({
            let started = before.transcribing(model);
            &&& started.status == JobStatus::Running
            &&& started.model_name == model
            &&& started.job_id == before.job_id
            &&& started.filename == before.filename
            &&& started.audio_data == before.audio_data
            &&& started.audio_ext == before.audio_ext
            &&& started.segments.len() == 0
            &&& started.error is None
            &&& started.diarize_status == job::DiarizeStatus::Idle
            &&& started.diarize_speakers.len() == 0
            &&& started.diarize_progress == 0
            &&& started.summary_status == job::SummaryStatus::Idle
            &&& started.summary is None
        }),
{
}

/// The model runs on half of the threads there are, on four at least and eight at most.
pub proof fn the_model_runs_on_half_the_threads(p: usize)
    ensures
        4 <= threads_of(Some(p)) <= 8,
        8 <= p <= 17 ==> 2 * threads_of(Some(p)) <= p < 2 * threads_of(Some(p)) + 2,
        p < 8 ==> threads_of(Some(p)) == 4,
        p > 17 ==> threads_of(Some(p)) == 8,
        threads_of(None) == 4,
{
}

} // verus!
