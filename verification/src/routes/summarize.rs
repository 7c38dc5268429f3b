//! Summarizing a transcript, and following that.

use vstd::prelude::*;

use crate::job::{self, Job, JobView, Segment, SegmentView, SummaryEvent, SummaryEventView, SummaryStatus};
use crate::routes::{self, ApiError, ApiErrorView};
use crate::state::{AppState, AppView};
use crate::text;

verus! {

/// A request to summarize a transcript, with names for the speakers.
pub struct SummarizeRequest {
    /// Pairs of a speaker and its name; of several pairs with the same speaker the
    /// first counts.
    pub speaker_names: Option<Vec<(String, String)>>,
}

/// The values of a list of names.
pub open spec fn name_views(names: Seq<(String, String)>) -> Seq<(Seq<char>, Seq<char>)> {
    names.map_values(|p: (String, String)| (p.0@, p.1@))
}

/// The name for a speaker.
pub open spec fn name_for(names: Seq<(Seq<char>, Seq<char>)>, speaker: Seq<char>) -> Option<Seq<char>>
    decreases names.len(),
{
    if names.len() == 0 {
        None
    } else if names[0].0 == speaker {
        Some(names[0].1)
    } else {
        name_for(names.drop_first(), speaker)
    }
}

fn find_name(names: &Vec<(String, String)>, speaker: &str) -> (out: Option<String>)
    ensures
        text::opt_text(out) == name_for(name_views(names@), speaker@),
{
    let ghost v = name_views(names@);
    let mut i: usize = 0;
    assert(v.skip(0) =~= v);
    while i < names.len()
        invariant
            i <= names.len(),
            v == name_views(names@),
            name_for(v, speaker@) == name_for(v.skip(i as int), speaker@),
        decreases names.len() - i,
    {
        assert(v[i as int] == (names@[i as int].0@, names@[i as int].1@));
        if text::same_text(names[i].0.as_str(), speaker) {
            return Some(names[i].1.clone());
        }
        assert(v.skip(i as int).drop_first() =~= v.skip(i + 1));
        i += 1;
    }
    None
}

/// A segment with the name of its speaker, where there is one for it.
pub open spec fn renamed(segment: SegmentView, names: Seq<(Seq<char>, Seq<char>)>) -> SegmentView {
    match segment.speaker {
        Some(speaker) => match name_for(names, speaker) {
            Some(name) => SegmentView { speaker_name: Some(name), ..segment },
            None => segment,
        },
        None => segment,
    }
}

/// The segments with the names of their speakers.
pub open spec fn with_names(
    segments: Seq<SegmentView>,
    names: Option<Seq<(Seq<char>, Seq<char>)>>,
) -> Seq<SegmentView> {
    match names {
        Some(n) => segments.map_values(|s: SegmentView| renamed(s, n)),
        None => segments,
    }
}

/// The names that a request holds.
pub open spec fn names_in(req: SummarizeRequest) -> Option<Seq<(Seq<char>, Seq<char>)>> {
    match req.speaker_names {
        Some(names) => Some(name_views(names@)),
        None => None,
    }
}

fn name_speakers(segments: &mut Vec<Segment>, names: &Vec<(String, String)>)
    ensures
        job::segment_views(final(segments)@) == with_names(
            job::segment_views(old(segments)@),
            Some(name_views(names@)),
        ),
{
    let ghost before = job::segment_views(segments@);
    let ghost n = name_views(names@);
    let mut i: usize = 0;
    while i < segments.len()
        invariant
            i <= segments.len(),
            segments.len() == before.len(),
            n == name_views(names@),
            forall|k: int| 0 <= k < i ==> (#[trigger] segments@[k])@ == renamed(before[k], n),
            forall|k: int| i <= k < segments.len() ==> (#[trigger] segments@[k])@ == before[k],
        decreases segments.len() - i,
    {
        let name: Option<String> = match &segments[i].speaker {
            Some(speaker) => find_name(names, speaker.as_str()),
            None => None,
        };
        if name.is_some() {
            segments[i].speaker_name = name;
        }
        assert(segments@[i as int]@ =~= renamed(before[i as int], n));
        i += 1;
    }
    assert(job::segment_views(segments@) =~= with_names(before, Some(n)));
}

// ── The job ─────────────────────────────────────────────────────────────────

/// How a summary ended.
pub enum SummaryRun {
    Done(String),
    Failed(String),
}

impl SummaryRun {
    /// What the listeners are told.
    pub open spec fn event(self) -> SummaryEventView {
        match self {
            SummaryRun::Done(_) => SummaryEventView::Done,
            SummaryRun::Failed(message) => SummaryEventView::Error { message: message@ },
        }
    }
}

impl JobView {
    /// The job while it is being summarized.
    pub open spec fn summarizing(self, names: Option<Seq<(Seq<char>, Seq<char>)>>, now: u64) -> JobView {
        JobView {
            segments: with_names(self.segments, names),
            summary_status: SummaryStatus::Running,
            summary_start: Some(now),
            summary: None,
            summary_error: None,
            summary_backlog: job::SUMMARY_BACKLOG as nat,
            ..self
        }
    }

    /// The job with one more piece of its summary.
    pub open spec fn with_piece(self, piece: Seq<char>) -> JobView {
        JobView {
            summary: Some(
                match self.summary {
                    Some(had) => had + piece,
                    None => piece,
                },
            ),
            ..self
        }
    }

    /// The job after its summary ended.
    pub open spec fn summarized(self, run: SummaryRun) -> JobView {
        match run {
            SummaryRun::Done(text) => JobView {
                summary: Some(text@),
                summary_status: SummaryStatus::Done,
                ..self
            },
            SummaryRun::Failed(message) => JobView {
                summary_status: SummaryStatus::Error,
                summary_error: Some(message@),
                ..self
            },
        }
    }
}

impl Job {
    /// Adds a piece to the summary. Returns what the listeners are told.
    pub fn add_piece(&mut self, piece: String) -> (event: SummaryEvent)
        ensures
            final(self)@ == old(self)@.with_piece(piece@),
            event@ == (SummaryEventView::Token { text: piece@ }),
    {
        let ghost before = self@;
        let had = match &self.summary {
            Some(s) => s.clone(),
            None => String::new(),
        };
        let mut now = had;
        now.append(piece.as_str());
        assert(before.summary is None ==> now@ =~= piece@);
        self.summary = Some(now);
        assert(self@ =~= before.with_piece(piece@));
        SummaryEvent::Token { text: piece }
    }

    /// Takes over how the summary ended. Returns what the listeners are told.
    pub fn end_summary(&mut self, run: SummaryRun) -> (event: SummaryEvent)
        ensures
            final(self)@ == old(self)@.summarized(run),
            event@ == run.event(),
    {
        match run {
            SummaryRun::Done(text) => {
                self.summary = Some(text);
                self.summary_status = SummaryStatus::Done;
                SummaryEvent::Done
            },
            SummaryRun::Failed(message) => {
                self.summary_status = SummaryStatus::Error;
                self.summary_error = Some(message.clone());
                SummaryEvent::Error { message }
            },
        }
    }
}

// ── Requests ────────────────────────────────────────────────────────────────

/// Why a summary of the job is refused, if it is.
pub open spec fn summarize_refusal(state: AppView, id: Seq<char>) -> Option<ApiErrorView> {
    let job = state.jobs.jobs[id];
    if !state.has_job(id) {
        Some(routes::no_such_job())
    } else if state.llama_port is None {
        Some(routes::refusal(503, "Summarization model not available"@))
    } else if job.summary_status == SummaryStatus::Running {
        Some(routes::refusal(429, "Summarization already in progress"@))
    } else if job.segments.len() == 0 {
        Some(routes::refusal(400, "No segments to summarize"@))
    } else {
        None
    }
}

/// What is to be summarized, and where.
pub struct SummaryTask {
    pub segments: Vec<Segment>,
    pub port: u16,
    pub tokens_cap: u32,
}

/// Starts a summary of the job, if nothing stands against it.
pub fn summarize(state: &mut AppState, job_id: &str, req: &SummarizeRequest, now: u64) -> (out: Result<
    SummaryTask,
    ApiError,
>)
    requires
        old(state).wf(),
    ensures
        final(state).wf(),
        match summarize_refusal(old(state)@, job_id@) {
            Some(e) => routes::is_refused(out, e) && final(state)@ == old(state)@,
            None => match out {
                Ok(task) => {
                    let job = old(state)@.jobs.jobs[job_id@].summarizing(names_in(*req), now);
                    &&& final(state)@ == (AppView {
                        jobs: old(state)@.jobs.updated(job_id@, job),
                        ..old(state)@
                    })
                    &&& job::segment_views(task.segments@) == job.segments
                    &&& Some(task.port) == old(state)@.llama_port
                    &&& task.tokens_cap == old(state)@.summary_tokens
                },
                Err(_) => false,
            },
        },
{
    let ghost before = state@;
    match state.jobs.get(job_id) {
        None => {
            return Err(routes::api_error(404, "Job not found"));
        },
        Some(_) => {},
    }
    let port: u16 = match state.llama_port {
        Some(p) => p,
        None => {
            return Err(routes::api_error(503, "Summarization model not available"));
        },
    };
    match state.jobs.get(job_id) {
        None => {},
        Some(j) => {
            match j.summary_status {
                SummaryStatus::Running => {
                    return Err(routes::api_error(429, "Summarization already in progress"));
                },
                _ => {},
            }
            if j.segments.len() == 0 {
                return Err(routes::api_error(400, "No segments to summarize"));
            }
        },
    }
    match state.jobs.get_mut(job_id) {
        Some(j) => {
            let ghost job = j@;
            if let Some(names) = &req.speaker_names {
                name_speakers(&mut j.segments, names);
            }
            j.summary_status = SummaryStatus::Running;
            j.summary_start = Some(now);
            j.summary = None;
            j.summary_error = None;
            j.renew_summary_channel();
            assert(j@ =~= job.summarizing(names_in(*req), now));
            let segments = job::clone_segments(&j.segments);
            Ok(SummaryTask { segments, port, tokens_cap: state.summary_tokens })
        },
        None => Err(routes::api_error(404, "Job not found")),
    }
}

impl AppView {
    /// The state with one more piece of the summary of the job, if it is still there.
    pub open spec fn with_summary_piece(self, id: Seq<char>, piece: Seq<char>) -> AppView {
        if self.has_job(id) {
            self.with_job(id, self.jobs.jobs[id].with_piece(piece))
        } else {
            self
        }
    }

    /// The state after the summary of the job ended, if it is still there.
    pub open spec fn without_summary(self, id: Seq<char>, run: SummaryRun) -> AppView {
        if self.has_job(id) {
            self.with_job(id, self.jobs.jobs[id].summarized(run))
        } else {
            self
        }
    }
}

/// Adds a piece to the summary of the job, if it is still there. Returns what the
/// listeners are told.
pub fn add_piece(state: &mut AppState, job_id: &str, piece: String) -> (event: SummaryEvent)
    requires
        old(state).wf(),
    ensures
        final(state).wf(),
        final(state)@ == old(state)@.with_summary_piece(job_id@, piece@),
        event@ == (SummaryEventView::Token { text: piece@ }),
{
    let ghost before = state@;
    match state.jobs.get_mut(job_id) {
        Some(j) => {
            let event = j.add_piece(piece);
            assert(state@ =~= before.with_summary_piece(job_id@, piece@));
            event
        },
        None => {
            assert(state@ =~= before);
            SummaryEvent::Token { text: piece }
        },
    }
}

/// Ends the summary: the job takes over the outcome, if it is still there. Returns what
/// the listeners are told.
pub fn end_summary(state: &mut AppState, job_id: &str, run: SummaryRun) -> (event: SummaryEvent)
    requires
        old(state).wf(),
    ensures
        final(state).wf(),
        final(state)@ == old(state)@.without_summary(job_id@, run),
        event@ == run.event(),
{
    let ghost before = state@;
    match state.jobs.get_mut(job_id) {
        Some(j) => {
            let event = j.end_summary(run);
            assert(state@ =~= before.without_summary(job_id@, run));
            event
        },
        None => {
            assert(state@ =~= before);
            match run {
                SummaryRun::Done(_) => SummaryEvent::Done,
                SummaryRun::Failed(message) => SummaryEvent::Error { message },
            }
        },
    }
}

/// What a new listener to a summary is told: the events so far, and whether more are to
/// come.
pub struct SummaryReplay {
    pub events: Vec<SummaryEvent>,
    pub live: bool,
}

/// The values of a list of events.
pub open spec fn summary_event_views(events: Seq<SummaryEvent>) -> Seq<SummaryEventView> {
    events.map_values(|e: SummaryEvent| e@)
}

/// The summary so far as events, and how it ended.
pub open spec fn past_summary(job: JobView) -> Seq<SummaryEventView> {
    let pieces = match job.summary {
        Some(text) if text.len() > 0 => seq![SummaryEventView::Token { text }],
        _ => Seq::empty(),
    };
    match job.summary_status {
        SummaryStatus::Done => pieces.push(SummaryEventView::Done),
        SummaryStatus::Error => pieces.push(
            SummaryEventView::Error {
                message: match job.summary_error {
                    Some(message) => message,
                    None => Seq::empty(),
                },
            },
        ),
        _ => pieces,
    }
}

/// What a new listener to the summary of a job is told.
pub fn summarize_stream(state: &AppState, job_id: &str) -> (out: Result<SummaryReplay, ApiError>)
    requires
        state.wf(),
    ensures
        if state@.has_job(job_id@) {
            match out {
                Ok(replay) => {
                    let job = state@.jobs.jobs[job_id@];
                    &&& summary_event_views(replay.events@) == past_summary(job)
                    &&& replay.live == (job.summary_status == SummaryStatus::Running)
                },
                Err(_) => false,
            }
        } else {
            routes::is_refused(out, routes::no_such_job())
        },
{
    let job = match state.jobs.get(job_id) {
        Some(j) => j,
        None => {
            return Err(routes::api_error(404, "Job not found"));
        },
    };
    let ghost v = job@;
    let mut events: Vec<SummaryEvent> = Vec::new();
    if let Some(text) = &job.summary {
        if text::chars_of(text.as_str()).len() > 0 {
            events.push(SummaryEvent::Token { text: text.clone() });
        }
    }
    let live: bool = match job.summary_status {
        SummaryStatus::Running => true,
        SummaryStatus::Done => {
            events.push(SummaryEvent::Done);
            false
        },
        SummaryStatus::Error => {
            let message = match &job.summary_error {
                Some(m) => m.clone(),
                None => String::new(),
            };
            assert(message@ =~= match v.summary_error {
                Some(m) => m,
                None => Seq::empty(),
            });
            events.push(SummaryEvent::Error { message });
            false
        },
        _ => false,
    };
    assert(summary_event_views(events@) =~= past_summary(v));
    Ok(SummaryReplay { events, live })
}

/// The name under which an event is sent.
pub open spec fn summary_event_label(event: SummaryEventView) -> Seq<char> {
    match event {
        SummaryEventView::Token { .. } => "token"@,
        SummaryEventView::Done => "done"@,
        SummaryEventView::Error { .. } => "error"@,
    }
}

/// The name under which an event is sent.
pub fn summary_event_name(event: &SummaryEvent) -> (name: &'static str)
    ensures
        name@ == summary_event_label(event@),
{
    match event {
        SummaryEvent::Token { .. } => "token",
        SummaryEvent::Done => "done",
        SummaryEvent::Error { .. } => "error",
    }
}

// ── Laws ────────────────────────────────────────────────────────────────────

/// Names change nothing of a segment but the name of its speaker, and only where there
/// is one for the speaker.
pub proof fn names_change_names_only(segment: SegmentView, names: Seq<(Seq<char>, Seq<char>)>)
    ensures
        renamed(segment, names).text == segment.text,
        renamed(segment, names).start == segment.start,
        renamed(segment, names).end == segment.end,
        renamed(segment, names).speaker == segment.speaker,
        segment.speaker is None ==> renamed(segment, names) == segment,
        renamed(renamed(segment, names), names) == renamed(segment, names),
{
}

/// While a summary runs, a second request for one is answered with 429.
pub proof fn one_summary_at_a_time(state: AppView, id: Seq<char>)
    requires
        state.has_job(id),
        state.llama_port is Some,
        state.jobs.jobs[id].summary_status == SummaryStatus::Running,
    ensures
        summarize_refusal(state, id) matches Some(e) && e.status == 429,
{
}

/// The pieces of a summary add up: a listener who comes after two pieces is told both
/// at once.
pub proof fn late_listeners_hear_all_pieces(job: JobView, first: Seq<char>, second: Seq<char>)
    requires
        job.summary is None,
        job.summary_status == SummaryStatus::Running,
        first.len() + second.len() > 0,
    ensures
        past_summary(job.with_piece(first).with_piece(second)) == seq![
            SummaryEventView::Token { text: first + second },
        ],
{
}

/// A speaker gets the name of the first pair for it, and none where there is no pair.
pub proof fn the_first_name_counts(names: Seq<(Seq<char>, Seq<char>)>, speaker: Seq<char>, i: int)
    ensures
        0 <= i < names.len() && names[i].0 == speaker && (forall|j: int|
            0 <= j < i ==> (#[trigger] names[j]).0 != speaker) ==> name_for(names, speaker) == Some(
            names[i].1,
        ),
        (forall|j: int| 0 <= j < names.len() ==> (#[trigger] names[j]).0 != speaker) ==> name_for(
            names,
            speaker,
        ) is None,
    decreases names.len(),
{
    if names.len() > 0 && names[0].0 != speaker {
        let rest = names.drop_first();
        the_first_name_counts(rest, speaker, i - 1);
        assert(forall|j: int| 0 <= j < rest.len() ==> (#[trigger] rest[j]) == names[j + 1]);
    }
}

/// A segment whose speaker has a name shows it; all others stay as they are.
pub proof fn named_speakers_show_their_name(segment: SegmentView, names: Seq<(Seq<char>, Seq<char>)>)
    ensures
        segment.speaker matches Some(s) ==> (name_for(names, s) matches Some(name) ==> renamed(
            segment,
            names,
        ).speaker_name == Some(name)),
        segment.speaker matches Some(s) ==> (name_for(names, s) is None ==> renamed(segment, names)
            == segment),
        renamed(segment, names).id == segment.id,
{
}

/// A summary grows piece by piece at its end, and nothing else of the job changes.
pub proof fn pieces_are_added_at_the_end(job: JobView, piece: Seq<char>)
    ensures
        job.summary is None ==> job.with_piece(piece).summary == Some(piece),
        job.summary matches Some(had) ==> job.with_piece(piece).summary == Some(had + piece),
        job.with_piece(piece).segments == job.segments,
        job.with_piece(piece).summary_status == job.summary_status,
        job.with_piece(piece).audio_data == job.audio_data,
{
}

/// How a summary ends: with its text, or with an error that the job keeps beside what it has
/// of the summary.
pub proof fn summaries_end_with_a_text_or_an_error(job: JobView, run: SummaryRun)
    ensures
        run matches SummaryRun::Done(text) ==> {
            &&& job.summarized(run).summary == Some(text@)
            &&& job.summarized(run).summary_status == SummaryStatus::Done
            &&& run.event() == SummaryEventView::Done
        },
        run matches SummaryRun::Failed(message) ==> {
            &&& job.summarized(run).summary == job.summary
            &&& job.summarized(run).summary_error == Some(message@)
            &&& job.summarized(run).summary_status == SummaryStatus::Error
            &&& run.event() == (SummaryEventView::Error { message: message@ })
        },
        job.summarized(run).segments == job.segments,
        job.summarized(run).audio_data == job.audio_data,
{
}

/// A summary starts afresh, with the names that were given.
pub proof fn summaries_start_afresh(
    job: JobView,
    names: Option<Seq<(Seq<char>, Seq<char>)>>,
    now: u64,
    i: int,
)
    ensures
        job.summarizing(names, now).summary is None,
        job.summarizing(names, now).summary_error is None,
        job.summarizing(names, now).summary_status == SummaryStatus::Running,
        job.summarizing(names, now).segments.len() == job.segments.len(),
        names is None ==> job.summarizing(names, now).segments == job.segments,
        names matches Some(n) ==> (0 <= i < job.segments.len() ==> job.summarizing(names, now).segments[i]
            == renamed(job.segments[i], n)),
        job.summarizing(names, now).status == job.status,
        job.summarizing(names, now).audio_data == job.audio_data,
{
}

/// A listener who comes after the end is told the whole summary, if there is any, and how it
/// ended.
pub proof fn late_listeners_are_told_how_it_ended(job: JobView)
    ensures
        job.summary_status == SummaryStatus::Done ==> past_summary(job).len() > 0 && past_summary(
            job,
        ).last() == SummaryEventView::Done,
        job.summary_status == SummaryStatus::Error ==> past_summary(job).len() > 0 && (
        job.summary_error matches Some(m) ==> past_summary(job).last() == (SummaryEventView::Error {
            message: m,
        })),
        job.summary matches Some(s) ==> (s.len() > 0 ==> past_summary(job).len() > 0 && past_summary(
            job,
        )[0] == (SummaryEventView::Token { text: s })),
        past_summary(job).len() <= 2,
        job.summary_status == SummaryStatus::Running && job.summary is None ==> past_summary(job).len()
            == 0,
{
}

/// A summary is refused exactly where there is no such job, no language model, one is running
/// for the job, or there is nothing to summarize, in that order.
pub proof fn a_summary_starts_when_it_can(state: AppView, id: Seq<char>)
    ensures
        ({
            let job = state.jobs.jobs[id];
            let refused = summarize_refusal(state, id);
            &&& refused is None <==> state.has_job(id) && state.llama_port is Some
                && job.summary_status != SummaryStatus::Running && job.segments.len() > 0
            &&& !state.has_job(id) ==> (refused matches Some(e) && e.status == 404)
            &&& state.has_job(id) && state.llama_port is None ==> (refused matches Some(e) && e.status
                == 503)
            &&& state.has_job(id) && state.llama_port is Some && job.summary_status
                == SummaryStatus::Running ==> (refused matches Some(e) && e.status == 429)
            &&& state.has_job(id) && state.llama_port is Some && job.summary_status
                != SummaryStatus::Running && job.segments.len() == 0 ==> (refused matches Some(e)
                && e.status == 400)
        }),
{
}

} // verus!
