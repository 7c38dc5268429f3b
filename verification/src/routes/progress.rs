//! Following a transcription.

use vstd::prelude::*;

use crate::job::{JobStatus, JobView, SegmentEvent, SegmentEventView, SegmentView};
use crate::routes::{self, ApiError};
use crate::state::AppState;

verus! {

/// What a new listener is told: the events so far, and whether more are to come.
pub struct Replay {
    pub events: Vec<SegmentEvent>,
    pub live: bool,
}

/// The values of a list of events.
pub open spec fn event_views(events: Seq<SegmentEvent>) -> Seq<SegmentEventView> {
    events.map_values(|e: SegmentEvent| e@)
}

/// Whether no more events of a job are to come.
pub open spec fn is_over(job: JobView) -> bool {
    job.status == JobStatus::Done || job.status == JobStatus::Error
}

/// The segments of a job as events.
pub open spec fn segment_events(segments: Seq<SegmentView>) -> Seq<SegmentEventView> {
    segments.map_values(|s: SegmentView| SegmentEventView::Segment(s))
}

/// The events of a job so far: its segments, and how it ended.
pub open spec fn past_events(job: JobView) -> Seq<SegmentEventView> {
    let segments = segment_events(job.segments);
    match job.status {
        JobStatus::Done => segments.push(
            SegmentEventView::Done { total_segments: job.segments.len() },
        ),
        JobStatus::Error => segments.push(
            SegmentEventView::Error {
                message: match job.error {
                    Some(message) => message,
                    None => Seq::empty(),
                },
            },
        ),
        _ => segments,
    }
}

/// What a new listener to a job is told.
pub fn progress(state: &AppState, job_id: &str) -> (out: Result<Replay, ApiError>)
    requires
        state.wf(),
    ensures
        if state@.has_job(job_id@) {
            match out {
                Ok(replay) => {
                    let job = state@.jobs.jobs[job_id@];
                    &&& event_views(replay.events@) == past_events(job)
                    &&& replay.live == !is_over(job)
                },
                Err(_) => false,
            }
        } else {
            routes::is_refused(out, routes::no_such_job())
        },
{
    let job = match state.jobs.get(job_id) {
        Some(j) => j,
        None => {
            return Err(routes::api_error(404, "Job not found"));
        },
    };
    let ghost v = job@;
    let mut events: Vec<SegmentEvent> = Vec::new();
    let mut i: usize = 0;
    while i < job.segments.len()
        invariant
            i <= job.segments.len(),
            v == job@,
            events.len() == i,
            forall|k: int|
                0 <= k < i ==> (#[trigger] events@[k])@ == SegmentEventView::Segment(v.segments[k]),
        decreases job.segments.len() - i,
    {
        assert(v.segments[i as int] == job.segments@[i as int]@);
        events.push(SegmentEvent::Segment(job.segments[i].clone()));
        i += 1;
    }
    assert(event_views(events@) =~= segment_events(v.segments));
    let live: bool = match job.status {
        JobStatus::Done => {
            events.push(SegmentEvent::Done { total_segments: job.segments.len() });
            false
        },
        JobStatus::Error => {
            let message = match &job.error {
                Some(m) => m.clone(),
                None => String::new(),
            };
            assert(message@ =~= match v.error {
                Some(m) => m,
                None => Seq::empty(),
            });
            events.push(SegmentEvent::Error { message });
            false
        },
        _ => true,
    };
    assert(event_views(events@) =~= past_events(v));
    Ok(Replay { events, live })
}

/// The name under which an event is sent.
pub open spec fn event_label(event: SegmentEventView) -> Seq<char> {
    match event {
        SegmentEventView::Segment(_) => "segment"@,
        SegmentEventView::Done { .. } => "done"@,
        SegmentEventView::Error { .. } => "error"@,
    }
}

/// The name under which an event is sent.
pub fn event_name(event: &SegmentEvent) -> (name: &'static str)
    ensures
        name@ == event_label(event@),
{
    match event {
        SegmentEvent::Segment(_) => "segment",
        SegmentEvent::Done { .. } => "done",
        SegmentEvent::Error { .. } => "error",
    }
}

/// A late listener misses nothing: it is told every segment in order, and if the
/// transcription is over, how it ended, and nothing after that.
pub proof fn late_listeners_miss_nothing(job: JobView)
    ensures
        past_events(job).len() == job.segments.len() + if is_over(job) { 1int } else { 0int },
        forall|i: int|
            0 <= i < job.segments.len() ==> (#[trigger] past_events(job)[i])
                == SegmentEventView::Segment(job.segments[i]),
        job.status == JobStatus::Done ==> past_events(job).last() == (SegmentEventView::Done {
            total_segments: job.segments.len(),
        }),
{
}

/// A listener who comes after a failure is told the error last, and one who comes before the
/// end is told the segments alone.
pub proof fn late_listeners_are_told_how_it_ended(job: JobView)
    ensures
        job.status == JobStatus::Error ==> past_events(job).len() == job.segments.len() + 1,
        job.status == JobStatus::Error ==> (job.error matches Some(m) ==> past_events(job).last() == (
        SegmentEventView::Error { message: m })),
        job.status != JobStatus::Error && job.status != JobStatus::Done ==> past_events(job).len()
            == job.segments.len(),
        is_over(job) <==> job.status == JobStatus::Error || job.status == JobStatus::Done,
{
}

} // verus!
