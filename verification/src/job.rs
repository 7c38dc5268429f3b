//! Jobs: one uploaded recording each, with its transcript, speakers and summary.

use tokio::sync::broadcast;
use vstd::prelude::*;

use crate::ids;
use crate::text;

verus! {

// ── Segments ────────────────────────────────────────────────────────────────

/// A piece of the transcript. Times are milliseconds.
#[derive(Debug)]
pub struct Segment {
    pub id: usize,
    pub start: i64,
    pub end: i64,
    pub text: String,
    pub speaker: Option<String>,
    pub speaker_name: Option<String>,
}

/// The values of a segment.
#[verifier::ext_equal]
pub struct SegmentView {
    pub id: nat,
    pub start: int,
    pub end: int,
    pub text: Seq<char>,
    pub speaker: Option<Seq<char>>,
    pub speaker_name: Option<Seq<char>>,
}

impl View for Segment {
    type V = SegmentView;

    open spec fn view(&self) -> SegmentView {
        SegmentView {
            id: self.id as nat,
            start: self.start as int,
            end: self.end as int,
            text: self.text@,
            speaker: text::opt_text(self.speaker),
            speaker_name: text::opt_text(self.speaker_name),
        }
    }
}

impl Clone for Segment {
    fn clone(&self) -> (out: Segment)
        ensures
            out@ == self@,
    {
        Segment {
            id: self.id,
            start: self.start,
            end: self.end,
            text: self.text.clone(),
            speaker: text::clone_opt(&self.speaker),
            speaker_name: text::clone_opt(&self.speaker_name),
        }
    }
}

/// The values of a list of segments.
pub open spec fn segment_views(segments: Seq<Segment>) -> Seq<SegmentView> {
    segments.map_values(|s: Segment| s@)
}

/// A copy of a list of segments.
pub fn clone_segments(segments: &Vec<Segment>) -> (out: Vec<Segment>)
    ensures
        segment_views(out@) == segment_views(segments@),
{
    let mut out: Vec<Segment> = Vec::new();
    let mut i: usize = 0;
    while i < segments.len()
        invariant
            i <= segments.len(),
            out.len() == i,
            forall|j: int| 0 <= j < i ==> (#[trigger] out@[j])@ == segments@[j]@,
        decreases segments.len() - i,
    {
        out.push(segments[i].clone());
        i += 1;
    }
    assert(segment_views(out@) =~= segment_views(segments@));
    out
}

/// The bytes `data[from..to]`.
pub fn copy_bytes(data: &Vec<u8>, from: usize, to: usize) -> (out: Vec<u8>)
    requires
        from <= to <= data.len(),
    ensures
        out@ == data@.subrange(from as int, to as int),
{
    let mut out: Vec<u8> = Vec::new();
    let mut i: usize = from;
    while i < to
        invariant
            from <= i <= to <= data.len(),
            out@ == data@.subrange(from as int, i as int),
        decreases to - i,
    {
        out.push(data[i]);
        i += 1;
        assert(data@.subrange(from as int, i as int) =~= data@.subrange(from as int, i - 1).push(
            data@[i - 1],
        ));
    }
    out
}

// ── Events ──────────────────────────────────────────────────────────────────

/// What a listener to a transcription is told.
#[derive(Debug)]
pub enum SegmentEvent {
    Segment(Segment),
    Done { total_segments: usize },
    Error { message: String },
}

/// The values of a transcription event.
#[verifier::ext_equal]
pub enum SegmentEventView {
    Segment(SegmentView),
    Done { total_segments: nat },
    Error { message: Seq<char> },
}

impl View for SegmentEvent {
    type V = SegmentEventView;

    open spec fn view(&self) -> SegmentEventView {
        match self {
            SegmentEvent::Segment(s) => SegmentEventView::Segment(s@),
            SegmentEvent::Done { total_segments } => SegmentEventView::Done {
                total_segments: *total_segments as nat,
            },
            SegmentEvent::Error { message } => SegmentEventView::Error { message: message@ },
        }
    }
}

impl Clone for SegmentEvent {
    fn clone(&self) -> (out: SegmentEvent)
        ensures
            out@ == self@,
    {
        match self {
            SegmentEvent::Segment(s) => SegmentEvent::Segment(s.clone()),
            SegmentEvent::Done { total_segments } => SegmentEvent::Done {
                total_segments: *total_segments,
            },
            SegmentEvent::Error { message } => SegmentEvent::Error { message: message.clone() },
        }
    }
}

/// What a listener to a summary is told.
#[derive(Debug)]
pub enum SummaryEvent {
    Token { text: String },
    Done,
    Error { message: String },
}

/// The values of a summary event.
#[verifier::ext_equal]
pub enum SummaryEventView {
    Token { text: Seq<char> },
    Done,
    Error { message: Seq<char> },
}

impl View for SummaryEvent {
    type V = SummaryEventView;

    open spec fn view(&self) -> SummaryEventView {
        match self {
            SummaryEvent::Token { text } => SummaryEventView::Token { text: text@ },
            SummaryEvent::Done => SummaryEventView::Done,
            SummaryEvent::Error { message } => SummaryEventView::Error { message: message@ },
        }
    }
}

impl Clone for SummaryEvent {
    fn clone(&self) -> (out: SummaryEvent)
        ensures
            out@ == self@,
    {
        match self {
            SummaryEvent::Token { text } => SummaryEvent::Token { text: text.clone() },
            SummaryEvent::Done => SummaryEvent::Done,
            SummaryEvent::Error { message } => SummaryEvent::Error { message: message.clone() },
        }
    }
}

// ── Channels ────────────────────────────────────────────────────────────────

/// The sending half of a broadcast channel.
#[verifier::external_type_specification]
#[verifier::external_body]
#[verifier::reject_recursive_types(T)]
pub struct ExSender<T>(tokio::sync::broadcast::Sender<T>);

/// How many events a channel of transcription events keeps for a slow listener.
pub uninterp spec fn segment_backlog(tx: broadcast::Sender<SegmentEvent>) -> nat;

/// How many events a channel of summary events keeps for a slow listener.
pub uninterp spec fn summary_backlog(tx: broadcast::Sender<SummaryEvent>) -> nat;

/// The least power of two that is no less than `capacity`.
pub open spec fn is_backlog_for(backlog: nat, capacity: nat) -> bool {
    &&& capacity <= backlog < 2 * capacity
    &&& exists|e: nat| #[trigger] vstd::arithmetic::power2::pow2(e) == backlog
}

/// `tokio::sync::broadcast::channel`: a new channel. It keeps as many events as the
/// least power of two that is no less than `capacity`. The receiving half is dropped.
/// It is another channel than that of `other`, which exists while the new one is made.
#[allow(unused_variables)]
#[verifier::external_body]
fn segment_channel(capacity: usize, other: Option<&broadcast::Sender<SegmentEvent>>) -> (tx: broadcast::Sender<
    SegmentEvent,
>)
    requires
        0 < capacity <= 1024,
    ensures
        is_backlog_for(segment_backlog(tx), capacity as nat),
        other matches Some(o) ==> tx != *o,
{
    broadcast::channel(capacity).0
}

/// `tokio::sync::broadcast::channel`: a new channel. It keeps as many events as the
/// least power of two that is no less than `capacity`. The receiving half is dropped.
/// It is another channel than that of `other`, which exists while the new one is made.
#[allow(unused_variables)]
#[verifier::external_body]
fn summary_channel(capacity: usize, other: Option<&broadcast::Sender<SummaryEvent>>) -> (tx: broadcast::Sender<
    SummaryEvent,
>)
    requires
        0 < capacity <= 1024,
    ensures
        is_backlog_for(summary_backlog(tx), capacity as nat),
        other matches Some(o) ==> tx != *o,
{
    broadcast::channel(capacity).0
}

/// How many transcription events are kept for a slow listener.
pub const SEGMENT_BACKLOG: usize = 256;

/// How many summary events are kept for a slow listener.
pub const SUMMARY_BACKLOG: usize = 512;

proof fn lemma_backlog_exact(backlog: nat, capacity: nat)
    requires
        is_backlog_for(backlog, capacity),
        capacity == 256 || capacity == 512,
    ensures
        backlog == capacity,
{
    vstd::arithmetic::power2::lemma2_to64();
    let e = choose|e: nat| #[trigger] vstd::arithmetic::power2::pow2(e) == backlog;
    let k: nat = if capacity == 256 { 8 } else { 9 };
    if e > k {
        if e > k + 1 {
            vstd::arithmetic::power2::lemma_pow2_strictly_increases(k + 1, e);
        }
    } else if e < k {
        vstd::arithmetic::power2::lemma_pow2_strictly_increases(e, k);
    }
}

// ── Statuses ────────────────────────────────────────────────────────────────

/// How far the transcription of a job is.
#[derive(Debug, Clone, Copy, PartialEq, Eq, Structural)]
pub enum JobStatus {
    Uploaded,
    Queued,
    Running,
    Done,
    Error,
}

/// How far the diarization of a job is.
#[derive(Debug, Clone, Copy, PartialEq, Eq, Structural)]
pub enum DiarizeStatus {
    Idle,
    Running,
    Done,
    Error,
}

/// How far the summary of a job is.
#[derive(Debug, Clone, Copy, PartialEq, Eq, Structural)]
pub enum SummaryStatus {
    Idle,
    Running,
    Done,
    Error,
}

impl Default for SummaryStatus {
    fn default() -> (out: SummaryStatus)
        ensures
            out == SummaryStatus::Idle,
    {
        SummaryStatus::Idle
    }
}

// ── Jobs ────────────────────────────────────────────────────────────────────

/// An uploaded recording and what was made of it.
pub struct Job {
    pub job_id: String,
    /// The recording itself, held in memory only.
    pub audio_data: Vec<u8>,
    /// The file extension with its dot, such as `.mp3`.
    pub audio_ext: String,
    pub filename: String,
    pub model_name: String,
    pub status: JobStatus,
    pub segments: Vec<Segment>,
    pub error: Option<String>,
    /// Where listeners to the transcription subscribe.
    pub tx: broadcast::Sender<SegmentEvent>,
    pub diarize_status: DiarizeStatus,
    pub diarize_error: Option<String>,
    pub diarize_speakers: Vec<String>,
    pub diarize_stage: String,
    /// In percent.
    pub diarize_progress: u32,
    /// When diarization started, on a clock in milliseconds.
    pub diarize_start: Option<u64>,
    pub summary_status: SummaryStatus,
    pub summary: Option<String>,
    pub summary_error: Option<String>,
    /// When the summary was started, on a clock in milliseconds.
    pub summary_start: Option<u64>,
    /// Where listeners to the summary subscribe.
    pub summary_tx: broadcast::Sender<SummaryEvent>,
}

/// The values of a job.
#[verifier::ext_equal]
pub struct JobView {
    pub job_id: Seq<char>,
    pub audio_data: Seq<u8>,
    pub audio_ext: Seq<char>,
    pub filename: Seq<char>,
    pub model_name: Seq<char>,
    pub status: JobStatus,
    pub segments: Seq<SegmentView>,
    pub error: Option<Seq<char>>,
    pub segment_backlog: nat,
    pub diarize_status: DiarizeStatus,
    pub diarize_error: Option<Seq<char>>,
    pub diarize_speakers: Seq<Seq<char>>,
    pub diarize_stage: Seq<char>,
    pub diarize_progress: nat,
    pub diarize_start: Option<u64>,
    pub summary_status: SummaryStatus,
    pub summary: Option<Seq<char>>,
    pub summary_error: Option<Seq<char>>,
    pub summary_start: Option<u64>,
    pub summary_backlog: nat,
}

impl View for Job {
    type V = JobView;

    open spec fn view(&self) -> JobView {
        JobView {
            job_id: self.job_id@,
            audio_data: self.audio_data@,
            audio_ext: self.audio_ext@,
            filename: self.filename@,
            model_name: self.model_name@,
            status: self.status,
            segments: segment_views(self.segments@),
            error: text::opt_text(self.error),
            segment_backlog: segment_backlog(self.tx),
            diarize_status: self.diarize_status,
            diarize_error: text::opt_text(self.diarize_error),
            diarize_speakers: text::texts(self.diarize_speakers@),
            diarize_stage: self.diarize_stage@,
            diarize_progress: self.diarize_progress as nat,
            diarize_start: self.diarize_start,
            summary_status: self.summary_status,
            summary: text::opt_text(self.summary),
            summary_error: text::opt_text(self.summary_error),
            summary_start: self.summary_start,
            summary_backlog: summary_backlog(self.summary_tx),
        }
    }
}

impl JobView {
    /// A job as it is after an upload, with no audio yet.
    pub open spec fn fresh(job_id: Seq<char>, filename: Seq<char>, model_name: Seq<char>) -> JobView {
        JobView {
            job_id,
            audio_data: Seq::empty(),
            audio_ext: Seq::empty(),
            filename,
            model_name,
            status: JobStatus::Uploaded,
            segments: Seq::empty(),
            error: None,
            segment_backlog: SEGMENT_BACKLOG as nat,
            diarize_status: DiarizeStatus::Idle,
            diarize_error: None,
            diarize_speakers: Seq::empty(),
            diarize_stage: Seq::empty(),
            diarize_progress: 0,
            diarize_start: None,
            summary_status: SummaryStatus::Idle,
            summary: None,
            summary_error: None,
            summary_start: None,
            summary_backlog: SUMMARY_BACKLOG as nat,
        }
    }

    /// The job with everything that was made of the recording forgotten.
    pub open spec fn cleared(self) -> JobView {
        JobView {
            audio_data: self.audio_data,
            audio_ext: self.audio_ext,
            summary_backlog: self.summary_backlog,
            ..JobView::fresh(self.job_id, self.filename, self.model_name)
        }
    }
}

impl Job {
    /// A job with no audio yet.
    pub fn new(job_id: String, filename: String, model_name: String) -> (job: Job)
        ensures
            job@ == JobView::fresh(job_id@, filename@, model_name@),
    {
        let tx = segment_channel(SEGMENT_BACKLOG, None);
        let summary_tx = summary_channel(SUMMARY_BACKLOG, None);
        proof {
            lemma_backlog_exact(segment_backlog(tx), SEGMENT_BACKLOG as nat);
            lemma_backlog_exact(summary_backlog(summary_tx), SUMMARY_BACKLOG as nat);
        }
        let job = Job {
            job_id,
            audio_data: Vec::new(),
            audio_ext: String::new(),
            filename,
            model_name,
            status: JobStatus::Uploaded,
            segments: Vec::new(),
            error: None,
            tx,
            diarize_status: DiarizeStatus::Idle,
            diarize_error: None,
            diarize_speakers: Vec::new(),
            diarize_stage: String::new(),
            diarize_progress: 0,
            diarize_start: None,
            summary_status: SummaryStatus::Idle,
            summary: None,
            summary_error: None,
            summary_start: None,
            summary_tx,
        };
        assert(job@ =~= JobView::fresh(job_id@, filename@, model_name@));
        job
    }

    /// Forgets everything that was made of the recording. Listeners have to subscribe
    /// again: the job gets a new channel for its transcription.
    pub fn reset(&mut self)
        ensures
            final(self)@ == old(self)@.cleared(),
            final(self).tx != old(self).tx,
            final(self).summary_tx == old(self).summary_tx,
    {
        let tx = segment_channel(SEGMENT_BACKLOG, Some(&self.tx));
        proof {
            lemma_backlog_exact(segment_backlog(tx), SEGMENT_BACKLOG as nat);
        }
        self.tx = tx;
        self.status = JobStatus::Uploaded;
        self.segments.clear();
        self.error = None;
        self.diarize_status = DiarizeStatus::Idle;
        self.diarize_error = None;
        self.diarize_speakers.clear();
        self.diarize_stage = String::new();
        self.diarize_progress = 0;
        self.diarize_start = None;
        self.summary_status = SummaryStatus::Idle;
        self.summary = None;
        self.summary_error = None;
        self.summary_start = None;
        assert(self@ =~= old(self)@.cleared());
    }

    /// Gives the job a new channel for its summary.
    pub fn renew_summary_channel(&mut self)
        ensures
            final(self)@ == (JobView { summary_backlog: SUMMARY_BACKLOG as nat, ..old(self)@ }),
            final(self).summary_tx != old(self).summary_tx,
            final(self).tx == old(self).tx,
    {
        let summary_tx = summary_channel(SUMMARY_BACKLOG, Some(&self.summary_tx));
        proof {
            lemma_backlog_exact(summary_backlog(summary_tx), SUMMARY_BACKLOG as nat);
        }
        self.summary_tx = summary_tx;
    }
}

// ── The store ───────────────────────────────────────────────────────────────

/// The oldest job is dropped when the store holds this many.
pub const MAX_JOBS: usize = 20;

/// A job under its identifier.
struct Entry {
    id: String,
    job: Job,
}

/// The jobs of the service by identifier, and the identifiers in the order in which
/// they were given out.
pub struct JobStore {
    entries: Vec<Entry>,
    order: Vec<String>,
}

/// The values of a job store.
#[verifier::ext_equal]
pub struct JobStoreView {
    pub jobs: Map<Seq<char>, JobView>,
    pub order: Seq<Seq<char>>,
}

impl JobStoreView {
    /// A store with no jobs.
    pub open spec fn none() -> JobStoreView {
        JobStoreView { jobs: Map::empty(), order: Seq::empty() }
    }

    /// The store with its oldest job dropped if it is full.
    pub open spec fn with_room(self) -> JobStoreView {
        if self.jobs.dom().len() >= MAX_JOBS && self.order.len() > 0 {
            JobStoreView { jobs: self.jobs.remove(self.order[0]), order: self.order.drop_first() }
        } else {
            self
        }
    }

    /// The store with one more job.
    pub open spec fn inserted(self, id: Seq<char>, job: JobView) -> JobStoreView {
        let room = self.with_room();
        JobStoreView { jobs: room.jobs.insert(id, job), order: room.order.push(id) }
    }

    /// The store with the job `id` replaced.
    pub open spec fn updated(self, id: Seq<char>, job: JobView) -> JobStoreView {
        JobStoreView { jobs: self.jobs.insert(id, job), ..self }
    }

    /// Every job was given out once, and there are no more than the limit.
    pub open spec fn is_bounded(self) -> bool {
        &&& self.jobs.dom().finite()
        &&& self.order.no_duplicates()
        &&& self.order.to_set() == self.jobs.dom()
        &&& self.order.len() <= MAX_JOBS
    }
}

spec fn entry_ids(entries: Seq<Entry>) -> Seq<Seq<char>> {
    entries.map_values(|e: Entry| e.id@)
}

spec fn entry_index(entries: Seq<Entry>, id: Seq<char>) -> int {
    choose|i: int| 0 <= i < entries.len() && entry_ids(entries)[i] == id
}

spec fn entry_map(entries: Seq<Entry>) -> Map<Seq<char>, JobView> {
    Map::new(
        |id: Seq<char>| entry_ids(entries).contains(id),
        |id: Seq<char>| entries[entry_index(entries, id)].job@,
    )
}

proof fn lemma_entry_at(entries: Seq<Entry>, i: int)
    requires
        entry_ids(entries).no_duplicates(),
        0 <= i < entries.len(),
    ensures
        entry_index(entries, entries[i].id@) == i,
        entry_map(entries).dom().contains(entries[i].id@),
        entry_map(entries)[entries[i].id@] == entries[i].job@,
{
    let ids = entry_ids(entries);
    assert(ids[i] == entries[i].id@);
    let j = entry_index(entries, ids[i]);
    assert(0 <= j < entries.len() && ids[j] == ids[i]);
}

proof fn lemma_entry_count(entries: Seq<Entry>)
    requires
        entry_ids(entries).no_duplicates(),
    ensures
        entry_map(entries).dom().finite(),
        entry_map(entries).dom().len() == entries.len(),
{
    let ids = entry_ids(entries);
    ids.unique_seq_to_set();
    vstd::seq_lib::seq_to_set_is_finite(ids);
    assert(entry_map(entries).dom() =~= ids.to_set());
}

proof fn lemma_entry_removed(before: Seq<Entry>, i: int)
    requires
        entry_ids(before).no_duplicates(),
        0 <= i < before.len(),
    ensures
        entry_ids(before.remove(i)).no_duplicates(),
        entry_map(before.remove(i)) == entry_map(before).remove(before[i].id@),
{
    let after = before.remove(i);
    let b = entry_ids(before);
    let a = entry_ids(after);
    assert(a =~= b.remove(i));
    assert forall|j: int, k: int| 0 <= j < a.len() && 0 <= k < a.len() && j != k implies a[j] != a[k] by {
        let jj = if j < i { j } else { j + 1 };
        let kk = if k < i { k } else { k + 1 };
        assert(a[j] == b[jj] && a[k] == b[kk]);
    }
    assert forall|id: Seq<char>| a.contains(id) == (b.contains(id) && id != b[i]) by {
        if b.contains(id) && id != b[i] {
            let k = choose|k: int| 0 <= k < b.len() && b[k] == id;
            let j = if k < i { k } else { k - 1 };
            assert(a[j] == id);
        }
        if a.contains(id) {
            let j = choose|j: int| 0 <= j < a.len() && a[j] == id;
            let k = if j < i { j } else { j + 1 };
            assert(b[k] == id);
        }
    }
    assert forall|id: Seq<char>| a.contains(id) implies entry_map(after)[id] == entry_map(before)[id] by {
        let j = choose|j: int| 0 <= j < a.len() && a[j] == id;
        let k = if j < i { j } else { j + 1 };
        lemma_entry_at(after, j);
        lemma_entry_at(before, k);
    }
    assert(entry_map(after) =~= entry_map(before).remove(b[i]));
}

proof fn lemma_entry_pushed(before: Seq<Entry>, e: Entry)
    requires
        entry_ids(before).no_duplicates(),
        !entry_ids(before).contains(e.id@),
    ensures
        entry_ids(before.push(e)).no_duplicates(),
        entry_map(before.push(e)) == entry_map(before).insert(e.id@, e.job@),
{
    let after = before.push(e);
    let b = entry_ids(before);
    let a = entry_ids(after);
    assert(a =~= b.push(e.id@));
    assert forall|j: int, k: int| 0 <= j < a.len() && 0 <= k < a.len() && j != k implies a[j] != a[k] by {
        if j == b.len() {
            assert(b.contains(a[k]));
        } else if k == b.len() {
            assert(b.contains(a[j]));
        }
    }
    assert forall|id: Seq<char>| a.contains(id) == (b.contains(id) || id == e.id@) by {
        if b.contains(id) {
            let k = choose|k: int| 0 <= k < b.len() && b[k] == id;
            assert(a[k] == id);
        }
        if id == e.id@ {
            assert(a[b.len() as int] == id);
        }
    }
    assert forall|id: Seq<char>| a.contains(id) implies entry_map(after)[id] == entry_map(before).insert(
        e.id@,
        e.job@,
    )[id] by {
        let j = choose|j: int| 0 <= j < a.len() && a[j] == id;
        lemma_entry_at(after, j);
        if j < before.len() {
            lemma_entry_at(before, j);
            assert(b.contains(id));
        }
    }
    assert(entry_map(after) =~= entry_map(before).insert(e.id@, e.job@));
}

proof fn lemma_entry_set(before: Seq<Entry>, after: Seq<Entry>, i: int)
    requires
        entry_ids(before).no_duplicates(),
        0 <= i < before.len(),
        after.len() == before.len(),
        entry_ids(after) == entry_ids(before),
        forall|j: int| 0 <= j < before.len() && j != i ==> after[j] == before[j],
    ensures
        entry_map(after) == entry_map(before).insert(before[i].id@, after[i].job@),
{
    let b = entry_ids(before);
    assert(b[i] == before[i].id@);
    assert(entry_ids(after)[i] == after[i].id@);
    assert forall|id: Seq<char>| b.contains(id) implies entry_map(after)[id] == entry_map(before).insert(
        before[i].id@,
        after[i].job@,
    )[id] by {
        let j = choose|j: int| 0 <= j < b.len() && b[j] == id;
        assert(entry_ids(after)[j] == after[j].id@);
        assert(entry_ids(before)[j] == before[j].id@);
        lemma_entry_at(after, j);
        lemma_entry_at(before, j);
    }
    assert(b.contains(before[i].id@));
    assert(entry_map(after) =~= entry_map(before).insert(before[i].id@, after[i].job@));
}

impl View for JobStore {
    type V = JobStoreView;

    closed spec fn view(&self) -> JobStoreView {
        JobStoreView { jobs: entry_map(self.entries@), order: text::texts(self.order@) }
    }
}

impl JobStore {
    /// No two jobs have the same identifier.
    pub closed spec fn wf(&self) -> bool {
        entry_ids(self.entries@).no_duplicates()
    }

    /// A store with no jobs.
    pub fn new() -> (store: JobStore)
        ensures
            store.wf(),
            store@ == JobStoreView::none(),
    {
        let store = JobStore { entries: Vec::new(), order: Vec::new() };
        assert(store@.jobs =~= Map::empty());
        assert(store@.order =~= Seq::empty());
        store
    }

    fn find(&self, id: &str) -> (at: Option<usize>)
        requires
            self.wf(),
        ensures
            match at {
                Some(i) => i < self.entries@.len() && self.entries@[i as int].id@ == id@
                    && self@.jobs.dom().contains(id@),
                None => !self@.jobs.dom().contains(id@),
            },
    {
        let mut i: usize = 0;
        while i < self.entries.len()
            invariant
                i <= self.entries.len(),
                self.wf(),
                forall|j: int| 0 <= j < i ==> entry_ids(self.entries@)[j] != id@,
            decreases self.entries.len() - i,
        {
            if text::same_text(self.entries[i].id.as_str(), id) {
                assert(entry_ids(self.entries@)[i as int] == id@);
                return Some(i);
            }
            i += 1;
        }
        None
    }

    /// The job with the given identifier.
    pub fn get(&self, job_id: &str) -> (job: Option<&Job>)
        requires
            self.wf(),
        ensures
            match job {
                Some(j) => self@.jobs.dom().contains(job_id@) && j@ == self@.jobs[job_id@],
                None => !self@.jobs.dom().contains(job_id@),
            },
    {
        match self.find(job_id) {
            Some(i) => {
                proof {
                    lemma_entry_at(self.entries@, i as int);
                }
                Some(&self.entries[i].job)
            },
            None => None,
        }
    }

    /// The job with the given identifier, to be changed in place.
    pub fn get_mut(&mut self, job_id: &str) -> (job: Option<&mut Job>)
        requires
            old(self).wf(),
        ensures
            final(self).wf(),
            match job {
                Some(j) => {
                    &&& old(self)@.jobs.dom().contains(job_id@)
                    &&& j@ == old(self)@.jobs[job_id@]
                    &&& final(self)@ == old(self)@.updated(job_id@, final(j)@)
                },
                None => !old(self)@.jobs.dom().contains(job_id@) && final(self)@ == old(self)@,
            },
    {
        match self.find(job_id) {
            Some(i) => {
                let ghost before = self.entries@;
                proof {
                    lemma_entry_at(before, i as int);
                }
                assert forall|e: Entry| e.id@ == before[i as int].id@ implies {
                    let after = #[trigger] before.update(i as int, e);
                    &&& entry_ids(after).no_duplicates()
                    &&& entry_map(after) == entry_map(before).insert(before[i as int].id@, e.job@)
                } by {
                    let after = before.update(i as int, e);
                    assert(entry_ids(after) =~= entry_ids(before));
                    lemma_entry_set(before, after, i as int);
                }
                Some(&mut self.entries[i].job)
            },
            None => None,
        }
    }

    /// Adds a new job under the given identifier. If the store is full, the oldest job
    /// is dropped.
    pub fn insert_with_id(&mut self, job_id: String, filename: String, model_name: String)
        requires
            old(self).wf(),
        ensures
            final(self).wf(),
            final(self)@ == old(self)@.inserted(
                job_id@,
                JobView::fresh(job_id@, filename@, model_name@),
            ),
    {
        let ghost before = self@;
        proof {
            lemma_entry_count(self.entries@);
        }
        if self.entries.len() >= MAX_JOBS && self.order.len() > 0 {
            let oldest = self.order.remove(0);
            assert(text::texts(self.order@) =~= before.order.drop_first());
            assert(oldest@ == before.order[0]);
            self.drop_entry(oldest.as_str());
        }
        assert(self@ =~= before.with_room());
        self.drop_entry(job_id.as_str());
        let ghost room = self.entries@;
        let job = Job::new(job_id.clone(), filename, model_name);
        let entry = Entry { id: job_id.clone(), job };
        proof {
            assert(!self@.jobs.dom().contains(job_id@));
            lemma_entry_pushed(room, entry);
        }
        self.entries.push(entry);
        let ghost ordered = text::texts(self.order@);
        self.order.push(job_id);
        assert(text::texts(self.order@) =~= ordered.push(job_id@));
        assert(self@ =~= before.inserted(job_id@, JobView::fresh(job_id@, filename@, model_name@)));
    }

    fn drop_entry(&mut self, id: &str)
        requires
            old(self).wf(),
        ensures
            final(self).wf(),
            final(self)@ == (JobStoreView { jobs: old(self)@.jobs.remove(id@), ..old(self)@ }),
    {
        match self.find(id) {
            Some(i) => {
                proof {
                    lemma_entry_removed(self.entries@, i as int);
                }
                self.entries.remove(i);
            },
            None => {
                assert(self@.jobs.remove(id@) =~= self@.jobs);
            },
        }
    }

    /// Adds a new job under a random identifier and returns that identifier. If the
    /// store is full, the oldest job is dropped.
    pub fn insert(&mut self, filename: String, model_name: String) -> (job_id: String)
        requires
            old(self).wf(),
        ensures
            final(self).wf(),
            ids::is_plain_id(job_id@),
            final(self)@ == old(self)@.inserted(
                job_id@,
                JobView::fresh(job_id@, filename@, model_name@),
            ),
    {
        let job_id = ids::random_plain_id();
        self.insert_with_id(job_id.clone(), filename, model_name);
        job_id
    }
}

// ── Laws of the store ───────────────────────────────────────────────────────

/// An empty store is within its bound.
pub proof fn empty_store_is_bounded()
    ensures
        JobStoreView::none().is_bounded(),
{
    let s = JobStoreView::none();
    assert(s.order.to_set() =~= s.jobs.dom());
}

/// The store never holds more jobs than its limit: adding a job under a new
/// identifier keeps it within its bound.
pub proof fn store_stays_bounded(store: JobStoreView, id: Seq<char>, job: JobView)
    requires
        store.is_bounded(),
        !store.jobs.dom().contains(id),
    ensures
        store.inserted(id, job).is_bounded(),
        store.inserted(id, job).jobs.dom().len() <= MAX_JOBS,
{
    let room = store.with_room();
    let out = store.inserted(id, job);
    store.order.unique_seq_to_set();
    assert forall|x: Seq<char>| room.order.to_set().contains(x) == room.jobs.dom().contains(x) by {
        assert(store.order.to_set().contains(x) == store.jobs.dom().contains(x));
        if store.jobs.dom().len() >= MAX_JOBS && store.order.len() > 0 {
            if room.order.contains(x) {
                let k = choose|k: int| 0 <= k < room.order.len() && room.order[k] == x;
                assert(store.order[k + 1] == x);
                assert(store.order.contains(x));
            }
            if store.order.contains(x) && x != store.order[0] {
                let k = choose|k: int| 0 <= k < store.order.len() && store.order[k] == x;
                assert(room.order[k - 1] == x);
            }
        }
    }
    assert forall|x: Seq<char>| out.order.to_set().contains(x) == out.jobs.dom().contains(x) by {
        if out.order.contains(x) {
            let k = choose|k: int| 0 <= k < out.order.len() && out.order[k] == x;
            if k < room.order.len() {
                assert(room.order[k] == x);
                assert(room.order.to_set().contains(x));
            }
        }
        if x == id {
            assert(out.order[room.order.len() as int] == x);
        } else if room.order.to_set().contains(x) {
            let k = choose|k: int| 0 <= k < room.order.len() && room.order[k] == x;
            assert(out.order[k] == x);
        }
    }
    assert(out.order.to_set() =~= out.jobs.dom());
    assert forall|j: int, k: int|
        0 <= j < out.order.len() && 0 <= k < out.order.len() && j != k implies out.order[j]
        != out.order[k] by {
        if j == room.order.len() {
            assert(room.order.to_set().contains(room.order[k]));
        } else if k == room.order.len() {
            assert(room.order.to_set().contains(room.order[j]));
        }
    }
    out.order.unique_seq_to_set();
}

/// A job that was added is found under its identifier.
pub proof fn added_job_is_found(store: JobStoreView, id: Seq<char>, job: JobView)
    ensures
        store.inserted(id, job).jobs.dom().contains(id),
        store.inserted(id, job).jobs[id] == job,
{
}

/// Adding a job drops no other job than the oldest, and that one only if the store
/// is full.
pub proof fn only_the_oldest_is_dropped(store: JobStoreView, id: Seq<char>, job: JobView, other: Seq<char>)
    requires
        store.jobs.dom().contains(other),
        other != id,
        store.jobs.dom().len() < MAX_JOBS || store.order.len() == 0 || other != store.order[0],
    ensures
        store.inserted(id, job).jobs.dom().contains(other),
        store.inserted(id, job).jobs[other] == store.jobs[other],
{
}

/// When the store is full, adding a job drops the oldest one.
pub proof fn the_oldest_is_dropped(store: JobStoreView, id: Seq<char>, job: JobView)
    requires
        store.jobs.dom().len() >= MAX_JOBS,
        store.order.len() > 0,
        store.order[0] != id,
    ensures
        !store.inserted(id, job).jobs.dom().contains(store.order[0]),
{
}

/// Something that happens to the store: a job is added, or a job that it may hold is
/// changed.
pub enum StoreStep {
    Insert { id: Seq<char>, job: JobView },
    Change { id: Seq<char>, job: JobView },
}

/// The store after the given steps, from an empty one on. There is nothing to change of a
/// job that is not held.
pub open spec fn store_after(steps: Seq<StoreStep>) -> JobStoreView
    decreases steps.len(),
{
    if steps.len() == 0 {
        JobStoreView::none()
    } else {
        let store = store_after(steps.drop_last());
        match steps.last() {
            StoreStep::Insert { id, job } => store.inserted(id, job),
            StoreStep::Change { id, job } => if store.jobs.dom().contains(id) {
                store.updated(id, job)
            } else {
                store
            },
        }
    }
}

/// The identifiers under which jobs were added, in that order.
pub open spec fn added_ids(steps: Seq<StoreStep>) -> Seq<Seq<char>>
    decreases steps.len(),
{
    if steps.len() == 0 {
        Seq::empty()
    } else {
        let before = added_ids(steps.drop_last());
        match steps.last() {
            StoreStep::Insert { id, .. } => before.push(id),
            StoreStep::Change { .. } => before,
        }
    }
}

/// What the last step about the identifier made of its job.
pub open spec fn latest_job(steps: Seq<StoreStep>, wanted: Seq<char>) -> Option<JobView>
    decreases steps.len(),
{
    if steps.len() == 0 {
        None
    } else {
        match steps.last() {
            StoreStep::Insert { id, job } if id == wanted => Some(job),
            StoreStep::Change { id, job } if id == wanted => Some(job),
            _ => latest_job(steps.drop_last(), wanted),
        }
    }
}

/// The last `count` of the identifiers, or all, if these are fewer.
pub open spec fn newest(ids: Seq<Seq<char>>, count: nat) -> Seq<Seq<char>> {
    if ids.len() <= count {
        ids
    } else {
        ids.skip(ids.len() - count)
    }
}

/// However many jobs are added under different identifiers, and whatever is changed in
/// between, the store holds exactly the newest ones up to its limit, in the order in which
/// they were added, and each as the last step about it left it.
pub proof fn the_newest_jobs_are_held(steps: Seq<StoreStep>)
    requires
        added_ids(steps).no_duplicates(),
    ensures
        store_after(steps).is_bounded(),
        store_after(steps).order == newest(added_ids(steps), MAX_JOBS as nat),
        forall|i: int|
            #![trigger added_ids(steps)[i]]
            0 <= i < added_ids(steps).len() ==> (store_after(steps).jobs.dom().contains(
                added_ids(steps)[i],
            ) <==> i + MAX_JOBS >= added_ids(steps).len()),
        forall|id: Seq<char>| #[trigger]
            store_after(steps).jobs.dom().contains(id) ==> added_ids(steps).contains(id)
                && latest_job(steps, id) == Some(store_after(steps).jobs[id]),
    decreases steps.len(),
{
    let ids = added_ids(steps);
    let store = store_after(steps);
    if steps.len() == 0 {
        empty_store_is_bounded();
    } else {
        let front = steps.drop_last();
        let had = added_ids(front);
        let was = store_after(front);
        match steps.last() {
            StoreStep::Insert { id, job } => {
                assert(ids.drop_last() =~= had);
                assert forall|i: int, j: int|
                    0 <= i < had.len() && 0 <= j < had.len() && i != j implies had[i] != had[j] by {
                    assert(ids[i] == had[i] && ids[j] == had[j]);
                }
                the_newest_jobs_are_held(front);
                if was.jobs.dom().contains(id) {
                    let k = choose|k: int| 0 <= k < had.len() && had[k] == id;
                    assert(ids[k] == ids[ids.len() - 1]);
                }
                store_stays_bounded(was, id, job);
                was.order.unique_seq_to_set();
                assert(store.order =~= newest(ids, MAX_JOBS as nat));
            },
            StoreStep::Change { id, job } => {
                the_newest_jobs_are_held(front);
                if was.jobs.dom().contains(id) {
                    changes_keep_the_bound(was, id, job);
                }
            },
        }
    }
    lemma_newest_held(ids, store);
    assert forall|id: Seq<char>| #[trigger] store.jobs.dom().contains(id) implies ids.contains(id)
        && latest_job(steps, id) == Some(store.jobs[id]) by {
        assert(store.order.to_set().contains(id));
        let k = choose|k: int| 0 <= k < store.order.len() && store.order[k] == id;
        assert(ids[k + ids.len() - store.order.len()] == id);
    }
}

proof fn lemma_newest_held(ids: Seq<Seq<char>>, store: JobStoreView)
    requires
        ids.no_duplicates(),
        store.is_bounded(),
        store.order == newest(ids, MAX_JOBS as nat),
    ensures
        forall|i: int|
            #![trigger ids[i]]
            0 <= i < ids.len() ==> (store.jobs.dom().contains(ids[i]) <==> i + MAX_JOBS
                >= ids.len()),
{
    let off = ids.len() - store.order.len();
    assert forall|i: int| #![trigger ids[i]] 0 <= i < ids.len() implies (store.jobs.dom().contains(
        ids[i],
    ) <==> i + MAX_JOBS >= ids.len()) by {
        assert(store.jobs.dom().contains(ids[i]) == store.order.to_set().contains(ids[i]));
        if i >= off {
            assert(store.order[i - off] == ids[i]);
        } else if store.order.contains(ids[i]) {
            let k = choose|k: int| 0 <= k < store.order.len() && store.order[k] == ids[i];
            assert(ids[k + off] == ids[i]);
        }
    }
}

/// Resetting a job twice is resetting it once, and leaves the recording as it is.
pub proof fn reset_keeps_the_recording(job: JobView)
    ensures
        job.cleared().cleared() == job.cleared(),
        job.cleared().audio_data == job.audio_data,
        job.cleared().audio_ext == job.audio_ext,
        job.cleared().job_id == job.job_id,
        job.cleared().filename == job.filename,
{
}

/// Changing a job keeps the store within its bound.
pub proof fn changes_keep_the_bound(store: JobStoreView, id: Seq<char>, job: JobView)
    requires
        store.is_bounded(),
        store.jobs.dom().contains(id),
    ensures
        store.updated(id, job).is_bounded(),
{
    assert(store.updated(id, job).jobs.dom() =~= store.jobs.dom());
}

/// Resetting a job forgets everything that was made of the recording.
pub proof fn reset_forgets_the_rest(job: JobView)
    ensures
        job.cleared().status == JobStatus::Uploaded,
        job.cleared().segments.len() == 0,
        job.cleared().error is None,
        job.cleared().model_name == job.model_name,
        job.cleared().diarize_status == DiarizeStatus::Idle,
        job.cleared().diarize_error is None,
        job.cleared().diarize_speakers.len() == 0,
        job.cleared().diarize_stage.len() == 0,
        job.cleared().diarize_progress == 0,
        job.cleared().diarize_start is None,
        job.cleared().summary_status == SummaryStatus::Idle,
        job.cleared().summary is None,
        job.cleared().summary_error is None,
        job.cleared().summary_start is None,
{
}

} // verus!
