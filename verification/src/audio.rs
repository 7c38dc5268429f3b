//! Audio: reading a recording packet by packet, resampling it in chunks, and
//! matching the transcript with the speakers' turns.

use vstd::prelude::*;

use crate::job::{self, Segment, SegmentView};
use crate::text;
use crate::worker::{self, Turn, TurnView};

verus! {

// ── Reading a recording ─────────────────────────────────────────────────────

/// What the container says of one of its tracks.
pub struct TrackInfo {
    pub id: u32,
    /// Whether the codec of the track is known.
    pub has_codec: bool,
    pub sample_rate: Option<u32>,
    pub channels: Option<usize>,
}

/// The track that is decoded.
#[derive(Debug, Clone, Copy, PartialEq, Eq, Structural)]
pub struct ChosenTrack {
    pub id: u32,
    pub sample_rate: u32,
    pub channels: usize,
}

/// Why a recording cannot be decoded.
#[derive(Debug, Clone, Copy, PartialEq, Eq, Structural)]
pub enum TrackError {
    NoTrack,
    NoSampleRate,
}

impl TrackError {
    /// The message of the error.
    pub open spec fn message_text(self) -> Seq<char> {
        match self {
            TrackError::NoTrack => "no audio track found"@,
            TrackError::NoSampleRate => "unknown sample rate"@,
        }
    }

    /// The message of the error.
    pub fn message(&self) -> (out: String)
        ensures
            out@ == self.message_text(),
    {
        match self {
            TrackError::NoTrack => "no audio track found".to_owned(),
            TrackError::NoSampleRate => "unknown sample rate".to_owned(),
        }
    }

    /// The message of the error in the diarization worker.
    pub open spec fn worker_text(self) -> Seq<char> {
        match self {
            TrackError::NoTrack => "no audio track"@,
            TrackError::NoSampleRate => "audio track has no sample rate"@,
        }
    }

    /// The message of the error in the diarization worker.
    pub fn worker_message(&self) -> (out: String)
        ensures
            out@ == self.worker_text(),
    {
        match self {
            TrackError::NoTrack => "no audio track".to_owned(),
            TrackError::NoSampleRate => "audio track has no sample rate".to_owned(),
        }
    }
}

/// The first track with a known codec.
pub open spec fn is_first_track(tracks: Seq<TrackInfo>, i: int) -> bool {
    &&& 0 <= i < tracks.len()
    &&& tracks[i].has_codec
    &&& forall|j: int| 0 <= j < i ==> !(#[trigger] tracks[j]).has_codec
}

/// Picks the first track with a known codec. Its sample rate has to be known; without
/// a channel layout it has one channel.
pub fn select_track(tracks: &[TrackInfo]) -> (out: Result<ChosenTrack, TrackError>)
    ensures
        match out {
            Ok(t) => exists|i: int| #[trigger]
                is_first_track(tracks@, i) && t.id == tracks@[i].id && Some(t.sample_rate)
                    == tracks@[i].sample_rate && t.channels == match tracks@[i].channels {
                    Some(c) => c,
                    None => 1,
                },
            Err(TrackError::NoTrack) => forall|i: int|
                0 <= i < tracks@.len() ==> !(#[trigger] tracks@[i]).has_codec,
            Err(TrackError::NoSampleRate) => exists|i: int| #[trigger]
                is_first_track(tracks@, i) && tracks@[i].sample_rate is None,
        },
{
    let mut i: usize = 0;
    while i < tracks.len()
        invariant
            i <= tracks.len(),
            forall|j: int| 0 <= j < i ==> !(#[trigger] tracks@[j]).has_codec,
        decreases tracks.len() - i,
    {
        if tracks[i].has_codec {
            assert(is_first_track(tracks@, i as int));
            let channels: usize = match tracks[i].channels {
                Some(c) => c,
                None => 1,
            };
            return match tracks[i].sample_rate {
                Some(sample_rate) => Ok(ChosenTrack { id: tracks[i].id, sample_rate, channels }),
                None => Err(TrackError::NoSampleRate),
            };
        }
        i += 1;
    }
    Err(TrackError::NoTrack)
}

/// What came of asking the container for its next packet.
pub enum PacketOutcome {
    Packet { track: u32 },
    EndOfFile,
    ResetRequired,
    Failed,
}

/// What came of decoding a packet.
pub enum DecodeOutcome {
    Decoded,
    Malformed,
    Failed,
}

/// What happens next while a recording is read.
#[derive(Debug, Clone, Copy, PartialEq, Eq, Structural)]
pub enum ReadStep {
    /// The packet is decoded, or what was decoded is kept.
    Take,
    /// The next packet is asked for.
    Skip,
    /// The recording is complete.
    Finish,
    /// The recording cannot be read.
    Fail,
}

/// Packets of other tracks are skipped, as is a request to reset; the end of the file
/// is the end of the recording.
pub open spec fn packet_step(outcome: PacketOutcome, track: u32) -> ReadStep {
    match outcome {
        PacketOutcome::Packet { track: t } => if t == track {
            ReadStep::Take
        } else {
            ReadStep::Skip
        },
        PacketOutcome::EndOfFile => ReadStep::Finish,
        PacketOutcome::ResetRequired => ReadStep::Skip,
        PacketOutcome::Failed => ReadStep::Fail,
    }
}

/// Packets of other tracks are skipped, as is a request to reset; the end of the file
/// is the end of the recording.
pub fn after_packet(outcome: &PacketOutcome, track: u32) -> (step: ReadStep)
    ensures
        step == packet_step(*outcome, track),
{
    match outcome {
        PacketOutcome::Packet { track: t } => if *t == track {
            ReadStep::Take
        } else {
            ReadStep::Skip
        },
        PacketOutcome::EndOfFile => ReadStep::Finish,
        PacketOutcome::ResetRequired => ReadStep::Skip,
        PacketOutcome::Failed => ReadStep::Fail,
    }
}

/// A malformed packet is skipped.
pub open spec fn decode_step(outcome: DecodeOutcome) -> ReadStep {
    match outcome {
        DecodeOutcome::Decoded => ReadStep::Take,
        DecodeOutcome::Malformed => ReadStep::Skip,
        DecodeOutcome::Failed => ReadStep::Fail,
    }
}

/// A malformed packet is skipped.
pub fn after_decode(outcome: &DecodeOutcome) -> (step: ReadStep)
    ensures
        step == decode_step(*outcome),
{
    match outcome {
        DecodeOutcome::Decoded => ReadStep::Take,
        DecodeOutcome::Malformed => ReadStep::Skip,
        DecodeOutcome::Failed => ReadStep::Fail,
    }
}

// ── Resampling ──────────────────────────────────────────────────────────────

/// The sample rate that the models expect.
pub const TARGET_RATE: u32 = 16_000;

/// How many samples are resampled at a time.
pub const RESAMPLE_CHUNK: usize = 1024;

/// How many chunks `len` samples make.
pub open spec fn chunk_count(len: int) -> int {
    (len + RESAMPLE_CHUNK - 1) / (RESAMPLE_CHUNK as int)
}

/// The chunk number `i` of `len` samples: its start and its end.
pub open spec fn chunk(len: int, i: int) -> (int, int) {
    let start = i * RESAMPLE_CHUNK;
    (start, if start + RESAMPLE_CHUNK <= len { start + RESAMPLE_CHUNK } else { len })
}

/// The chunks in which `len` samples at the given rate are resampled; `None` where the
/// rate is already the one that the models expect.
pub fn resample_plan(len: usize, src_rate: u32) -> (out: Option<Vec<(usize, usize)>>)
    ensures
        match out {
            None => src_rate == TARGET_RATE,
            Some(chunks) => {
                &&& src_rate != TARGET_RATE
                &&& chunks@.len() == chunk_count(len as int)
                &&& forall|i: int|
                    #![trigger chunks@[i]]
                    0 <= i < chunks@.len() ==> (chunks@[i].0 as int, chunks@[i].1 as int) == chunk(
                        len as int,
                        i,
                    )
            },
        },
{
    if src_rate == TARGET_RATE {
        return None;
    }
    let mut chunks: Vec<(usize, usize)> = Vec::new();
    let mut pos: usize = 0;
    while pos < len
        invariant
            pos == if chunks@.len() * RESAMPLE_CHUNK <= len {
                chunks@.len() * RESAMPLE_CHUNK
            } else {
                len as int
            },
            pos == len ==> chunks@.len() == chunk_count(len as int),
            pos < len ==> chunks@.len() < chunk_count(len as int),
            forall|i: int|
                #![trigger chunks@[i]]
                0 <= i < chunks@.len() ==> (chunks@[i].0 as int, chunks@[i].1 as int) == chunk(
                    len as int,
                    i,
                ),
        decreases len - pos,
    {
        let end: usize = if len - pos >= RESAMPLE_CHUNK { pos + RESAMPLE_CHUNK } else { len };
        chunks.push((pos, end));
        pos = end;
    }
    Some(chunks)
}

/// The chunks follow each other without a gap, from the first sample to the last.
pub proof fn chunks_cover(len: int, i: int)
    requires
        0 <= i < chunk_count(len),
        0 <= len,
    ensures
        chunk(len, 0).0 == 0,
        chunk(len, i).0 < chunk(len, i).1 <= len,
        i + 1 < chunk_count(len) ==> chunk(len, i).1 == chunk(len, i + 1).0,
        i + 1 == chunk_count(len) ==> chunk(len, i).1 == len,
{
}

// ── Speakers ────────────────────────────────────────────────────────────────

/// How long a segment and a turn overlap.
pub open spec fn overlap(segment: SegmentView, turn: TurnView) -> int {
    let start = if segment.start >= turn.start { segment.start } else { turn.start };
    let end = if segment.end <= turn.end { segment.end } else { turn.end };
    if end > start {
        end - start
    } else {
        0
    }
}

/// How long a speaker speaks within a segment: the overlaps of all the speaker's turns.
pub open spec fn speaking_time(segment: SegmentView, turns: Seq<TurnView>, speaker: Seq<char>) -> int
    decreases turns.len(),
{
    if turns.len() == 0 {
        0
    } else {
        speaking_time(segment, turns.drop_last(), speaker) + if turns.last().speaker == speaker {
            overlap(segment, turns.last())
        } else {
            0
        }
    }
}

/// Turn `i` overlaps the segment, nobody speaks longer within the segment than its
/// speaker, and of those who speak as long its speaker is the first.
pub open spec fn is_best_turn(segment: SegmentView, turns: Seq<TurnView>, i: int) -> bool {
    &&& 0 <= i < turns.len()
    &&& overlap(segment, turns[i]) > 0
    &&& forall|j: int|
        #![trigger turns[j]]
        0 <= j < turns.len() && overlap(segment, turns[j]) > 0 ==> {
            let theirs = speaking_time(segment, turns, turns[j].speaker);
            let ours = speaking_time(segment, turns, turns[i].speaker);
            theirs < ours || theirs == ours && i <= j
        }
}

/// The speaker of a segment: the one with the most overlap, if any turn overlaps it.
pub open spec fn matched_speaker(segment: SegmentView, turns: Seq<TurnView>) -> Option<Seq<char>> {
    if exists|i: int| is_best_turn(segment, turns, i) {
        Some(turns[choose|i: int| is_best_turn(segment, turns, i)].speaker)
    } else {
        None
    }
}

/// The segments with the speakers that the turns give them.
pub open spec fn with_speakers(segments: Seq<SegmentView>, turns: Seq<TurnView>) -> Seq<SegmentView> {
    segments.map_values(
        |s: SegmentView| SegmentView { speaker: matched_speaker(s, turns), ..s },
    )
}

fn overlap_of(segment: &Segment, turn: &Turn) -> (ms: u64)
    ensures
        ms == overlap(segment@, turn@),
{
    let (from, to) = (segment.start as i128, segment.end as i128);
    let start: i128 = if from >= turn.start as i128 { from } else { turn.start as i128 };
    let end: i128 = if to <= turn.end as i128 { to } else { turn.end as i128 };
    if end > start {
        (end - start) as u64
    } else {
        0
    }
}

fn time_of(segment: &Segment, turns: &[Turn], speaker: &str) -> (ms: u128)
    ensures
        ms == speaking_time(segment@, worker::turn_views(turns@), speaker@),
{
    let ghost v = worker::turn_views(turns@);
    let mut ms: u128 = 0;
    let mut i: usize = 0;
    while i < turns.len()
        invariant
            i <= turns.len(),
            v == worker::turn_views(turns@),
            ms == speaking_time(segment@, v.take(i as int), speaker@),
            ms <= i * u64::MAX,
        decreases turns.len() - i,
    {
        assert(v.take(i + 1).drop_last() =~= v.take(i as int));
        assert(v.take(i + 1).last() == turns@[i as int]@);
        assert(i * u64::MAX + u64::MAX <= u128::MAX) by (nonlinear_arith)
            requires
                0 <= i < 0x1_0000_0000_0000_0000,
        ;
        if text::same_text(turns[i].speaker.as_str(), speaker) {
            ms += overlap_of(segment, &turns[i]) as u128;
        }
        i += 1;
    }
    assert(v.take(i as int) =~= v);
    ms
}

fn match_speaker(segment: &Segment, turns: &[Turn]) -> (speaker: Option<String>)
    ensures
        text::opt_text(speaker) == matched_speaker(segment@, worker::turn_views(turns@)),
{
    let ghost v = worker::turn_views(turns@);
    let ghost s = segment@;
    let mut best: Option<usize> = None;
    let mut best_time: u128 = 0;
    let mut i: usize = 0;
    while i < turns.len()
        invariant
            i <= turns.len(),
            s == segment@,
            v == worker::turn_views(turns@),
            match best {
                None => best_time == 0 && forall|j: int|
                    0 <= j < i ==> overlap(s, #[trigger] v[j]) == 0,
                Some(b) => {
                    &&& b < i
                    &&& overlap(s, v[b as int]) > 0
                    &&& best_time == speaking_time(s, v, v[b as int].speaker)
                    &&& forall|j: int|
                        #![trigger v[j]]
                        0 <= j < i && overlap(s, v[j]) > 0 ==> {
                            let theirs = speaking_time(s, v, v[j].speaker);
                            theirs < best_time || theirs == best_time && b <= j
                        }
                },
            },
        decreases turns.len() - i,
    {
        assert(v[i as int] == turns@[i as int]@);
        if overlap_of(segment, &turns[i]) > 0 {
            let time = time_of(segment, turns, turns[i].speaker.as_str());
            proof {
                lemma_overlap_counts(s, v, i as int);
            }
            if time > best_time {
                best = Some(i);
                best_time = time;
            }
        }
        i += 1;
    }
    match best {
        Some(b) => {
            proof {
                assert(is_best_turn(s, v, b as int));
                let c = choose|c: int| is_best_turn(s, v, c);
                assert(is_best_turn(s, v, c));
                assert(overlap(s, v[c]) > 0 && overlap(s, v[b as int]) > 0);
                assert(v[b as int] == turns@[b as int]@);
            }
            Some(turns[b].speaker.clone())
        },
        None => {
            assert forall|c: int| !is_best_turn(s, v, c) by {
                if 0 <= c < v.len() {
                    assert(overlap(s, v[c]) == 0);
                }
            }
            None
        },
    }
}

proof fn lemma_overlap_counts(segment: SegmentView, turns: Seq<TurnView>, i: int)
    requires
        0 <= i < turns.len(),
    ensures
        speaking_time(segment, turns, turns[i].speaker) >= overlap(segment, turns[i]),
    decreases turns.len(),
{
    let front = turns.drop_last();
    if i < front.len() {
        lemma_overlap_counts(segment, front, i);
        assert(front[i] == turns[i]);
    } else {
        lemma_time_is_counted(segment, front, turns[i].speaker);
    }
}

proof fn lemma_time_is_counted(segment: SegmentView, turns: Seq<TurnView>, speaker: Seq<char>)
    ensures
        speaking_time(segment, turns, speaker) >= 0,
        speaking_time(segment, turns, speaker) > 0 ==> exists|i: int|
            0 <= i < turns.len() && (#[trigger] turns[i]).speaker == speaker && overlap(
                segment,
                turns[i],
            ) > 0,
    decreases turns.len(),
{
    if turns.len() > 0 {
        let front = turns.drop_last();
        lemma_time_is_counted(segment, front, speaker);
        if speaking_time(segment, front, speaker) > 0 {
            let i = choose|i: int|
                0 <= i < front.len() && (#[trigger] front[i]).speaker == speaker && overlap(
                    segment,
                    front[i],
                ) > 0;
            assert(turns[i].speaker == speaker);
        } else {
            assert(turns[turns.len() - 1] == turns.last());
        }
    }
}

/// Gives each segment the speaker with the most overlap.
pub fn assign_speakers(segments: &[Segment], turns: &[Turn]) -> (out: Vec<Segment>)
    ensures
        job::segment_views(out@) == with_speakers(
            job::segment_views(segments@),
            worker::turn_views(turns@),
        ),
{
    let ghost v = job::segment_views(segments@);
    let ghost t = worker::turn_views(turns@);
    let mut out: Vec<Segment> = Vec::new();
    let mut i: usize = 0;
    while i < segments.len()
        invariant
            i <= segments.len(),
            v == job::segment_views(segments@),
            t == worker::turn_views(turns@),
            out.len() == i,
            forall|j: int|
                0 <= j < i ==> (#[trigger] out@[j])@ == (SegmentView {
                    speaker: matched_speaker(v[j], t),
                    ..v[j]
                }),
        decreases segments.len() - i,
    {
        let mut s = segments[i].clone();
        s.speaker = match_speaker(&segments[i], turns);
        assert(v[i as int] == segments@[i as int]@);
        out.push(s);
        i += 1;
    }
    assert(job::segment_views(out@) =~= with_speakers(v, t));
    out
}

/// The speakers of the segments, each once, in the order in which they first speak.
pub open spec fn speakers_heard(segments: Seq<SegmentView>) -> Seq<Seq<char>>
    decreases segments.len(),
{
    if segments.len() == 0 {
        Seq::empty()
    } else {
        let before = speakers_heard(segments.drop_last());
        match segments.last().speaker {
            Some(s) if !before.contains(s) => before.push(s),
            _ => before,
        }
    }
}

/// The speakers of the segments, each once, in the order in which they first speak.
pub fn list_speakers(segments: &[Segment]) -> (out: Vec<String>)
    ensures
        text::texts(out@) == speakers_heard(job::segment_views(segments@)),
{
    let ghost v = job::segment_views(segments@);
    let mut out: Vec<String> = Vec::new();
    let mut i: usize = 0;
    assert(text::texts(out@) =~= speakers_heard(v.take(0)));
    while i < segments.len()
        invariant
            i <= segments.len(),
            v == job::segment_views(segments@),
            text::texts(out@) == speakers_heard(v.take(i as int)),
        decreases segments.len() - i,
    {
        let ghost before = text::texts(out@);
        assert(v.take(i + 1).drop_last() =~= v.take(i as int));
        assert(v.take(i + 1).last() == segments@[i as int]@);
        if let Some(s) = &segments[i].speaker {
            if !text::has_text(&out, s.as_str()) {
                out.push(s.clone());
                assert(text::texts(out@) =~= before.push(s@));
            }
        }
        i += 1;
    }
    assert(v.take(i as int) =~= v);
    out
}

/// The list of speakers holds exactly the speakers of the segments, and each once.
pub proof fn speakers_heard_are_the_speakers(segments: Seq<SegmentView>)
    ensures
        speakers_heard(segments).no_duplicates(),
        forall|s: Seq<char>|
            #[trigger] speakers_heard(segments).contains(s) <==> exists|i: int|
                0 <= i < segments.len() && (#[trigger] segments[i]).speaker == Some(s),
    decreases segments.len(),
{
    let heard = speakers_heard(segments);
    if segments.len() > 0 {
        let front = segments.drop_last();
        let before = speakers_heard(front);
        speakers_heard_are_the_speakers(front);
        assert forall|s: Seq<char>| #[trigger] heard.contains(s) <==> exists|i: int|
            0 <= i < segments.len() && (#[trigger] segments[i]).speaker == Some(s) by {
            if heard.contains(s) {
                if before.contains(s) {
                    let i = choose|i: int| 0 <= i < front.len() && (#[trigger] front[i]).speaker == Some(s);
                    assert(segments[i].speaker == Some(s));
                } else {
                    let k = choose|k: int| 0 <= k < heard.len() && heard[k] == s;
                    if k < before.len() {
                        assert(before[k] == s);
                    }
                    assert(segments[segments.len() - 1].speaker == Some(s));
                }
            }
            if exists|i: int| 0 <= i < segments.len() && (#[trigger] segments[i]).speaker == Some(s) {
                let i = choose|i: int| 0 <= i < segments.len() && (#[trigger] segments[i]).speaker == Some(s);
                if i < front.len() {
                    assert(front[i].speaker == Some(s));
                    assert(before.contains(s));
                    let k = choose|k: int| 0 <= k < before.len() && before[k] == s;
                    assert(heard[k] == s);
                } else if !before.contains(s) {
                    assert(heard[before.len() as int] == s);
                }
            }
        }
    }
}

proof fn lemma_best_turn(segment: SegmentView, turns: Seq<TurnView>, n: int) -> (best: int)
    requires
        0 <= n <= turns.len(),
        exists|i: int| 0 <= i < n && overlap(segment, #[trigger] turns[i]) > 0,
    ensures
        0 <= best < n,
        overlap(segment, turns[best]) > 0,
        forall|j: int|
            #![trigger turns[j]]
            0 <= j < n && overlap(segment, turns[j]) > 0 ==> {
                let theirs = speaking_time(segment, turns, turns[j].speaker);
                let ours = speaking_time(segment, turns, turns[best].speaker);
                theirs < ours || theirs == ours && best <= j
            },
    decreases n,
{
    let last = n - 1;
    if exists|i: int| 0 <= i < last && overlap(segment, #[trigger] turns[i]) > 0 {
        let b = lemma_best_turn(segment, turns, last);
        let ours = speaking_time(segment, turns, turns[b].speaker);
        if overlap(segment, turns[last]) > 0 && speaking_time(segment, turns, turns[last].speaker) > ours {
            last
        } else {
            b
        }
    } else {
        last
    }
}

/// A segment has a speaker exactly if some turn overlaps it, and then nobody's turns
/// overlap it longer, taken together, than those of the speaker.
pub proof fn the_most_overlap_speaks(segment: SegmentView, turns: Seq<TurnView>, other: Seq<char>)
    ensures
        matched_speaker(segment, turns) is Some <==> exists|i: int|
            0 <= i < turns.len() && overlap(segment, #[trigger] turns[i]) > 0,
        matched_speaker(segment, turns) matches Some(s) ==> {
            &&& speaking_time(segment, turns, s) > 0
            &&& speaking_time(segment, turns, other) <= speaking_time(segment, turns, s)
        },
{
    if exists|i: int| 0 <= i < turns.len() && overlap(segment, #[trigger] turns[i]) > 0 {
        let b = lemma_best_turn(segment, turns, turns.len() as int);
        assert(is_best_turn(segment, turns, b));
    }
    if exists|i: int| is_best_turn(segment, turns, i) {
        let b = choose|b: int| is_best_turn(segment, turns, b);
        assert(overlap(segment, turns[b]) > 0);
        lemma_overlap_counts(segment, turns, b);
        lemma_time_is_counted(segment, turns, other);
        if speaking_time(segment, turns, other) > 0 {
            let i = choose|i: int|
                0 <= i < turns.len() && (#[trigger] turns[i]).speaker == other && overlap(
                    segment,
                    turns[i],
                ) > 0;
            assert(turns[i].speaker == other);
        }
    }
}

proof fn lemma_same_span(a: SegmentView, b: SegmentView, turns: Seq<TurnView>, speaker: Seq<char>)
    requires
        a.start == b.start,
        a.end == b.end,
    ensures
        speaking_time(a, turns, speaker) == speaking_time(b, turns, speaker),
    decreases turns.len(),
{
    if turns.len() > 0 {
        lemma_same_span(a, b, turns.drop_last(), speaker);
    }
}

proof fn lemma_same_best(a: SegmentView, b: SegmentView, turns: Seq<TurnView>, i: int)
    requires
        a.start == b.start,
        a.end == b.end,
        is_best_turn(a, turns, i),
    ensures
        is_best_turn(b, turns, i),
{
    lemma_same_span(a, b, turns, turns[i].speaker);
    assert forall|j: int|
        #![trigger turns[j]]
        0 <= j < turns.len() && overlap(b, turns[j]) > 0 implies {
        let theirs = speaking_time(b, turns, turns[j].speaker);
        let ours = speaking_time(b, turns, turns[i].speaker);
        theirs < ours || theirs == ours && i <= j
    } by {
        lemma_same_span(a, b, turns, turns[j].speaker);
        assert(overlap(a, turns[j]) > 0);
    }
}

/// Giving the segments their speakers changes nothing else of them, and doing it twice
/// is doing it once.
pub proof fn speakers_are_given_once(segments: Seq<SegmentView>, turns: Seq<TurnView>)
    ensures
        with_speakers(with_speakers(segments, turns), turns) == with_speakers(segments, turns),
        with_speakers(segments, turns).len() == segments.len(),
        forall|i: int|
            0 <= i < segments.len() ==> (#[trigger] with_speakers(segments, turns)[i]) == (
            SegmentView { speaker: matched_speaker(segments[i], turns), ..segments[i] }),
{
    let once = with_speakers(segments, turns);
    let twice = with_speakers(once, turns);
    assert forall|i: int| 0 <= i < segments.len() implies twice[i] == once[i] by {
        let a = segments[i];
        let b = once[i];
        if exists|j: int| is_best_turn(a, turns, j) {
            let c = choose|c: int| is_best_turn(a, turns, c);
            lemma_same_best(a, b, turns, c);
            let d = choose|d: int| is_best_turn(b, turns, d);
            assert(is_best_turn(b, turns, d));
            assert(overlap(b, turns[c]) > 0 && overlap(b, turns[d]) > 0);
            assert(c == d);
        } else {
            assert forall|j: int| !is_best_turn(b, turns, j) by {
                if is_best_turn(b, turns, j) {
                    lemma_same_best(b, a, turns, j);
                }
            }
        }
    }
    assert(twice =~= once);
}

/// The overlap of a segment and a turn is how many milliseconds belong to both.
pub proof fn overlaps_count_common_time(segment: SegmentView, turn: TurnView)
    ensures
        ({
            let common = Set::new(
                |t: int| segment.start <= t < segment.end && turn.start <= t < turn.end,
            );
            common.finite() && overlap(segment, turn) == common.len()
        }),
{
    let common = Set::new(|t: int| segment.start <= t < segment.end && turn.start <= t < turn.end);
    let start = if segment.start >= turn.start { segment.start } else { turn.start };
    let end = if segment.end <= turn.end { segment.end } else { turn.end };
    if start < end {
        vstd::set_lib::lemma_int_range(start, end);
        assert(common =~= vstd::set_lib::set_int_range(start, end));
    } else {
        assert(common =~= Set::empty());
    }
}

/// The time that a speaker speaks within a segment adds up over the turns; the turns of
/// others count nothing.
pub proof fn speaking_times_add_up(
    segment: SegmentView,
    a: Seq<TurnView>,
    b: Seq<TurnView>,
    turn: TurnView,
    speaker: Seq<char>,
)
    ensures
        speaking_time(segment, a + b, speaker) == speaking_time(segment, a, speaker) + speaking_time(
            segment,
            b,
            speaker,
        ),
        turn.speaker == speaker ==> speaking_time(segment, seq![turn], speaker) == overlap(segment, turn),
        turn.speaker != speaker ==> speaking_time(segment, seq![turn], speaker) == 0,
        speaking_time(segment, Seq::empty(), speaker) == 0,
    decreases b.len(),
{
    reveal_with_fuel(speaking_time, 2);
    assert(seq![turn].drop_last() =~= Seq::empty());
    if b.len() > 0 {
        speaking_times_add_up(segment, a, b.drop_last(), turn, speaker);
        assert((a + b).drop_last() =~= a + b.drop_last());
        assert((a + b).last() == b.last());
    } else {
        assert(a + b =~= a);
    }
}

/// Of speakers who speak equally long within a segment, it is given to the one whose turn
/// comes first.
pub proof fn the_first_of_equals_speaks(segment: SegmentView, turns: Seq<TurnView>) -> (i: int)
    requires
        matched_speaker(segment, turns) is Some,
    ensures
        0 <= i < turns.len(),
        overlap(segment, turns[i]) > 0,
        matched_speaker(segment, turns) == Some(turns[i].speaker),
        forall|j: int|
            0 <= j < i && overlap(segment, #[trigger] turns[j]) > 0 ==> speaking_time(
                segment,
                turns,
                turns[j].speaker,
            ) < speaking_time(segment, turns, turns[i].speaker),
{
    let i = choose|i: int| is_best_turn(segment, turns, i);
    assert(is_best_turn(segment, turns, i));
    i
}

/// The speakers are listed in the order in which they are first heard: more segments only
/// add speakers at the end.
pub proof fn speakers_are_listed_as_they_come(a: Seq<SegmentView>, b: Seq<SegmentView>)
    ensures
        speakers_heard(a).len() <= speakers_heard(a + b).len(),
        speakers_heard(a + b).take(speakers_heard(a).len() as int) == speakers_heard(a),
    decreases b.len(),
{
    if b.len() > 0 {
        speakers_are_listed_as_they_come(a, b.drop_last());
        assert((a + b).drop_last() =~= a + b.drop_last());
        let before = speakers_heard(a + b.drop_last());
        let n = speakers_heard(a).len() as int;
        assert(speakers_heard(a + b).take(n) =~= before.take(n));
    } else {
        assert(a + b =~= a);
        assert(speakers_heard(a).take(speakers_heard(a).len() as int) =~= speakers_heard(a));
    }
}

/// Every chunk that is resampled takes 1024 samples; only the last one may take fewer.
pub proof fn chunks_are_full(len: int, i: int)
    requires
        0 <= len,
        0 <= i < chunk_count(len),
    ensures
        i + 1 < chunk_count(len) ==> chunk(len, i).1 - chunk(len, i).0 == 1024,
        0 < chunk(len, i).1 - chunk(len, i).0 <= 1024,
        len > 0 <==> chunk_count(len) > 0,
{
}

/// A recording is what its track holds: exactly the packets of that track are decoded, and
/// what is decoded is kept. It is complete only at the end of the file, and only a failure
/// stops it before.
pub proof fn a_recording_is_its_track(outcome: PacketOutcome, decoded: DecodeOutcome, track: u32)
    ensures
        packet_step(outcome, track) == ReadStep::Take <==> outcome == (PacketOutcome::Packet { track }),
        packet_step(outcome, track) == ReadStep::Finish <==> outcome is EndOfFile,
        packet_step(outcome, track) == ReadStep::Fail <==> outcome is Failed,
        decode_step(decoded) == ReadStep::Take <==> decoded is Decoded,
        decode_step(decoded) == ReadStep::Fail <==> decoded is Failed,
        decode_step(decoded) != ReadStep::Finish,
{
}

/// There is one first track with a known codec, and no track before it has one.
pub proof fn the_first_track_is_taken(tracks: Seq<TrackInfo>, i: int, j: int)
    requires
        is_first_track(tracks, i),
    ensures
        tracks[i].has_codec,
        is_first_track(tracks, j) ==> j == i,
        0 <= j < tracks.len() && tracks[j].has_codec ==> i <= j,
{
    if 0 <= j < i {
        assert(!tracks[j].has_codec);
    }
    if is_first_track(tracks, j) && i < j {
        assert(!tracks[i].has_codec);
    }
}

} // verus!
