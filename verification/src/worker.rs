//! From audio samples to speaker turns: windows over the audio, speech segments
//! from frame labels, and turns from segments.
//!
//! Positions in the audio are sample indices; times are milliseconds.

use vstd::prelude::*;

use crate::clustering;
use crate::text;

verus! {

/// Samples per second of the audio that is analysed.
pub const SAMPLE_RATE: usize = 16_000;

/// Length of a segmentation window in samples.
pub const SEG_WIN_SAMPLES: usize = 160_000;

/// Distance from one segmentation window to the next.
pub const SEG_STEP_SAMPLES: usize = 80_000;

/// Samples per frame of the segmentation model.
pub const SEG_FRAME_SHIFT: usize = 270;

/// Shorter speech segments are dropped.
pub const MIN_SEG_SAMPLES: usize = 3_200;

/// Turns of one speaker with at most this gap in milliseconds between them are merged.
pub const MERGE_GAP_MS: u64 = 1_000;

/// Length of a window in samples where there is no segmentation model.
pub const WINDOW_SAMPLES: usize = 40_000;

/// Distance from one such window to the next.
pub const STEP_SAMPLES: usize = 20_000;

/// A window continues a turn that ended at most this many samples before it.
pub const JOIN_SAMPLES: usize = 20_800;

/// Width of the smoothing of window labels.
pub const SMOOTH_K: usize = 3;

/// Shorter turns are merged into a neighbour, in milliseconds.
pub const MIN_TURN_MS: u64 = 1_500;

/// At most this many speakers are estimated.
pub const MAX_SPEAKERS: usize = 8;

// ── Turns ───────────────────────────────────────────────────────────────────

/// A stretch of time, in milliseconds, in which one speaker speaks.
pub struct Turn {
    pub start: u64,
    pub end: u64,
    pub speaker: String,
}

/// The values of a turn.
#[verifier::ext_equal]
pub struct TurnView {
    pub start: int,
    pub end: int,
    pub speaker: Seq<char>,
}

impl View for Turn {
    type V = TurnView;

    open spec fn view(&self) -> TurnView {
        TurnView { start: self.start as int, end: self.end as int, speaker: self.speaker@ }
    }
}

/// The values of a list of turns.
pub open spec fn turn_views(turns: Seq<Turn>) -> Seq<TurnView> {
    turns.map_values(|t: Turn| t@)
}

/// The name of the speaker with the given number.
pub open spec fn speaker_name(label: nat) -> Seq<char> {
    "SPEAKER_"@ + text::zero_padded(text::decimal(label), 2)
}

/// The name of the speaker with the given number.
pub fn speaker_label(label: usize) -> (name: String)
    ensures
        name@ == speaker_name(label as nat),
{
    let mut name = "SPEAKER_".to_owned();
    name.append(text::padded_text(label as u64, 2).as_str());
    name
}

/// The time of a sample position in milliseconds, rounded half up.
pub open spec fn sample_ms(pos: int) -> int {
    (pos * 1000 + 8_000) / 16_000
}

/// The time of a sample position in milliseconds, rounded half up.
pub fn sample_time(pos: usize) -> (ms: u64)
    ensures
        ms == sample_ms(pos as int),
{
    let whole: u64 = pos as u64 / 16;
    let rest: u64 = pos as u64 % 16;
    whole + (rest + 8) / 16
}

// ── Merging neighbours ──────────────────────────────────────────────────────

/// `next` continues `last`: the same speaker, after at most the merge gap.
pub open spec fn continues(last: TurnView, next: TurnView) -> bool {
    last.speaker == next.speaker && next.start - last.end <= MERGE_GAP_MS
}

/// Turns that continue the one before them, merged into it.
pub open spec fn merged_turns(turns: Seq<TurnView>) -> Seq<TurnView>
    decreases turns.len(),
{
    if turns.len() == 0 {
        Seq::empty()
    } else {
        let done = merged_turns(turns.drop_last());
        let next = turns.last();
        if done.len() > 0 && continues(done.last(), next) {
            done.drop_last().push(TurnView { end: next.end, ..done.last() })
        } else {
            done.push(next)
        }
    }
}

/// Merges each turn that continues the one before it into that one.
pub fn merge_adjacent(turns: Vec<Turn>) -> (out: Vec<Turn>)
    ensures
        turn_views(out@) == merged_turns(turn_views(turns@)),
{
    let ghost all = turn_views(turns@);
    let mut out: Vec<Turn> = Vec::new();
    let mut i: usize = 0;
    assert(turn_views(out@) =~= merged_turns(all.take(0)));
    while i < turns.len()
        invariant
            i <= turns.len(),
            all == turn_views(turns@),
            turn_views(out@) == merged_turns(all.take(i as int)),
        decreases turns.len() - i,
    {
        let t = &turns[i];
        assert(all.take(i + 1).drop_last() =~= all.take(i as int));
        assert(all.take(i + 1).last() == t@);
        let ghost done = turn_views(out@);
        let n = out.len();
        let mut joins: bool = false;
        if n > 0 {
            let last = &out[n - 1];
            assert(done.last() == last@);
            joins = last.speaker == t.speaker && (t.start <= last.end || t.start - last.end
                <= MERGE_GAP_MS);
        }
        if joins {
            out[n - 1].end = t.end;
            assert(turn_views(out@) =~= done.drop_last().push(TurnView { end: t@.end, ..done.last() }));
        } else {
            out.push(Turn { start: t.start, end: t.end, speaker: t.speaker.clone() });
            assert(turn_views(out@) =~= done.push(t@));
        }
        i += 1;
    }
    assert(all.take(i as int) =~= all);
    out
}

/// After merging, no turn continues the one before it.
pub proof fn merged_turns_stand_apart(turns: Seq<TurnView>, i: int)
    requires
        0 <= i < merged_turns(turns).len() - 1,
    ensures
        !continues(merged_turns(turns)[i], merged_turns(turns)[i + 1]),
    decreases turns.len(),
{
    let done = merged_turns(turns.drop_last());
    if i < done.len() - 1 {
        merged_turns_stand_apart(turns.drop_last(), i);
    }
}

/// Merging turns that were merged before changes nothing.
pub proof fn merging_twice_is_merging_once(turns: Seq<TurnView>)
    ensures
        merged_turns(merged_turns(turns)) == merged_turns(turns),
{
    let out = merged_turns(turns);
    assert forall|i: int| 0 <= i < out.len() - 1 implies !continues(#[trigger] out[i], out[i + 1]) by {
        merged_turns_stand_apart(turns, i);
    }
    lemma_apart_unchanged(out);
}

proof fn lemma_apart_unchanged(turns: Seq<TurnView>)
    requires
        forall|i: int| 0 <= i < turns.len() - 1 ==> !continues(#[trigger] turns[i], turns[i + 1]),
    ensures
        merged_turns(turns) == turns,
    decreases turns.len(),
{
    if turns.len() > 0 {
        let front = turns.drop_last();
        assert forall|i: int| 0 <= i < front.len() - 1 implies !continues(#[trigger] front[i], front[i + 1]) by {
            assert(front[i] == turns[i] && front[i + 1] == turns[i + 1]);
        }
        lemma_apart_unchanged(front);
        if front.len() > 0 {
            assert(!continues(turns[turns.len() - 2], turns[turns.len() - 1]));
        }
        assert(front.push(turns.last()) =~= turns);
    } else {
        assert(merged_turns(turns) =~= turns);
    }
}

// ── Short turns ─────────────────────────────────────────────────────────────

/// How long a turn lasts.
pub open spec fn duration(t: TurnView) -> int {
    t.end - t.start
}

/// Turn `i` lasts less than `min_ms` and is the shortest; of equally short ones the first.
pub open spec fn is_shortest(turns: Seq<TurnView>, min_ms: int, i: int) -> bool {
    &&& 0 <= i < turns.len()
    &&& duration(turns[i]) < min_ms
    &&& forall|j: int|
        0 <= j < turns.len() && j != i ==> {
            ||| duration(#[trigger] turns[j]) > duration(turns[i])
            ||| duration(turns[j]) == duration(turns[i]) && j > i
        }
}

/// Whether a turn lasts less than `min_ms`.
pub open spec fn has_short(turns: Seq<TurnView>, min_ms: int) -> bool {
    exists|i: int| 0 <= i < turns.len() && duration(#[trigger] turns[i]) < min_ms
}

/// The turn that absorbs turn `i`: the longer neighbour, of equally long ones the
/// one before.
pub open spec fn absorber(turns: Seq<TurnView>, i: int) -> int {
    if i > 0 && (i + 1 >= turns.len() || duration(turns[i - 1]) >= duration(turns[i + 1])) {
        i - 1
    } else {
        i + 1
    }
}

/// Turn `a` stretched over turn `b` as well.
pub open spec fn stretched(a: TurnView, b: TurnView) -> TurnView {
    TurnView {
        start: if a.start <= b.start { a.start } else { b.start },
        end: if a.end >= b.end { a.end } else { b.end },
        speaker: a.speaker,
    }
}

/// The turns with turn `i` absorbed by a neighbour.
pub open spec fn absorbed(turns: Seq<TurnView>, i: int) -> Seq<TurnView> {
    let to = absorber(turns, i);
    turns.update(to, stretched(turns[to], turns[i])).remove(i)
}

/// The turns after the shortest one was absorbed, again and again, until none lasts
/// less than `min_ms` or only one is left.
pub open spec fn settled_turns(turns: Seq<TurnView>, min_ms: int) -> Seq<TurnView>
    decreases turns.len(),
{
    if turns.len() > 1 && has_short(turns, min_ms) {
        let i = choose|i: int| is_shortest(turns, min_ms, i);
        if 0 <= i < turns.len() {
            settled_turns(absorbed(turns, i), min_ms)
        } else {
            turns
        }
    } else {
        turns
    }
}

proof fn lemma_shortest_unique(turns: Seq<TurnView>, min_ms: int, i: int)
    requires
        is_shortest(turns, min_ms, i),
    ensures
        has_short(turns, min_ms),
        (choose|j: int| is_shortest(turns, min_ms, j)) == i,
{
    let j = choose|j: int| is_shortest(turns, min_ms, j);
    assert(is_shortest(turns, min_ms, j));
    assert(duration(turns[i]) < min_ms);
    assert(duration(turns[j]) < min_ms);
}

fn duration_of(t: &Turn) -> (ms: i128)
    ensures
        ms == duration(t@),
{
    t.end as i128 - t.start as i128
}

fn find_shortest(turns: &Vec<Turn>, min_ms: u64) -> (at: Option<usize>)
    ensures
        match at {
            Some(i) => is_shortest(turn_views(turns@), min_ms as int, i as int),
            None => !has_short(turn_views(turns@), min_ms as int),
        },
{
    let ghost v = turn_views(turns@);
    let mut at: Option<usize> = None;
    let mut i: usize = 0;
    while i < turns.len()
        invariant
            i <= turns.len(),
            v == turn_views(turns@),
            at is None ==> forall|j: int| 0 <= j < i ==> duration(#[trigger] v[j]) >= min_ms,
            at matches Some(b) ==> {
                &&& b < i
                &&& duration(v[b as int]) < min_ms
                &&& forall|j: int|
                    0 <= j < i && j != b ==> {
                        ||| duration(#[trigger] v[j]) > duration(v[b as int])
                        ||| duration(v[j]) == duration(v[b as int]) && j > b
                    }
            },
        decreases turns.len() - i,
    {
        let d = duration_of(&turns[i]);
        assert(v[i as int] == turns@[i as int]@);
        let shorter: bool = match at {
            Some(b) => {
                assert(v[b as int] == turns@[b as int]@);
                d < duration_of(&turns[b])
            },
            None => d < min_ms as i128,
        };
        if shorter {
            at = Some(i);
        }
        i += 1;
    }
    at
}

/// Merges each turn that lasts less than `min_ms` into its longer neighbour, the
/// shortest first.
pub fn merge_short_turns(turns: Vec<Turn>, min_ms: u64) -> (out: Vec<Turn>)
    ensures
        turn_views(out@) == settled_turns(turn_views(turns@), min_ms as int),
        out@.len() > 1 ==> !has_short(turn_views(out@), min_ms as int),
{
    let ghost all = turn_views(turns@);
    let mut out = turns;
    while out.len() > 1
        invariant
            settled_turns(all, min_ms as int) == settled_turns(turn_views(out@), min_ms as int),
        ensures
            turn_views(out@) == settled_turns(all, min_ms as int),
            out@.len() > 1 ==> !has_short(turn_views(out@), min_ms as int),
        decreases out.len(),
    {
        let ghost before = turn_views(out@);
        match find_shortest(&out, min_ms) {
            None => {
                break ;
            },
            Some(i) => {
                proof {
                    lemma_shortest_unique(before, min_ms as int, i as int);
                    assert forall|j: int| 0 <= j < out@.len() implies before[j] == #[trigger] out@[j]@ by {}
                }
                let n = out.len();
                let left: bool = i > 0 && (i + 1 >= n || duration_of(&out[i - 1]) >= duration_of(
                    &out[i + 1],
                ));
                let to: usize = if left { i - 1 } else { i + 1 };
                assert(to == absorber(before, i as int));
                let start: u64 = if out[to].start <= out[i].start { out[to].start } else { out[i].start };
                let end: u64 = if out[to].end >= out[i].end { out[to].end } else { out[i].end };
                out[to].start = start;
                out[to].end = end;
                out.remove(i);
                assert(turn_views(out@) =~= absorbed(before, i as int));
            },
        }
    }
    out
}

/// No time is lost when short turns are merged: the turns still reach as far back
/// and as far forward.
pub proof fn settling_keeps_the_span(turns: Seq<TurnView>, min_ms: int, t: TurnView)
    requires
        turns.contains(t),
    ensures
        exists|u: TurnView|
            #[trigger] settled_turns(turns, min_ms).contains(u) && u.start <= t.start && t.end <= u.end,
    decreases turns.len(),
{
    let out = settled_turns(turns, min_ms);
    if turns.len() > 1 && has_short(turns, min_ms) {
        let i = choose|i: int| is_shortest(turns, min_ms, i);
        if 0 <= i < turns.len() {
            let next = absorbed(turns, i);
            let to = absorber(turns, i);
            let k = choose|k: int| 0 <= k < turns.len() && turns[k] == t;
            let at = if to < i { to } else { to - 1 };
            let wide = stretched(turns[to], turns[i]);
            assert(next[at] == wide);
            let cover = if k == i || k == to { wide } else { t };
            if k != i && k != to {
                let kk = if k < i { k } else { k - 1 };
                assert(next[kk] == t);
            }
            assert(next.contains(cover));
            settling_keeps_the_span(next, min_ms, cover);
        } else {
            assert(out.contains(t));
        }
    } else {
        assert(out.contains(t));
    }
}

// ── Segmentation windows ────────────────────────────────────────────────────

/// How many segmentation windows cover `n` samples: one starts at every step until
/// one reaches the end.
pub open spec fn seg_window_count(n: int) -> int {
    if n <= 0 {
        0
    } else if n <= SEG_WIN_SAMPLES {
        1
    } else {
        1 + (n - SEG_WIN_SAMPLES + SEG_STEP_SAMPLES - 1) / (SEG_STEP_SAMPLES as int)
    }
}

/// The segmentation window number `i` over `n` samples: its start and its end.
pub open spec fn seg_window(n: int, i: int) -> (int, int) {
    let start = i * SEG_STEP_SAMPLES;
    (start, if start + SEG_WIN_SAMPLES <= n { start + SEG_WIN_SAMPLES } else { n })
}

/// The start and the end of each segmentation window over `n` samples.
pub fn segmentation_windows(n: usize) -> (out: Vec<(usize, usize)>)
    ensures
        out@.len() == seg_window_count(n as int),
        forall|i: int|
            #![trigger out@[i]]
            0 <= i < out@.len() ==> (out@[i].0 as int, out@[i].1 as int) == seg_window(n as int, i),
{
    let mut out: Vec<(usize, usize)> = Vec::new();
    let mut start: usize = 0;
    while start < n
        invariant_except_break
            start < n || n == 0,
            start == out@.len() * SEG_STEP_SAMPLES,
            out@.len() > 0 ==> start + SEG_STEP_SAMPLES < n,
            forall|i: int|
                #![trigger out@[i]]
                0 <= i < out@.len() ==> (out@[i].0 as int, out@[i].1 as int) == seg_window(n as int, i),
        ensures
            out@.len() == seg_window_count(n as int),
            forall|i: int|
                #![trigger out@[i]]
                0 <= i < out@.len() ==> (out@[i].0 as int, out@[i].1 as int) == seg_window(n as int, i),
        decreases n - start,
    {
        let ghost k = out@.len() as int;
        if n - start <= SEG_WIN_SAMPLES {
            out.push((start, n));
            break ;
        }
        out.push((start, start + SEG_WIN_SAMPLES));
        start += SEG_STEP_SAMPLES;
    }
    out
}

/// Every sample lies in a segmentation window.
pub proof fn segmentation_windows_cover(n: int, pos: int)
    requires
        0 <= pos < n,
    ensures
        exists|i: int|
            0 <= i < seg_window_count(n) && (#[trigger] seg_window(n, i)).0 <= pos < seg_window(n, i).1,
{
    let last = seg_window_count(n) - 1;
    let k = pos / (SEG_STEP_SAMPLES as int);
    if k <= last {
        let w = seg_window(n, k);
        assert(w.0 <= pos < w.1);
    } else {
        let w = seg_window(n, last);
        assert(w.0 <= pos < w.1);
    }
}

// ── Frames ──────────────────────────────────────────────────────────────────

/// How many frames the samples `0..n` and one more window take.
pub open spec fn frame_total(n: int) -> int {
    (n + SEG_FRAME_SHIFT - 1) / (SEG_FRAME_SHIFT as int) + (SEG_WIN_SAMPLES + SEG_FRAME_SHIFT - 1) / (
    SEG_FRAME_SHIFT as int)
}

/// A table with one unmarked entry for each frame of `n` samples.
pub fn blank_frames(n: usize) -> (out: Vec<bool>)
    requires
        n <= usize::MAX - 270,
        frame_total(n as int) <= usize::MAX,
    ensures
        out@ == Seq::new(frame_total(n as int) as nat, |i: int| false),
{
    let total: usize = (n + SEG_FRAME_SHIFT - 1) / SEG_FRAME_SHIFT + (SEG_WIN_SAMPLES
        + SEG_FRAME_SHIFT - 1) / SEG_FRAME_SHIFT;
    let mut out: Vec<bool> = Vec::new();
    let mut i: usize = 0;
    while i < total
        invariant
            i <= total,
            out@ == Seq::new(i as nat, |j: int| false),
        decreases total - i,
    {
        out.push(false);
        i += 1;
        assert(out@ =~= Seq::new(i as nat, |j: int| false));
    }
    out
}

/// The number of speakers that a model with the given number of classes tells
/// apart: the root of twice the classes other than silence, rounded down.
pub open spec fn is_speaker_count(classes: int, speakers: int) -> bool {
    if classes <= 1 {
        speakers == 0
    } else {
        &&& 0 <= speakers
        &&& speakers * speakers <= 2 * (classes - 1)
        &&& 2 * (classes - 1) < (speakers + 1) * (speakers + 1)
    }
}

/// The number of speakers that a model with the given number of classes tells apart.
pub fn speakers_of_classes(classes: usize) -> (speakers: usize)
    ensures
        is_speaker_count(classes as int, speakers as int),
{
    if classes <= 1 {
        return 0;
    }
    let twice: u128 = 2 * (classes as u128 - 1);
    let mut k: usize = 0;
    while ((k as u128) + 1) * ((k as u128) + 1) <= twice
        invariant
            classes > 1,
            twice == 2 * (classes as int - 1),
            k as int * k as int <= twice,
            k <= classes,
            (k as int + 1) * (k as int + 1) <= u128::MAX,
        decreases classes - k,
    {
        proof {
            let c = classes as int;
            let x = k as int + 1;
            assert(x < c || (c == 2 && x == 1) || (c == 3 && x == 2)) by (nonlinear_arith)
                requires
                    x * x <= 2 * (c - 1),
                    x >= 1,
                    c > 1,
            ;
            assert(x < 0x2_0000_0000) by (nonlinear_arith)
                requires
                    x * x <= 2 * (c - 1),
                    0 < c <= 0xffff_ffff_ffff_ffff,
                    0 <= x,
            ;
            assert((x + 1) * (x + 1) <= u128::MAX) by (nonlinear_arith)
                requires
                    0 <= x < 0x2_0000_0000,
            ;
        }
        k += 1;
    }
    k
}

/// With one class for silence, one for each speaker and one for each pair of
/// speakers, the number of classes gives back the number of speakers.
pub proof fn classes_give_speakers(speakers: int, k: int)
    requires
        speakers >= 1,
        is_speaker_count(1 + speakers * (speakers + 1) / 2, k),
    ensures
        k == speakers,
{
    let m = speakers * (speakers + 1) / 2;
    assert(speakers * (speakers + 1) % 2 == 0) by {
        let h = speakers / 2;
        if speakers % 2 == 0 {
            assert(speakers * (speakers + 1) == 2 * (h * (speakers + 1))) by (nonlinear_arith)
                requires
                    speakers == 2 * h,
            ;
        } else {
            assert(speakers * (speakers + 1) == 2 * (speakers * (h + 1))) by (nonlinear_arith)
                requires
                    speakers == 2 * h + 1,
            ;
        }
    }
    assert(2 * m == speakers * (speakers + 1));
    assert(speakers * (speakers + 1) >= 2) by (nonlinear_arith)
        requires
            speakers >= 1,
    ;
    assert(k == speakers) by (nonlinear_arith)
        requires
            k >= 0,
            speakers >= 1,
            k * k <= speakers * (speakers + 1),
            speakers * (speakers + 1) < (k + 1) * (k + 1),
    ;
}

/// Frame `f` of a window with the given class keys, `classes` to a frame, has
/// exactly one speaker: its last largest class is one of `1..=speakers`.
pub open spec fn is_single(keys: Seq<i32>, classes: int, speakers: int, f: int) -> bool {
    exists|c: int|
        1 <= c <= speakers && #[trigger] clustering::is_last_max(
            keys.subrange(f * classes, f * classes + classes),
            c,
        )
}

/// Frame `f` of a window is there in full and has exactly one speaker.
pub open spec fn frame_marks(keys: Seq<i32>, classes: int, speakers: int, f: int) -> bool {
    f * classes + classes <= keys.len() && is_single(keys, classes, speakers, f)
}

fn single_at(keys: &Vec<i32>, base: usize, classes: usize, speakers: usize) -> (yes: bool)
    requires
        base + classes <= keys.len(),
    ensures
        yes == exists|c: int|
            1 <= c <= speakers && #[trigger] clustering::is_last_max(
                keys@.subrange(base as int, base + classes),
                c,
            ),
{
    let ghost w = keys@.subrange(base as int, base + classes);
    if classes == 0 {
        return false;
    }
    let mut at: usize = 0;
    let mut i: usize = 1;
    while i < classes
        invariant
            at < i <= classes,
            base + classes <= keys.len(),
            w == keys@.subrange(base as int, base + classes),
            forall|j: int| 0 <= j < i ==> #[trigger] w[j] <= w[at as int],
            forall|j: int| at < j < i ==> #[trigger] w[j] < w[at as int],
        decreases classes - i,
    {
        assert(w[i as int] == keys@[base + i]);
        assert(w[at as int] == keys@[base + at]);
        if keys[base + i] >= keys[base + at] {
            at = i;
        }
        i += 1;
    }
    assert(clustering::is_last_max(w, at as int));
    assert forall|c: int| #[trigger] clustering::is_last_max(w, c) implies c == at by {
        if c < at {
            assert(w[at as int] < w[c]);
        } else if c > at {
            assert(w[c] < w[at as int]);
        }
    }
    1 <= at && at <= speakers
}

/// Marks the frames of one window in which exactly one speaker speaks. The window
/// starts at sample `start`; `keys` holds the class keys of `frames` frames,
/// `classes` to a frame, as far as it reaches.
pub fn mark_window(
    marks: &mut Vec<bool>,
    start: usize,
    keys: &Vec<i32>,
    frames: usize,
    classes: usize,
    speakers: usize,
)
    requires
        start / 270 + frames <= usize::MAX,
    ensures
        final(marks).len() == old(marks).len(),
        forall|g: int|
            #![trigger final(marks)@[g]]
            0 <= g < final(marks).len() ==> final(marks)@[g] == (old(marks)@[g] || {
                let f = g - start as int / 270;
                0 <= f < frames && frame_marks(keys@, classes as int, speakers as int, f)
            }),
{
    let first: usize = start / SEG_FRAME_SHIFT;
    let ghost before = marks@;
    let mut f: usize = 0;
    let mut base: usize = 0;
    while f < frames
        invariant
            f <= frames,
            first == start as int / 270,
            first + frames <= usize::MAX,
            base == f * classes,
            before == old(marks)@,
            marks.len() == before.len(),
            forall|g: int|
                #![trigger marks@[g]]
                0 <= g < marks.len() ==> marks@[g] == (before[g] || {
                    let h = g - first;
                    0 <= h < f && frame_marks(keys@, classes as int, speakers as int, h)
                }),
        ensures
            marks.len() == before.len(),
            forall|g: int|
                #![trigger marks@[g]]
                0 <= g < marks.len() ==> marks@[g] == (before[g] || {
                    let h = g - first;
                    0 <= h < frames && frame_marks(keys@, classes as int, speakers as int, h)
                }),
        decreases frames - f,
    {
        if classes > keys.len() || base > keys.len() - classes {
            proof {
                let c = classes as int;
                assert forall|h: int| f <= h implies !(#[trigger] frame_marks(
                    keys@,
                    c,
                    speakers as int,
                    h,
                )) by {
                    assert(h * c >= f * c) by (nonlinear_arith)
                        requires
                            h >= f,
                            c >= 0,
                    ;
                }
            }
            break ;
        }
        let single = single_at(keys, base, classes, speakers);
        if single && first + f < marks.len() {
            marks.set(first + f, true);
        }
        proof {
            assert((f + 1) * classes == f * classes + classes) by (nonlinear_arith);
            assert(single == frame_marks(keys@, classes as int, speakers as int, f as int));
        }
        base += classes;
        f += 1;
    }
}

// ── Speech segments ─────────────────────────────────────────────────────────

/// How many of `len` frames start before sample `n`.
pub open spec fn frames_before(len: int, n: int) -> int {
    let all = (n + SEG_FRAME_SHIFT - 1) / (SEG_FRAME_SHIFT as int);
    if len <= all {
        len
    } else {
        all
    }
}

/// The end of the run of marked frames from frame `i` on.
pub open spec fn run_end(marks: Seq<bool>, i: int) -> int
    decreases marks.len() - i,
{
    if 0 <= i < marks.len() && marks[i] {
        run_end(marks, i + 1)
    } else {
        i
    }
}

/// The samples of the frames `p..q`; a run that reaches the last frame reaches sample `n`.
pub open spec fn run_samples(len: int, n: int, p: int, q: int) -> (int, int) {
    (p * SEG_FRAME_SHIFT, if q < len { q * SEG_FRAME_SHIFT } else { n })
}

/// The run `p..q` as a list of one segment, or of none where it is too short.
pub open spec fn run_segment(len: int, n: int, p: int, q: int) -> Seq<(int, int)> {
    let s = run_samples(len, n, p, q);
    if s.1 - s.0 >= MIN_SEG_SAMPLES {
        seq![s]
    } else {
        Seq::empty()
    }
}

/// The segments of the runs of marked frames from frame `i` on.
pub open spec fn segments_from(marks: Seq<bool>, n: int, i: int) -> Seq<(int, int)>
    decreases marks.len() - i,
{
    if i < 0 || i >= marks.len() {
        Seq::empty()
    } else if !marks[i] {
        segments_from(marks, n, i + 1)
    } else {
        let q = run_end(marks, i);
        if i < q <= marks.len() {
            run_segment(marks.len() as int, n, i, q) + segments_from(marks, n, q)
        } else {
            Seq::empty()
        }
    }
}

/// The speech segments of `n` samples with the given marked frames: the runs of
/// marked frames that are long enough.
pub open spec fn speech_segments_of(marks: Seq<bool>, n: int) -> Seq<(int, int)> {
    segments_from(marks.take(frames_before(marks.len() as int, n)), n, 0)
}

/// The positions of a list of segments.
pub open spec fn positions(segments: Seq<(usize, usize)>) -> Seq<(int, int)> {
    segments.map_values(|s: (usize, usize)| (s.0 as int, s.1 as int))
}

proof fn lemma_run_end(marks: Seq<bool>, i: int)
    requires
        0 <= i <= marks.len(),
    ensures
        i <= run_end(marks, i) <= marks.len(),
        i < marks.len() && marks[i] ==> i < run_end(marks, i),
        run_end(marks, i) < marks.len() ==> !marks[run_end(marks, i)],
        forall|j: int| i <= j < run_end(marks, i) ==> #[trigger] marks[j],
    decreases marks.len() - i,
{
    if i < marks.len() && marks[i] {
        lemma_run_end(marks, i + 1);
    }
}

/// How many of `len` frames start before sample `n`.
fn frames_to_read(len: usize, n: usize) -> (count: usize)
    ensures
        count == frames_before(len as int, n as int),
        count <= len,
        count > 0 ==> (count - 1) * SEG_FRAME_SHIFT < n,
{
    let whole: usize = n / SEG_FRAME_SHIFT;
    let all: usize = if n % SEG_FRAME_SHIFT == 0 { whole } else { whole + 1 };
    assert(all == (n + SEG_FRAME_SHIFT - 1) / (SEG_FRAME_SHIFT as int));
    if len <= all {
        len
    } else {
        all
    }
}

/// The speech segments of `n` samples: the runs of marked frames, in samples, that
/// last long enough.
pub fn speech_segments(marks: &Vec<bool>, n: usize) -> (out: Vec<(usize, usize)>)
    ensures
        positions(out@) == speech_segments_of(marks@, n as int),
{
    let len: usize = frames_to_read(marks.len(), n);
    let ghost m = marks@.take(len as int);
    let ghost l = len as int;
    let ghost end = n as int;
    let mut out: Vec<(usize, usize)> = Vec::new();
    // The frame in which the run began that is being read.
    let mut open: Option<usize> = None;
    let mut f: usize = 0;
    let ghost goal = segments_from(m, end, 0);
    assert(positions(out@) =~= Seq::empty());
    assert(goal =~= positions(out@) + segments_from(m, end, 0));
    while f < len
        invariant
            f <= len <= marks.len(),
            l == len,
            end == n,
            m == marks@.take(l),
            len > 0 ==> (len - 1) * SEG_FRAME_SHIFT < n,
            match open {
                None => goal == positions(out@) + segments_from(m, end, f as int),
                Some(p) => {
                    let q = run_end(m, f as int);
                    &&& p < f
                    &&& goal == positions(out@) + run_segment(l, end, p as int, q) + segments_from(
                        m,
                        end,
                        q,
                    )
                },
            },
        decreases len - f,
    {
        let pos: usize = f * SEG_FRAME_SHIFT;
        let ghost was = positions(out@);
        proof {
            assert(m[f as int] == marks@[f as int]);
            lemma_run_end(m, f as int);
        }
        match open {
            None => {
                if marks[f] {
                    open = Some(f);
                    proof {
                        let q = run_end(m, f as int);
                        assert(q == run_end(m, f + 1));
                        assert(goal =~= was + run_segment(l, end, f as int, q) + segments_from(m, end, q));
                    }
                }
            },
            Some(p) => {
                if !marks[f] {
                    let start: usize = p * SEG_FRAME_SHIFT;
                    if pos - start >= MIN_SEG_SAMPLES {
                        out.push((start, pos));
                        assert(positions(out@) =~= was.push((start as int, pos as int)));
                    }
                    assert(positions(out@) =~= was + run_segment(l, end, p as int, f as int));
                    open = None;
                } else {
                    assert(run_end(m, f as int) == run_end(m, f + 1));
                }
            },
        }
        f += 1;
    }
    if let Some(p) = open {
        let ghost was = positions(out@);
        proof {
            lemma_run_end(m, l);
        }
        let start: usize = p * SEG_FRAME_SHIFT;
        if n - start >= MIN_SEG_SAMPLES {
            out.push((start, n));
            assert(positions(out@) =~= was.push((start as int, end)));
        }
        assert(positions(out@) =~= was + run_segment(l, end, p as int, l));
    }
    assert(positions(out@) =~= goal);
    out
}

/// Segments in order: each long enough, within `from..=n`, and before the next.
pub open spec fn are_ordered(segments: Seq<(int, int)>, from: int, n: int) -> bool {
    &&& forall|i: int|
        #![trigger segments[i]]
        0 <= i < segments.len() ==> from <= segments[i].0 && segments[i].1 - segments[i].0
            >= MIN_SEG_SAMPLES && segments[i].1 <= n
    &&& forall|i: int, j: int|
        #![trigger segments[i], segments[j]]
        0 <= i < j < segments.len() ==> segments[i].1 < segments[j].0
}

proof fn lemma_segments_ordered(marks: Seq<bool>, n: int, i: int)
    requires
        0 <= i <= marks.len(),
        marks.len() > 0 ==> (marks.len() - 1) * SEG_FRAME_SHIFT < n,
    ensures
        are_ordered(segments_from(marks, n, i), i * SEG_FRAME_SHIFT, n),
        i < marks.len() && !marks[i] ==> are_ordered(
            segments_from(marks, n, i),
            (i + 1) * SEG_FRAME_SHIFT,
            n,
        ),
    decreases marks.len() - i,
{
    if i < marks.len() {
        if !marks[i] {
            lemma_segments_ordered(marks, n, i + 1);
        } else {
            lemma_run_end(marks, i);
            let q = run_end(marks, i);
            lemma_segments_ordered(marks, n, q);
            let head = run_segment(marks.len() as int, n, i, q);
            let tail = segments_from(marks, n, q);
            let all = segments_from(marks, n, i);
            assert(all == head + tail);
            if q == marks.len() {
                assert(tail =~= Seq::empty());
                assert(all =~= head);
            } else {
                assert(are_ordered(tail, (q + 1) * SEG_FRAME_SHIFT, n));
                assert forall|a: int, b: int|
                    #![trigger all[a], all[b]]
                    0 <= a < b < all.len() implies all[a].1 < all[b].0 by {
                    if a < head.len() {
                        assert(all[a] == head[0]);
                        assert(all[b] == tail[b - head.len()]);
                    } else {
                        assert(all[a] == tail[a - head.len()]);
                        assert(all[b] == tail[b - head.len()]);
                    }
                }
                assert forall|a: int|
                    #![trigger all[a]]
                    0 <= a < all.len() implies i * SEG_FRAME_SHIFT <= all[a].0 && all[a].1 - all[a].0
                    >= MIN_SEG_SAMPLES && all[a].1 <= n by {
                    if a >= head.len() {
                        assert(all[a] == tail[a - head.len()]);
                    } else {
                        assert(all[a] == head[0]);
                    }
                }
            }
        }
    }
}

/// The speech segments lie within the audio, last long enough, and follow each
/// other without touching.
pub proof fn speech_segments_are_ordered(marks: Seq<bool>, n: int)
    requires
        0 <= n,
    ensures
        are_ordered(speech_segments_of(marks, n), 0, n),
{
    let len = frames_before(marks.len() as int, n);
    let m = marks.take(len);
    lemma_segments_ordered(m, n, 0);
}

proof fn lemma_segment_frames(marks: Seq<bool>, n: int, i: int, k: int, f: int)
    requires
        0 <= i <= marks.len(),
        marks.len() > 0 ==> (marks.len() - 1) * SEG_FRAME_SHIFT < n,
        0 <= k < segments_from(marks, n, i).len(),
        0 <= f < marks.len(),
        segments_from(marks, n, i)[k].0 <= f * SEG_FRAME_SHIFT < segments_from(marks, n, i)[k].1,
    ensures
        marks[f],
    decreases marks.len() - i,
{
    if i < marks.len() {
        if !marks[i] {
            lemma_segment_frames(marks, n, i + 1, k, f);
        } else {
            lemma_run_end(marks, i);
            let q = run_end(marks, i);
            let head = run_segment(marks.len() as int, n, i, q);
            let tail = segments_from(marks, n, q);
            let all = segments_from(marks, n, i);
            assert(all == head + tail);
            if k < head.len() {
                assert(all[k] == head[0]);
                assert(i <= f < q);
            } else {
                assert(all[k] == tail[k - head.len()]);
                lemma_segment_frames(marks, n, q, k - head.len(), f);
            }
        }
    }
}

/// Every frame that starts within a speech segment is marked: exactly one speaker
/// speaks in it.
pub proof fn speech_segments_hold_marked_frames(marks: Seq<bool>, n: int, k: int, f: int)
    requires
        0 <= n,
        0 <= k < speech_segments_of(marks, n).len(),
        0 <= f < marks.len(),
        speech_segments_of(marks, n)[k].0 <= f * SEG_FRAME_SHIFT < speech_segments_of(marks, n)[k].1,
    ensures
        marks[f],
{
    let len = frames_before(marks.len() as int, n);
    let m = marks.take(len);
    lemma_segments_ordered(m, n, 0);
    assert(f < len);
    lemma_segment_frames(m, n, 0, k, f);
    assert(m[f] == marks[f]);
}

// ── From scores to segments ─────────────────────────────────────────────────

/// The number of speakers that a model with the given number of classes tells apart.
pub open spec fn speaker_count(classes: int) -> int {
    choose|speakers: int| is_speaker_count(classes, speakers)
}

proof fn lemma_speaker_count(classes: int, a: int, b: int)
    requires
        is_speaker_count(classes, a),
        is_speaker_count(classes, b),
    ensures
        a == b,
{
    if classes > 1 && a != b {
        let (lo, hi) = if a < b {
            (a, b)
        } else {
            (b, a)
        };
        assert((lo + 1) * (lo + 1) <= hi * hi) by (nonlinear_arith)
            requires
                0 <= lo,
                lo + 1 <= hi,
        ;
    }
}

/// What the segmentation model gives for one window: the order keys of its class scores,
/// `classes` to a frame.
pub struct WindowScores {
    pub keys: Vec<i32>,
    pub frames: usize,
    pub classes: usize,
}

/// By window `i`, exactly one speaker speaks in frame `g` of the recording.
pub open spec fn window_marks(windows: Seq<WindowScores>, i: int, g: int) -> bool {
    let w = windows[i];
    let f = g - i * SEG_STEP_SAMPLES / SEG_FRAME_SHIFT as int;
    0 <= f < w.frames && frame_marks(w.keys@, w.classes as int, speaker_count(w.classes as int), f)
}

/// The frames of `n` samples in which by some window exactly one speaker speaks.
pub open spec fn marked_frames(windows: Seq<WindowScores>, n: int) -> Seq<bool> {
    Seq::new(
        frame_total(n) as nat,
        |g: int| exists|i: int| 0 <= i < windows.len() && #[trigger] window_marks(windows, i, g),
    )
}

/// The speech segments of `n` samples by the scores of the segmentation windows: the
/// stretches that last long enough in which exactly one speaker speaks.
pub fn pyannote_segments(n: usize, windows: &Vec<WindowScores>) -> (out: Vec<(usize, usize)>)
    requires
        n <= usize::MAX - 270,
        windows.len() == seg_window_count(n as int),
    ensures
        positions(out@) == speech_segments_of(marked_frames(windows@, n as int), n as int),
{
    let mut marks = blank_frames(n);
    let ghost total = marks@.len();
    let mut start: usize = 0;
    let mut i: usize = 0;
    while i < windows.len()
        invariant
            i <= windows.len(),
            windows.len() == seg_window_count(n as int),
            n <= usize::MAX - 270,
            i < windows.len() ==> start == i * SEG_STEP_SAMPLES,
            marks.len() == total,
            total == frame_total(n as int),
            forall|g: int|
                #![trigger marks@[g]]
                0 <= g < total ==> marks@[g] == exists|j: int|
                    0 <= j < i && #[trigger] window_marks(windows@, j, g),
        decreases windows.len() - i,
    {
        let w = &windows[i];
        let ghost before = marks@;
        let speakers = speakers_of_classes(w.classes);
        let frames: usize = if w.frames <= marks.len() { w.frames } else { marks.len() };
        proof {
            let c = speaker_count(w.classes as int);
            assert(is_speaker_count(w.classes as int, speakers as int));
            lemma_speaker_count(w.classes as int, speakers as int, c);
            assert(start < n);
        }
        mark_window(&mut marks, start, &w.keys, frames, w.classes, speakers);
        proof {
            assert forall|g: int| #![trigger marks@[g]] 0 <= g < total implies marks@[g] == exists|j: int|
                0 <= j < i + 1 && #[trigger] window_marks(windows@, j, g) by {
                let f = g - start as int / 270;
                assert(marks@[g] == (before[g] || (0 <= f < frames && frame_marks(
                    w.keys@,
                    w.classes as int,
                    speakers as int,
                    f,
                ))));
                assert((0 <= f < frames && frame_marks(
                    w.keys@,
                    w.classes as int,
                    speakers as int,
                    f,
                )) == window_marks(windows@, i as int, g));
                if before[g] {
                    let j = choose|j: int| 0 <= j < i && #[trigger] window_marks(windows@, j, g);
                    assert(window_marks(windows@, j, g));
                }
            }
        }
        i += 1;
        if i < windows.len() {
            start += SEG_STEP_SAMPLES;
        }
    }
    assert(marks@ =~= marked_frames(windows@, n as int));
    speech_segments(&marks, n)
}

// ── Speaker counts ──────────────────────────────────────────────────────────

/// The number of speakers that a request asks for, one at least.
pub open spec fn speakers_requested(asked: Option<i32>) -> Option<usize> {
    match asked {
        Some(n) => Some(if n >= 1 { n as usize } else { 1 }),
        None => None::<usize>,
    }
}

/// The number of speakers that a request asks for, one at least.
pub fn requested_speakers(asked: Option<i32>) -> (out: Option<usize>)
    ensures
        out == speakers_requested(asked),
{
    match asked {
        Some(n) => Some(if n >= 1 { n as usize } else { 1 }),
        None => None,
    }
}

/// The number of groups for `samples` samples: what was asked for, but no more than
/// there are samples; `None` where it is to be estimated.
pub open spec fn groups_for(asked: Option<usize>, samples: usize) -> Option<usize> {
    match asked {
        Some(k) => Some(if k <= samples { k } else { samples }),
        None => None::<usize>,
    }
}

/// The number of groups for `samples` samples: what was asked for, but no more than
/// there are samples; `None` where it is to be estimated.
pub fn group_target(asked: Option<usize>, samples: usize) -> (out: Option<usize>)
    ensures
        out == groups_for(asked, samples),
{
    match asked {
        Some(k) => Some(if k <= samples { k } else { samples }),
        None => None,
    }
}

/// The number of groups where nothing can be estimated: what was asked for, two
/// otherwise, but no more than there are samples.
pub open spec fn fallback_groups(asked: Option<usize>, samples: usize) -> usize {
    let k = match asked {
        Some(k) => k,
        None => 2,
    };
    if k <= samples {
        k
    } else {
        samples
    }
}

/// The number of groups where nothing can be estimated: what was asked for, two
/// otherwise, but no more than there are samples.
pub fn fallback_target(asked: Option<usize>, samples: usize) -> (out: usize)
    ensures
        out == fallback_groups(asked, samples),
{
    let k: usize = match asked {
        Some(k) => k,
        None => 2,
    };
    if k <= samples {
        k
    } else {
        samples
    }
}

/// Whether the segmentation model is used: one is named and its file is there.
pub fn uses_segmentation(seg_model: &str, exists: bool) -> (yes: bool)
    ensures
        yes == (seg_model@.len() > 0 && exists),
{
    !seg_model.is_empty() && exists
}

// ── Pipelines ───────────────────────────────────────────────────────────────

/// Why no turns were found.
#[derive(Debug, Clone, Copy, PartialEq, Eq, Structural)]
pub enum WorkerError {
    /// The audio holds no speech.
    NoSpeech,
    /// No speech segment is loud and long enough.
    NoUsableSpeech,
}

impl WorkerError {
    /// The message of the error.
    pub open spec fn message_text(self) -> Seq<char> {
        match self {
            WorkerError::NoSpeech => "no speech detected"@,
            WorkerError::NoUsableSpeech => "no usable speech segments"@,
        }
    }

    /// The message of the error.
    pub fn message(&self) -> (out: String)
        ensures
            out@ == self.message_text(),
    {
        match self {
            WorkerError::NoSpeech => "no speech detected".to_owned(),
            WorkerError::NoUsableSpeech => "no usable speech segments".to_owned(),
        }
    }
}

/// The turn of a speech segment.
pub open spec fn segment_turn(segment: (int, int), label: int) -> TurnView {
    TurnView {
        start: sample_ms(segment.0),
        end: sample_ms(segment.1),
        speaker: speaker_name(label as nat),
    }
}

/// The turns of speech segments with the given speaker numbers.
pub open spec fn segment_turns(segments: Seq<(int, int)>, labels: Seq<int>) -> Seq<TurnView> {
    merged_turns(Seq::new(segments.len(), |i: int| segment_turn(segments[i], labels[i])))
}

fn turn_of(start: usize, end: usize, label: usize) -> (turn: Turn)
    ensures
        turn@ == segment_turn((start as int, end as int), label as int),
{
    Turn { start: sample_time(start), end: sample_time(end), speaker: speaker_label(label) }
}

/// The outcome of segmentation: an error where it found no speech.
pub fn check_found(segments: usize) -> (out: Result<(), WorkerError>)
    ensures
        out == if segments == 0 {
            Err(WorkerError::NoSpeech)
        } else {
            Ok::<(), WorkerError>(())
        },
{
    if segments == 0 {
        Err(WorkerError::NoSpeech)
    } else {
        Ok(())
    }
}

/// The speaker numbers of segments with the given distances, sorted into `k` groups.
pub open spec fn segment_labels(dist: Seq<Seq<i32>>, k: nat) -> Seq<int> {
    clustering::group_numbers(clustering::after_joins(dist, clustering::joins_to(dist.len(), k)))
}

/// The speakers of a list of turns.
pub open spec fn speakers_in(turns: Seq<TurnView>) -> Set<Seq<char>> {
    turns.map_values(|t: TurnView| t.speaker).to_set()
}

/// `k` is the number of speakers for `n` segments: the number that was asked for, but no
/// more than there are segments; or an estimate by the rises in the join heights, where
/// none was asked for.
pub open spec fn is_speaker_choice(asked: Option<usize>, n: nat, gaps: Seq<i32>, k: nat) -> bool {
    match asked {
        Some(a) => k == if a <= n {
            a as nat
        } else {
            n
        },
        None => clustering::is_estimate(n, gaps, MAX_SPEAKERS as nat, k as int),
    }
}

/// The turns of the usable speech segments: their voices, of which `dist` holds the
/// distances, are sorted into groups, one for each speaker. Where no number of speakers
/// was asked for, `gaps` holds the rises in the join heights.
pub fn run_pyannote_pipeline(
    segments: &Vec<(usize, usize)>,
    dist: &Vec<Vec<i32>>,
    asked: Option<usize>,
    gaps: &Vec<i32>,
) -> (out: Result<Vec<Turn>, WorkerError>)
    requires
        dist.len() == segments.len(),
        clustering::is_distance_table(clustering::matrix(dist@)),
        asked matches Some(a) ==> a >= 1,
        asked is None && segments.len() >= 2 ==> gaps.len() == segments.len() - 2,
    ensures
        match out {
            Ok(turns) => segments.len() > 0 && exists|k: nat| #[trigger]
                is_speaker_choice(asked, segments@.len(), gaps@, k) && turn_views(turns@)
                    == segment_turns(
                    positions(segments@),
                    segment_labels(clustering::matrix(dist@), k),
                ) && speakers_in(turn_views(turns@)).len() == k,
            Err(e) => segments.len() == 0 && e == WorkerError::NoUsableSpeech,
        },
{
    if segments.len() == 0 {
        return Err(WorkerError::NoUsableSpeech);
    }
    let k: usize = match group_target(asked, segments.len()) {
        Some(k) => k,
        None => clustering::estimate_speakers(segments.len(), gaps, MAX_SPEAKERS),
    };
    assert(is_speaker_choice(asked, segments@.len(), gaps@, k as nat));
    let labels = clustering::ahc_complete(dist, k);
    let ghost p = positions(segments@);
    let ghost l = clustering::label_values(labels@);
    let mut turns: Vec<Turn> = Vec::new();
    let mut i: usize = 0;
    while i < segments.len()
        invariant
            i <= segments.len(),
            labels.len() == segments.len(),
            p == positions(segments@),
            l == clustering::label_values(labels@),
            turns.len() == i,
            forall|j: int| 0 <= j < i ==> (#[trigger] turns@[j])@ == segment_turn(p[j], l[j]),
        decreases segments.len() - i,
    {
        let (start, end) = segments[i];
        turns.push(turn_of(start, end, labels[i]));
        i += 1;
    }
    assert(turn_views(turns@) =~= Seq::new(p.len(), |j: int| segment_turn(p[j], l[j])));
    proof {
        assert(clustering::matrix(dist@).len() == dist@.len());
        exactly_the_speakers_asked_for(p, clustering::matrix(dist@), k as nat);
    }
    Ok(merge_adjacent(turns))
}

proof fn lemma_merged_speakers(turns: Seq<TurnView>, speaker: Seq<char>)
    ensures
        (exists|i: int| 0 <= i < turns.len() && (#[trigger] turns[i]).speaker == speaker) <==> (exists|
            i: int,
        | 0 <= i < merged_turns(turns).len() && (#[trigger] merged_turns(turns)[i]).speaker == speaker),
    decreases turns.len(),
{
    let out = merged_turns(turns);
    if turns.len() > 0 {
        let front = turns.drop_last();
        let done = merged_turns(front);
        lemma_merged_speakers(front, speaker);
        if exists|i: int| 0 <= i < turns.len() && (#[trigger] turns[i]).speaker == speaker {
            let i = choose|i: int| 0 <= i < turns.len() && (#[trigger] turns[i]).speaker == speaker;
            if i < front.len() {
                assert(front[i].speaker == speaker);
                let k = choose|k: int| 0 <= k < done.len() && (#[trigger] done[k]).speaker == speaker;
                assert(out[k].speaker == speaker);
            } else {
                assert(out[out.len() - 1].speaker == speaker);
            }
        }
        if exists|i: int| 0 <= i < out.len() && (#[trigger] out[i]).speaker == speaker {
            let k = choose|k: int| 0 <= k < out.len() && (#[trigger] out[k]).speaker == speaker;
            if k < done.len() {
                assert(done[k].speaker == speaker);
                let i = choose|i: int| 0 <= i < front.len() && (#[trigger] front[i]).speaker == speaker;
                assert(turns[i].speaker == speaker);
            } else {
                assert(turns[turns.len() - 1].speaker == speaker);
            }
        }
    }
}

/// Exactly as many speakers occur in the turns as were asked for, or as there are
/// segments, if these are fewer.
pub proof fn exactly_the_speakers_asked_for(segments: Seq<(int, int)>, dist: Seq<Seq<i32>>, asked: nat)
    requires
        dist.len() == segments.len(),
        asked >= 1,
    ensures
        speakers_in(segment_turns(segments, segment_labels(dist, asked))).len() == if asked
            <= segments.len() {
            asked
        } else {
            segments.len()
        },
        speakers_in(segment_turns(segments, segment_labels(dist, asked))).finite(),
{
    let k = if asked <= segments.len() {
        asked
    } else {
        segments.len()
    };
    let labels = segment_labels(dist, asked);
    clustering::exactly_so_many_groups(dist, asked);
    let single = Seq::new(segments.len(), |i: int| segment_turn(segments[i], labels[i]));
    let turns = segment_turns(segments, labels);
    let named = |l: int| speaker_name(l as nat);
    let range = vstd::set_lib::set_int_range(0, k as int);
    vstd::set_lib::lemma_int_range(0, k as int);
    assert forall|a: int, b: int|
        range.contains(a) && range.contains(b) && #[trigger] named(a) == #[trigger] named(b) implies a
        == b by {
        let (x, y) = (
            text::zero_padded(text::decimal(a as nat), 2),
            text::zero_padded(text::decimal(b as nat), 2),
        );
        let head = "SPEAKER_"@;
        assert((head + x).skip(head.len() as int) =~= x);
        assert((head + y).skip(head.len() as int) =~= y);
        text::padded_numbers_differ(a as nat, b as nat, 2);
    }
    assert forall|s: Seq<char>| range.map(named).contains(s) <==> speakers_in(turns).contains(s) by {
        let said = turns.map_values(|t: TurnView| t.speaker);
        lemma_merged_speakers(single, s);
        if range.map(named).contains(s) {
            let g = choose|g: int| range.contains(g) && named(g) == s;
            assert(labels.contains(g));
            let i = choose|i: int| 0 <= i < labels.len() && labels[i] == g;
            assert(single[i].speaker == s);
            let j = choose|j: int| 0 <= j < turns.len() && (#[trigger] turns[j]).speaker == s;
            assert(said[j] == s);
        }
        if said.contains(s) {
            let j = choose|j: int| 0 <= j < said.len() && said[j] == s;
            assert(turns[j].speaker == s);
            let i = choose|i: int| 0 <= i < single.len() && (#[trigger] single[i]).speaker == s;
            assert(range.contains(labels[i]));
            assert(named(labels[i]) == s);
        }
    }
    assert(range.map(named) =~= speakers_in(turns));
    vstd::set_lib::lemma_map_size(range, speakers_in(turns), named);
}

/// How many fixed windows fit into `n` samples.
pub open spec fn fixed_window_count(n: int) -> int {
    if n < WINDOW_SAMPLES {
        0
    } else {
        (n - WINDOW_SAMPLES) / (STEP_SAMPLES as int) + 1
    }
}

/// Where the fixed windows over `n` samples start.
pub fn fixed_windows(n: usize) -> (out: Vec<usize>)
    ensures
        out@.len() == fixed_window_count(n as int),
        forall|i: int| 0 <= i < out@.len() ==> #[trigger] out@[i] == i * STEP_SAMPLES,
{
    let mut out: Vec<usize> = Vec::new();
    let mut pos: usize = 0;
    while pos <= n && n - pos >= WINDOW_SAMPLES
        invariant
            pos == out@.len() * STEP_SAMPLES,
            n < WINDOW_SAMPLES ==> out@.len() == 0,
            pos <= n,
            n >= WINDOW_SAMPLES ==> out@.len() <= fixed_window_count(n as int),
            forall|i: int| 0 <= i < out@.len() ==> #[trigger] out@[i] == i * STEP_SAMPLES,
        decreases n - pos,
    {
        out.push(pos);
        pos += STEP_SAMPLES;
    }
    out
}

/// Windows of one speaker that follow each other closely.
#[verifier::ext_equal]
pub struct WindowRun {
    pub label: int,
    pub start: int,
    pub end: int,
}

/// The runs of the windows with the given starts and labels: a window joins the run
/// before it where the label is the same and the run has ended shortly before.
pub open spec fn window_runs(starts: Seq<usize>, labels: Seq<usize>) -> Seq<WindowRun>
    decreases starts.len(),
{
    if starts.len() == 0 {
        Seq::empty()
    } else {
        let done = window_runs(starts.drop_last(), labels);
        let start = starts.last() as int;
        let label = labels[starts.len() - 1] as int;
        let end = start + WINDOW_SAMPLES;
        if done.len() > 0 && done.last().label == label && start <= done.last().end + JOIN_SAMPLES {
            done.drop_last().push(WindowRun { end, ..done.last() })
        } else {
            done.push(WindowRun { label, start, end })
        }
    }
}

/// The turns of windows: their runs, with short ones merged into a neighbour.
pub open spec fn window_turns_of(starts: Seq<usize>, labels: Seq<usize>) -> Seq<TurnView> {
    settled_turns(
        window_runs(starts, labels).map_values(
            |r: WindowRun| segment_turn((r.start, r.end), r.label),
        ),
        MIN_TURN_MS as int,
    )
}

/// The turns of the windows with the given starts and labels.
pub fn window_turns(starts: &Vec<usize>, labels: &Vec<usize>) -> (out: Vec<Turn>)
    requires
        labels.len() == starts.len(),
        forall|i: int| 0 <= i < starts.len() ==> #[trigger] starts@[i] <= usize::MAX - 60_800,
    ensures
        turn_views(out@) == window_turns_of(starts@, labels@),
{
    let ghost to_turn = |r: WindowRun| segment_turn((r.start, r.end), r.label);
    let mut turns: Vec<Turn> = Vec::new();
    let mut open: Option<(usize, usize, usize)> = None;
    let mut i: usize = 0;
    assert(turn_views(turns@) =~= Seq::empty());
    while i < starts.len()
        invariant
            i <= starts.len(),
            labels.len() == starts.len(),
            forall|j: int| 0 <= j < starts.len() ==> #[trigger] starts@[j] <= usize::MAX - 60_800,
            to_turn == (|r: WindowRun| segment_turn((r.start, r.end), r.label)),
            ({
                let runs = window_runs(starts@.take(i as int), labels@);
                match open {
                    None => i == 0 && turns.len() == 0,
                    Some(o) => {
                        &&& runs.len() > 0
                        &&& runs.last() == WindowRun {
                            label: o.0 as int,
                            start: o.1 as int,
                            end: o.2 as int,
                        }
                        &&& o.2 <= usize::MAX - 20_800
                        &&& turn_views(turns@) == runs.drop_last().map_values(to_turn)
                    },
                }
            }),
        decreases starts.len() - i,
    {
        let start: usize = starts[i];
        let label: usize = labels[i];
        let end: usize = start + WINDOW_SAMPLES;
        let ghost before = starts@.take(i as int);
        let ghost runs = window_runs(before, labels@);
        assert(starts@.take(i + 1).drop_last() =~= before);
        assert(starts@.take(i + 1).last() == start);
        let ghost next = window_runs(starts@.take(i + 1), labels@);
        match open {
            None => {
                assert(before =~= Seq::empty());
                open = Some((label, start, end));
                assert(next.drop_last() =~= Seq::empty());
                assert(turn_views(turns@) =~= next.drop_last().map_values(to_turn));
            },
            Some((l, s, e)) => {
                if l == label && start <= e + JOIN_SAMPLES {
                    open = Some((l, s, end));
                    assert(next.drop_last() =~= runs.drop_last());
                } else {
                    let ghost was = turn_views(turns@);
                    turns.push(turn_of(s, e, l));
                    open = Some((label, start, end));
                    assert(next.drop_last() =~= runs);
                    assert(turn_views(turns@) =~= was.push(to_turn(runs.last())));
                    assert(runs.map_values(to_turn) =~= runs.drop_last().map_values(to_turn).push(
                        to_turn(runs.last()),
                    ));
                }
            },
        }
        i += 1;
    }
    assert(starts@.take(i as int) =~= starts@);
    let ghost runs = window_runs(starts@, labels@);
    if let Some((l, s, e)) = open {
        let ghost was = turn_views(turns@);
        turns.push(turn_of(s, e, l));
        assert(turn_views(turns@) =~= was.push(to_turn(runs.last())));
        assert(runs.map_values(to_turn) =~= runs.drop_last().map_values(to_turn).push(
            to_turn(runs.last()),
        ));
    } else {
        assert(runs =~= Seq::empty());
    }
    assert(turn_views(turns@) =~= runs.map_values(to_turn));
    merge_short_turns(turns, MIN_TURN_MS)
}

/// `out` is a smoothing of `labels`.
pub open spec fn is_smoothing(labels: Seq<usize>, out: Seq<usize>) -> bool {
    &&& out.len() == labels.len()
    &&& forall|i: int|
        #![trigger out[i]]
        0 <= i < labels.len() ==> clustering::is_most_frequent(
            clustering::neighbourhood(labels, i, SMOOTH_K as int / 2),
            out[i],
        )
}

/// The turns of the windows that hold speech. `labels` holds the speaker number of
/// each window, which is smoothed first.
pub fn run_fixed_window_pipeline(starts: &Vec<usize>, labels: &Vec<usize>) -> (out: Result<
    Vec<Turn>,
    WorkerError,
>)
    requires
        labels.len() == starts.len(),
        forall|i: int| 0 <= i < starts.len() ==> #[trigger] starts@[i] <= usize::MAX - 60_800,
    ensures
        match out {
            Ok(turns) => starts.len() > 0 && exists|smoothed: Seq<usize>| #[trigger]
                is_smoothing(labels@, smoothed) && turn_views(turns@) == window_turns_of(
                    starts@,
                    smoothed,
                ),
            Err(e) => starts.len() == 0 && e == WorkerError::NoSpeech,
        },
{
    if starts.len() == 0 {
        return Err(WorkerError::NoSpeech);
    }
    let smoothed = clustering::smooth(labels, SMOOTH_K);
    assert(is_smoothing(labels@, smoothed@));
    Ok(window_turns(starts, &smoothed))
}

// ── Laws of turns ───────────────────────────────────────────────────────────

/// A time of samples is in milliseconds to the nearest one, and later samples are not
/// earlier in time.
pub proof fn samples_have_times(pos: int, later: int)
    requires
        0 <= pos <= later,
    ensures
        16 * sample_ms(pos) - 8 <= pos < 16 * sample_ms(pos) + 8,
        0 <= sample_ms(pos) <= sample_ms(later),
{
    assert(sample_ms(pos) == (pos + 8) / 16);
    assert(sample_ms(later) == (later + 8) / 16);
}

/// The name of a speaker ends in the number of the speaker, with at least two digits.
pub proof fn speakers_are_named_by_number(label: nat)
    ensures
        speaker_name(label).len() >= 10,
        speaker_name(label).take(8) == "SPEAKER_"@,
        forall|i: int| 8 <= i < speaker_name(label).len() ==> '0' <= (#[trigger] speaker_name(label)[i]) <= '9',
        text::digits_value(speaker_name(label).skip(8)) == label,
        label < 100 ==> speaker_name(label).len() == 10,
{
    reveal_strlit("SPEAKER_");
    text::padding_keeps_the_number(label, 2);
    let d = text::zero_padded(text::decimal(label), 2);
    let s = speaker_name(label);
    assert(s.take(8) =~= "SPEAKER_"@);
    assert(s.skip(8) =~= d);
    assert forall|i: int| 8 <= i < s.len() implies '0' <= (#[trigger] s[i]) <= '9' by {
        assert(s[i] == d[i - 8]);
    }
}

/// The last of `n` things in part `k`, where `first` holds the first one of each part.
pub open spec fn last_of_part(first: Seq<int>, n: int, k: int) -> int {
    if k + 1 < first.len() {
        first[k + 1] - 1
    } else {
        n - 1
    }
}

/// `first` cuts `n` things into parts, none of them empty.
pub open spec fn are_parts(first: Seq<int>, n: int) -> bool {
    &&& first.len() > 0 <==> n > 0
    &&& first.len() > 0 ==> first[0] == 0
    &&& forall|k: int| 0 <= k < first.len() ==> 0 <= #[trigger] first[k] < n
    &&& forall|k: int, l: int| 0 <= k < l < first.len() ==> #[trigger] first[k] < #[trigger] first[l]
}

/// Merging joins runs of turns of one speaker with gaps of at most a second: a merged turn
/// starts where the first turn of its run starts and ends where the last one ends. A run
/// ends exactly where another speaker comes or the gap is longer.
pub proof fn merged_turns_are_runs(turns: Seq<TurnView>) -> (first: Seq<int>)
    ensures
        are_parts(first, turns.len() as int),
        first.len() == merged_turns(turns).len(),
        forall|k: int|
            #![trigger merged_turns(turns)[k]]
            0 <= k < first.len() ==> {
                &&& merged_turns(turns)[k].start == turns[first[k]].start
                &&& merged_turns(turns)[k].end == turns[last_of_part(first, turns.len() as int, k)].end
                &&& merged_turns(turns)[k].speaker == turns[first[k]].speaker
            },
        forall|i: int|
            0 < i < turns.len() ==> (#[trigger] first.contains(i) <==> !(turns[i - 1].speaker
                == turns[i].speaker && turns[i].start - turns[i - 1].end <= 1000)),
    decreases turns.len(),
{
    let n = turns.len() as int;
    if n == 0 {
        Seq::empty()
    } else {
        let front = turns.drop_last();
        let done = merged_turns(front);
        let before = merged_turns_are_runs(front);
        let next = turns.last();
        let out = merged_turns(turns);
        lemma_merged_end(front);
        assert(forall|i: int| 0 <= i < n - 1 ==> #[trigger] turns[i] == front[i]);
        let joins = done.len() > 0 && continues(done.last(), next);
        let first = if joins { before } else { before.push(n - 1) };
        assert forall|k: int| #![trigger out[k]] 0 <= k < first.len() implies {
            &&& out[k].start == turns[first[k]].start
            &&& out[k].end == turns[last_of_part(first, n, k)].end
            &&& out[k].speaker == turns[first[k]].speaker
        } by {
            if k < before.len() {
                assert(done[k].start == front[before[k]].start);
                assert(front[before[k]] == turns[before[k]]);
                let e = last_of_part(before, n - 1, k);
                if k + 1 < before.len() {
                    assert(0 <= before[k] < before[k + 1]);
                }
                assert(front[e] == turns[e]);
            }
        }
        assert forall|i: int| 0 < i < n implies (#[trigger] first.contains(i) <==> !(turns[i - 1].speaker
            == turns[i].speaker && turns[i].start - turns[i - 1].end <= 1000)) by {
            if i < n - 1 {
                assert(front[i] == turns[i] && front[i - 1] == turns[i - 1]);
                assert(before.contains(i) <==> !(front[i - 1].speaker == front[i].speaker
                    && front[i].start - front[i - 1].end <= 1000));
                if before.contains(i) {
                    let k = choose|k: int| 0 <= k < before.len() && before[k] == i;
                    assert(first[k] == i);
                }
                if first.contains(i) {
                    let k = choose|k: int| 0 <= k < first.len() && first[k] == i;
                    assert(before[k] == i);
                }
            } else {
                assert(front.last() == turns[n - 2]);
                if joins {
                    if first.contains(i) {
                        let k = choose|k: int| 0 <= k < first.len() && first[k] == i;
                        assert(before[k] == i);
                    }
                } else {
                    assert(first[before.len() as int] == i);
                }
            }
        }
        first
    }
}

proof fn lemma_merged_end(turns: Seq<TurnView>)
    ensures
        turns.len() > 0 <==> merged_turns(turns).len() > 0,
        turns.len() > 0 ==> merged_turns(turns).last().end == turns.last().end
            && merged_turns(turns).last().speaker == turns.last().speaker,
{
}

/// Merging loses no time: of turns in order, each lies within a merged turn of the same
/// speaker.
pub proof fn merging_loses_no_time(turns: Seq<TurnView>, i: int) -> (k: int)
    requires
        0 <= i < turns.len(),
        forall|a: int, b: int|
            #![trigger turns[a], turns[b]]
            0 <= a <= b < turns.len() ==> turns[a].start <= turns[b].start && turns[a].end <= turns[b].end,
    ensures
        0 <= k < merged_turns(turns).len(),
        merged_turns(turns)[k].speaker == turns[i].speaker,
        merged_turns(turns)[k].start <= turns[i].start,
        turns[i].end <= merged_turns(turns)[k].end,
    decreases turns.len(),
{
    let front = turns.drop_last();
    let done = merged_turns(front);
    let out = merged_turns(turns);
    lemma_merged_end(front);
    lemma_merged_end(turns);
    if i < front.len() {
        assert forall|a: int, b: int|
            #![trigger front[a], front[b]]
            0 <= a <= b < front.len() implies front[a].start <= front[b].start && front[a].end
            <= front[b].end by {
            assert(turns[a].start <= turns[b].start && turns[a].end <= turns[b].end);
        }
        let k = merging_loses_no_time(front, i);
        assert(turns[front.len() - 1].end <= turns[front.len() as int].end);
        k
    } else {
        if out.len() == done.len() {
            let j = lemma_last_merged_start(turns);
            assert(j == out.len() - 1);
        }
        out.len() - 1
    }
}

proof fn lemma_last_merged_start(turns: Seq<TurnView>) -> (k: int)
    requires
        turns.len() > 0,
        forall|a: int, b: int|
            #![trigger turns[a], turns[b]]
            0 <= a <= b < turns.len() ==> turns[a].start <= turns[b].start && turns[a].end <= turns[b].end,
    ensures
        k == merged_turns(turns).len() - 1,
        merged_turns(turns)[k].start <= turns.last().start,
    decreases turns.len(),
{
    let front = turns.drop_last();
    lemma_merged_end(turns);
    if front.len() > 0 {
        assert forall|a: int, b: int|
            #![trigger front[a], front[b]]
            0 <= a <= b < front.len() implies front[a].start <= front[b].start && front[a].end
            <= front[b].end by {
            assert(turns[a].start <= turns[b].start && turns[a].end <= turns[b].end);
        }
        let k = lemma_last_merged_start(front);
        lemma_merged_end(front);
        assert(merged_turns(front).last() == merged_turns(front)[k]);
        assert(turns[front.len() - 1].start <= turns[front.len() as int].start);
    } else {
        assert(merged_turns(front).len() == 0);
    }
    merged_turns(turns).len() - 1
}

/// The turns of speech segments in order: each segment lies, in time, within a turn of the
/// speaker with its number, and the turns name no other speakers.
pub proof fn segments_lie_in_turns_of_their_speakers(
    segments: Seq<(int, int)>,
    labels: Seq<int>,
    i: int,
) -> (k: int)
    requires
        0 <= i < segments.len() == labels.len(),
        forall|a: int, b: int|
            #![trigger segments[a], segments[b]]
            0 <= a <= b < segments.len() ==> 0 <= segments[a].0 <= segments[b].0 && 0 <= segments[a].1
                <= segments[b].1,
    ensures
        0 <= k < segment_turns(segments, labels).len(),
        segment_turns(segments, labels)[k].speaker == speaker_name(labels[i] as nat),
        segment_turns(segments, labels)[k].start <= sample_ms(segments[i].0),
        sample_ms(segments[i].1) <= segment_turns(segments, labels)[k].end,
{
    let single = Seq::new(segments.len(), |j: int| segment_turn(segments[j], labels[j]));
    assert forall|a: int, b: int|
        #![trigger single[a], single[b]]
        0 <= a <= b < single.len() implies single[a].start <= single[b].start && single[a].end
        <= single[b].end by {
        assert(segments[a].0 <= segments[b].0 && segments[a].1 <= segments[b].1);
        samples_have_times(segments[a].0, segments[b].0);
        samples_have_times(segments[a].1, segments[b].1);
    }
    merging_loses_no_time(single, i)
}

// ── Laws of short turns ─────────────────────────────────────────────────────

/// The shortest turn, of equally short ones the first, if it lasts less than `min_ms`, is
/// given to its longer neighbour, which keeps its speaker and now covers both; of equally
/// long ones to the one before.
pub proof fn the_shortest_turn_joins_its_longer_neighbour(turns: Seq<TurnView>, min_ms: int, i: int)
    requires
        turns.len() > 1,
        0 <= i < turns.len(),
        turns[i].end - turns[i].start < min_ms,
        forall|j: int|
            0 <= j < turns.len() ==> {
                let longer = (#[trigger] turns[j]).end - turns[j].start - (turns[i].end - turns[i].start);
                longer > 0 || longer == 0 && i <= j
            },
    ensures
        ({
            let left = i > 0 && (i == turns.len() - 1 || turns[i - 1].end - turns[i - 1].start
                >= turns[i + 1].end - turns[i + 1].start);
            let lo = if left { i - 1 } else { i };
            let (a, b) = (turns[lo], turns[lo + 1]);
            let both = TurnView {
                start: if a.start <= b.start { a.start } else { b.start },
                end: if a.end >= b.end { a.end } else { b.end },
                speaker: if left { a.speaker } else { b.speaker },
            };
            settled_turns(turns, min_ms) == settled_turns(
                turns.take(lo) + seq![both] + turns.skip(lo + 2),
                min_ms,
            )
        }),
{
    assert forall|j: int| 0 <= j < turns.len() && j != i implies {
        ||| duration(#[trigger] turns[j]) > duration(turns[i])
        ||| duration(turns[j]) == duration(turns[i]) && j > i
    } by {}
    assert(is_shortest(turns, min_ms, i));
    lemma_shortest_unique(turns, min_ms, i);
    let left = i > 0 && (i == turns.len() - 1 || turns[i - 1].end - turns[i - 1].start
        >= turns[i + 1].end - turns[i + 1].start);
    let lo = if left { i - 1 } else { i };
    let (a, b) = (turns[lo], turns[lo + 1]);
    let both = TurnView {
        start: if a.start <= b.start { a.start } else { b.start },
        end: if a.end >= b.end { a.end } else { b.end },
        speaker: if left { a.speaker } else { b.speaker },
    };
    assert(absorbed(turns, i) =~= turns.take(lo) + seq![both] + turns.skip(lo + 2));
}

/// Where no turn is short, or there is only one, all stay as they are; otherwise no short
/// one is left.
pub proof fn short_turns_are_gone(turns: Seq<TurnView>, min_ms: int)
    ensures
        turns.len() <= 1 ==> settled_turns(turns, min_ms) == turns,
        (forall|j: int| 0 <= j < turns.len() ==> (#[trigger] turns[j]).end - turns[j].start >= min_ms)
            ==> settled_turns(turns, min_ms) == turns,
        turns.len() > 0 ==> settled_turns(turns, min_ms).len() > 0,
        settled_turns(turns, min_ms).len() > 1 ==> forall|j: int|
            0 <= j < settled_turns(turns, min_ms).len() ==> (
            #[trigger] settled_turns(turns, min_ms)[j]).end - settled_turns(turns, min_ms)[j].start
                >= min_ms,
    decreases turns.len(),
{
    if turns.len() > 1 && has_short(turns, min_ms) {
        let s = choose|i: int| 0 <= i < turns.len() && duration(#[trigger] turns[i]) < min_ms;
        assert(duration(turns[s]) < min_ms);
        let b = lemma_shortest_exists(turns, min_ms, turns.len() as int);
        assert(is_shortest(turns, min_ms, b));
        let i = choose|i: int| is_shortest(turns, min_ms, i);
        assert(is_shortest(turns, min_ms, i));
        short_turns_are_gone(absorbed(turns, i), min_ms);
        assert(turns[s].end - turns[s].start < min_ms);
    } else {
        let out = settled_turns(turns, min_ms);
        if out.len() > 1 {
            assert forall|j: int| 0 <= j < out.len() implies (#[trigger] out[j]).end - out[j].start
                >= min_ms by {
                if duration(turns[j]) < min_ms {
                    assert(has_short(turns, min_ms));
                }
            }
        }
    }
}

proof fn lemma_shortest_exists(turns: Seq<TurnView>, min_ms: int, n: int) -> (b: int)
    requires
        0 <= n <= turns.len(),
        exists|i: int| 0 <= i < n && duration(#[trigger] turns[i]) < min_ms,
    ensures
        0 <= b < n,
        duration(turns[b]) < min_ms,
        forall|j: int|
            0 <= j < n && j != b ==> {
                ||| duration(#[trigger] turns[j]) > duration(turns[b])
                ||| duration(turns[j]) == duration(turns[b]) && j > b
            },
    decreases n,
{
    let last = n - 1;
    if exists|i: int| 0 <= i < last && duration(#[trigger] turns[i]) < min_ms {
        let b = lemma_shortest_exists(turns, min_ms, last);
        if duration(turns[last]) < duration(turns[b]) {
            last
        } else {
            b
        }
    } else {
        last
    }
}

/// A turn that is long enough keeps its speaker: it lies within a settled turn of the same
/// speaker.
pub proof fn long_turns_keep_their_speaker(turns: Seq<TurnView>, min_ms: int, t: TurnView)
    requires
        turns.contains(t),
        t.end - t.start >= min_ms,
    ensures
        exists|u: TurnView|
            #[trigger] settled_turns(turns, min_ms).contains(u) && u.speaker == t.speaker && u.start
                <= t.start && t.end <= u.end,
    decreases turns.len(),
{
    let out = settled_turns(turns, min_ms);
    if turns.len() > 1 && has_short(turns, min_ms) {
        let b = lemma_shortest_exists(turns, min_ms, turns.len() as int);
        assert(is_shortest(turns, min_ms, b));
        let i = choose|i: int| is_shortest(turns, min_ms, i);
        assert(is_shortest(turns, min_ms, i));
        let next = absorbed(turns, i);
        let to = absorber(turns, i);
        let k = choose|k: int| 0 <= k < turns.len() && turns[k] == t;
        assert(duration(turns[i]) < min_ms);
        assert(k != i);
        let at = if to < i { to } else { to - 1 };
        let wide = stretched(turns[to], turns[i]);
        assert(next[at] == wide);
        let cover = if k == to { wide } else { t };
        if k != to {
            let kk = if k < i { k } else { k - 1 };
            assert(next[kk] == t);
        }
        assert(next.contains(cover));
        long_turns_keep_their_speaker(next, min_ms, cover);
    } else {
        assert(out.contains(t));
    }
}

/// Settling makes nothing up: every turn starts where a given one starts, ends where a given
/// one ends, and has the speaker of a given one.
pub proof fn settling_makes_nothing_up(turns: Seq<TurnView>, min_ms: int, u: TurnView)
    requires
        settled_turns(turns, min_ms).contains(u),
    ensures
        exists|i: int| 0 <= i < turns.len() && (#[trigger] turns[i]).start == u.start,
        exists|i: int| 0 <= i < turns.len() && (#[trigger] turns[i]).end == u.end,
        exists|i: int| 0 <= i < turns.len() && (#[trigger] turns[i]).speaker == u.speaker,
    decreases turns.len(),
{
    if turns.len() > 1 && has_short(turns, min_ms) {
        let b = lemma_shortest_exists(turns, min_ms, turns.len() as int);
        assert(is_shortest(turns, min_ms, b));
        let i = choose|i: int| is_shortest(turns, min_ms, i);
        assert(is_shortest(turns, min_ms, i));
        let next = absorbed(turns, i);
        let to = absorber(turns, i);
        let at = if to < i { to } else { to - 1 };
        settling_makes_nothing_up(next, min_ms, u);
        assert forall|k: int| #![trigger next[k]] 0 <= k < next.len() implies {
            &&& exists|j: int| 0 <= j < turns.len() && (#[trigger] turns[j]).start == next[k].start
            &&& exists|j: int| 0 <= j < turns.len() && (#[trigger] turns[j]).end == next[k].end
            &&& exists|j: int| 0 <= j < turns.len() && (#[trigger] turns[j]).speaker == next[k].speaker
        } by {
            if k == at {
                assert(next[k] == stretched(turns[to], turns[i]));
                assert(turns[to].speaker == next[k].speaker);
            } else {
                let j = if k < i { k } else { k + 1 };
                assert(next[k] == turns[j]);
            }
        }
        let a = choose|a: int| 0 <= a < next.len() && (#[trigger] next[a]).start == u.start;
        let c = choose|c: int| 0 <= c < next.len() && (#[trigger] next[c]).end == u.end;
        let d = choose|d: int| 0 <= d < next.len() && (#[trigger] next[d]).speaker == u.speaker;
        assert(0 <= a < next.len() && 0 <= c < next.len() && 0 <= d < next.len());
    } else {
        let k = choose|k: int| 0 <= k < turns.len() && turns[k] == u;
        assert(turns[k].start == u.start);
    }
}

// ── Laws of windows ─────────────────────────────────────────────────────────

/// The segmentation windows start ten seconds' worth of samples long, five seconds apart,
/// and only the last one may be shorter: it ends where the audio ends.
pub proof fn segmentation_windows_overlap_by_half(n: int, i: int)
    requires
        0 <= i < seg_window_count(n),
    ensures
        seg_window(n, i).0 == i * 80_000,
        seg_window(n, i).0 < seg_window(n, i).1 <= n,
        i < seg_window_count(n) - 1 ==> seg_window(n, i).1 - seg_window(n, i).0 == 160_000
            && seg_window(n, i).1 < n,
        i == seg_window_count(n) - 1 ==> seg_window(n, i).1 == n,
        seg_window(n, i).1 - seg_window(n, i).0 <= 160_000,
{
}

/// There is a frame for every sample, and for every frame that a window can mark: a frame
/// lasts 270 samples.
pub proof fn frames_cover_the_audio(n: int, pos: int, f: int)
    requires
        0 <= pos < n,
        0 <= f < 593,
    ensures
        pos / 270 + f < frame_total(n),
        frame_total(n) <= n / 270 + 594,
{
}

/// The fixed windows are all that fit: window `i` starts at every twenty thousandth sample
/// and takes forty thousand.
pub proof fn fixed_windows_are_all_that_fit(n: int, i: int)
    requires
        0 <= n,
        0 <= i,
    ensures
        i < fixed_window_count(n) <==> i * 20_000 + 40_000 <= n,
{
}

/// The runs of windows: a run starts with its first window and ends forty thousand samples
/// after the start of its last one. A run ends exactly where another label comes or the
/// next window starts more than 20800 samples after its end.
pub proof fn window_runs_are_runs(starts: Seq<usize>, labels: Seq<usize>) -> (first: Seq<int>)
    requires
        starts.len() <= labels.len(),
    ensures
        are_parts(first, starts.len() as int),
        first.len() == window_runs(starts, labels).len(),
        forall|k: int|
            #![trigger window_runs(starts, labels)[k]]
            0 <= k < first.len() ==> {
                &&& window_runs(starts, labels)[k].label == labels[first[k]]
                &&& window_runs(starts, labels)[k].start == starts[first[k]]
                &&& window_runs(starts, labels)[k].end == starts[last_of_part(
                    first,
                    starts.len() as int,
                    k,
                )] + 40_000
            },
        forall|i: int|
            0 < i < starts.len() ==> (#[trigger] first.contains(i) <==> !(labels[i - 1] == labels[i]
                && starts[i] <= starts[i - 1] + 40_000 + 20_800)),
    decreases starts.len(),
{
    let n = starts.len() as int;
    if n == 0 {
        Seq::empty()
    } else {
        let front = starts.drop_last();
        let done = window_runs(front, labels);
        let before = window_runs_are_runs(front, labels);
        let out = window_runs(starts, labels);
        lemma_run_last(front, labels);
        let joins = out.len() == done.len();
        let first = if joins { before } else { before.push(n - 1) };
        assert forall|k: int| #![trigger out[k]] 0 <= k < first.len() implies {
            &&& out[k].label == labels[first[k]]
            &&& out[k].start == starts[first[k]]
            &&& out[k].end == starts[last_of_part(first, n, k)] + 40_000
        } by {
            if k < before.len() {
                assert(done[k].start == front[before[k]]);
                assert(front[before[k]] == starts[before[k]]);
                let e = last_of_part(before, n - 1, k);
                if k + 1 < before.len() {
                    assert(0 <= before[k] < before[k + 1]);
                }
                assert(front[e] == starts[e]);
            }
        }
        assert forall|i: int| 0 < i < n implies (#[trigger] first.contains(i) <==> !(labels[i - 1]
            == labels[i] && starts[i] <= starts[i - 1] + 40_000 + 20_800)) by {
            if i < n - 1 {
                assert(front[i] == starts[i] && front[i - 1] == starts[i - 1]);
                assert(before.contains(i) <==> !(labels[i - 1] == labels[i] && front[i] <= front[i - 1]
                    + 40_000 + 20_800));
                if before.contains(i) {
                    let k = choose|k: int| 0 <= k < before.len() && before[k] == i;
                    assert(first[k] == i);
                }
                if first.contains(i) {
                    let k = choose|k: int| 0 <= k < first.len() && first[k] == i;
                    assert(before[k] == i);
                }
            } else {
                assert(front.last() == starts[n - 2]);
                if joins {
                    if first.contains(i) {
                        let k = choose|k: int| 0 <= k < first.len() && first[k] == i;
                        assert(before[k] == i);
                    }
                } else {
                    assert(first[before.len() as int] == i);
                }
            }
        }
        first
    }
}

proof fn lemma_run_last(starts: Seq<usize>, labels: Seq<usize>)
    ensures
        starts.len() > 0 <==> window_runs(starts, labels).len() > 0,
        starts.len() > 0 ==> window_runs(starts, labels).last().end == starts.last() + 40_000
            && window_runs(starts, labels).last().label == labels[starts.len() - 1],
{
}

/// The turns of windows are those of their runs, with the times of their first and last
/// sample and the name of their label, with turns of less than one and a half seconds
/// settled.
pub proof fn windows_become_turns_by_run(starts: Seq<usize>, labels: Seq<usize>, turns: Seq<TurnView>)
    requires
        turns.len() == window_runs(starts, labels).len(),
        forall|k: int|
            #![trigger turns[k]]
            0 <= k < turns.len() ==> {
                &&& turns[k].start == sample_ms(window_runs(starts, labels)[k].start)
                &&& turns[k].end == sample_ms(window_runs(starts, labels)[k].end)
                &&& turns[k].speaker == speaker_name(window_runs(starts, labels)[k].label as nat)
            },
    ensures
        window_turns_of(starts, labels) == settled_turns(turns, 1500),
{
    let mapped = window_runs(starts, labels).map_values(
        |r: WindowRun| segment_turn((r.start, r.end), r.label),
    );
    assert forall|k: int| 0 <= k < turns.len() implies mapped[k] == turns[k] by {
        assert(mapped[k] =~= turns[k]);
    }
    assert(mapped =~= turns);
}

// ── Laws of speech segments ─────────────────────────────────────────────────

/// `p..q` is a longest run of marked frames among the first `len`.
pub open spec fn is_run(marks: Seq<bool>, len: int, p: int, q: int) -> bool {
    &&& 0 <= p < q <= len
    &&& forall|f: int| p <= f < q ==> #[trigger] marks[f]
    &&& p > 0 ==> !marks[p - 1]
    &&& q < len ==> !marks[q]
}

/// The speech segments are the longest runs of marked frames that take at least 3200
/// samples, all of them and no others. Frames that start beyond the audio do not count, and
/// a run up to the last frame reaches the end of the audio.
pub proof fn speech_segments_are_the_long_runs(marks: Seq<bool>, n: int, len: int, p: int, q: int, k: int)
    requires
        0 <= n,
        0 <= len <= marks.len(),
        len > 0 ==> (len - 1) * 270 < n,
        len < marks.len() ==> len * 270 >= n,
    ensures
        ({
            let end = if q < len { q * 270 } else { n };
            is_run(marks, len, p, q) && end - p * 270 >= 3200 ==> speech_segments_of(marks, n).contains(
                (p * 270, end),
            )
        }),
        0 <= k < speech_segments_of(marks, n).len() ==> exists|a: int, b: int| #[trigger]
            is_run(marks, len, a, b) && speech_segments_of(marks, n)[k] == (
                a * 270,
                if b < len { b * 270 } else { n },
            ),
{
    let m = marks.take(len);
    assert(len == frames_before(marks.len() as int, n));
    let all = speech_segments_of(marks, n);
    assert(all == segments_from(m, n, 0));
    if is_run(marks, len, p, q) && (if q < len { q * 270 } else { n }) - p * 270 >= 3200 {
        assert forall|f: int| p <= f < q implies #[trigger] m[f] by {
            assert(m[f] == marks[f]);
        }
        lemma_run_is_a_segment(m, n, 0, p, q);
    }
    if 0 <= k < all.len() {
        let (a, b) = lemma_segment_is_a_run(m, n, 0, k);
        assert forall|f: int| a <= f < b implies #[trigger] marks[f] by {
            assert(m[f]);
        }
        assert(is_run(marks, len, a, b));
    }
}

proof fn lemma_run_is_a_segment(m: Seq<bool>, n: int, i: int, p: int, q: int)
    requires
        0 <= i <= p,
        is_run(m, m.len() as int, p, q),
        run_samples(m.len() as int, n, p, q).1 - run_samples(m.len() as int, n, p, q).0 >= 3200,
    ensures
        segments_from(m, n, i).contains(run_samples(m.len() as int, n, p, q)),
    decreases m.len() - i,
{
    let s = run_samples(m.len() as int, n, p, q);
    assert(m[p]);
    if !m[i] {
        lemma_run_is_a_segment(m, n, i + 1, p, q);
    } else {
        lemma_run_end(m, i);
        let e = run_end(m, i);
        let head = run_segment(m.len() as int, n, i, e);
        let tail = segments_from(m, n, e);
        assert(segments_from(m, n, i) == head + tail);
        if i < p {
            if e > p - 1 {
                assert(m[p - 1]);
            }
            lemma_run_is_a_segment(m, n, e, p, q);
            let k = choose|k: int| 0 <= k < tail.len() && tail[k] == s;
            assert((head + tail)[head.len() + k] == s);
        } else {
            if e < q {
                assert(m[e]);
            } else if e > q {
                assert(m[q]);
            }
            assert((head + tail)[0] == s);
        }
    }
}

proof fn lemma_segment_is_a_run(m: Seq<bool>, n: int, i: int, k: int) -> (run: (int, int))
    requires
        0 <= i <= m.len(),
        0 <= k < segments_from(m, n, i).len(),
        0 < i < m.len() ==> !m[i - 1] || !m[i],
    ensures
        is_run(m, m.len() as int, run.0, run.1),
        segments_from(m, n, i)[k] == run_samples(m.len() as int, n, run.0, run.1),
    decreases m.len() - i,
{
    if !m[i] {
        lemma_segment_is_a_run(m, n, i + 1, k)
    } else {
        lemma_run_end(m, i);
        let e = run_end(m, i);
        let head = run_segment(m.len() as int, n, i, e);
        let tail = segments_from(m, n, e);
        assert(segments_from(m, n, i) == head + tail);
        if k < head.len() {
            (i, e)
        } else {
            lemma_segment_is_a_run(m, n, e, k - head.len())
        }
    }
}

/// A frame counts as speech of one speaker exactly if some window that holds it finds so. Of
/// the classes, one for silence, one for each speaker and one for each pair of speakers, the
/// one with the largest score decides: one of the speakers. Window `i` starts in the frame of
/// its first sample.
pub proof fn one_speaker_marks_a_frame(
    windows: Seq<WindowScores>,
    n: int,
    i: int,
    f: int,
    speakers: int,
    c: int,
)
    requires
        0 <= i < windows.len(),
        0 <= f < windows[i].frames,
        speakers >= 1,
        windows[i].classes == 1 + speakers * (speakers + 1) / 2,
        (f + 1) * windows[i].classes <= windows[i].keys@.len(),
        0 <= c < windows[i].classes,
        forall|d: int|
            0 <= d < windows[i].classes && d != c ==> #[trigger] windows[i].keys@[f * windows[i].classes
                + d] < windows[i].keys@[f * windows[i].classes + c],
        0 <= i * 80_000 / 270 + f < frame_total(n),
    ensures
        window_marks(windows, i, i * 80_000 / 270 + f) <==> 1 <= c <= speakers,
        1 <= c <= speakers ==> marked_frames(windows, n)[i * 80_000 / 270 + f],
{
    let w = windows[i];
    let classes = w.classes as int;
    let g = i * 80_000 / 270 + f;
    let base = f * classes;
    assert((f + 1) * classes == base + classes) by (nonlinear_arith)
        requires
            base == f * classes,
    ;
    let row = w.keys@.subrange(base, base + classes);
    let s = speaker_count(classes);
    lemma_triangle(speakers);
    assert(is_speaker_count(classes, speakers));
    assert(is_speaker_count(classes, s));
    lemma_speaker_count(classes, s, speakers);
    assert forall|d: int| 0 <= d < row.len() && d != c implies #[trigger] row[d] < row[c] by {
        assert(row[d] == w.keys@[base + d]);
        assert(row[c] == w.keys@[base + c]);
    }
    assert(clustering::is_last_max(row, c));
    assert forall|d: int| #[trigger] clustering::is_last_max(row, d) implies d == c by {
        if d != c {
            assert(row[c] <= row[d]);
        }
    }
    assert(window_marks(windows, i, g) <==> 1 <= c <= speakers);
    if 1 <= c <= speakers {
        assert(window_marks(windows, i, g));
    }
}

proof fn lemma_triangle(speakers: int)
    requires
        speakers >= 1,
    ensures
        is_speaker_count(1 + speakers * (speakers + 1) / 2, speakers),
{
    let m = speakers * (speakers + 1) / 2;
    assert(speakers * (speakers + 1) % 2 == 0) by {
        let h = speakers / 2;
        if speakers % 2 == 0 {
            assert(speakers * (speakers + 1) == 2 * (h * (speakers + 1))) by (nonlinear_arith)
                requires
                    speakers == 2 * h,
            ;
        } else {
            assert(speakers * (speakers + 1) == 2 * (speakers * (h + 1))) by (nonlinear_arith)
                requires
                    speakers == 2 * h + 1,
            ;
        }
    }
    assert(2 * m == speakers * (speakers + 1));
    assert(speakers * speakers <= speakers * (speakers + 1) < (speakers + 1) * (speakers + 1)
        && speakers * (speakers + 1) >= 2) by (nonlinear_arith)
        requires
            speakers >= 1,
    ;
}

/// Smoothing goes by the neighbours on both sides: where both have the same label, that
/// label is taken, and a label that one of them has too is kept. At the ends there is one
/// neighbour.
pub proof fn smoothing_follows_the_neighbours(labels: Seq<usize>, out: Seq<usize>, i: int)
    requires
        is_smoothing(labels, out),
        0 <= i < labels.len(),
    ensures
        out.len() == labels.len(),
        0 < i < labels.len() - 1 && labels[i - 1] == labels[i + 1] ==> out[i] == labels[i - 1],
        0 < i < labels.len() - 1 && (labels[i] == labels[i - 1] || labels[i] == labels[i + 1]) ==> out[i]
            == labels[i],
        i == 0 && labels.len() > 1 && labels[0] == labels[1] ==> out[0] == labels[0],
        i == labels.len() - 1 && i > 0 && labels[i] == labels[i - 1] ==> out[i] == labels[i],
        labels.len() == 1 ==> out[0] == labels[0],
        out[i] == labels[i] || i > 0 && out[i] == labels[i - 1] || i + 1 < labels.len() && out[i]
            == labels[i + 1],
{
    let w = clustering::neighbourhood(labels, i, 1);
    let best = out[i];
    assert(clustering::is_most_frequent(w, best));
    reveal_with_fuel(clustering::occurrences, 4);
    let lo = if i >= 1 { i - 1 } else { 0 };
    assert forall|j: int| 0 <= j < w.len() implies w[j] == labels[lo + j] by {}
    let at = choose|at: int| 0 <= at < w.len() && w[at] == best;
    assert(w[at] == labels[lo + at]);
    let own = labels[i];
    assert(clustering::occurrences(w, own) <= clustering::occurrences(w, best));
    if i > 0 {
        let prev = labels[i - 1];
        assert(clustering::occurrences(w, prev) <= clustering::occurrences(w, best));
    }
    assert(w.len() <= 3);
    if w.len() == 3 {
        assert(w.drop_last().drop_last().drop_last() =~= Seq::empty());
        assert(w.drop_last()[1] == w[1] && w.drop_last().drop_last()[0] == w[0]);
    } else if w.len() == 2 {
        assert(w.drop_last().drop_last() =~= Seq::empty());
        assert(w.drop_last()[0] == w[0]);
    } else {
        assert(w.drop_last() =~= Seq::empty());
    }
}

/// The number of speakers that was asked for is kept, as far as there are samples for it:
/// there are never more groups than samples. Less than one speaker is one. Where none was
/// asked for, it is estimated, or there are two.
pub proof fn the_number_asked_for_is_kept(asked: i32, k: usize, samples: usize, gaps: Seq<i32>, chosen: nat)
    ensures
        asked >= 1 ==> speakers_requested(Some(asked)) == Some(asked as usize),
        asked < 1 ==> speakers_requested(Some(asked)) == Some(1usize),
        speakers_requested(None) is None,
        k <= samples ==> groups_for(Some(k), samples) == Some(k),
        k > samples ==> groups_for(Some(k), samples) == Some(samples),
        groups_for(None, samples) is None,
        k <= samples ==> fallback_groups(Some(k), samples) == k,
        k > samples ==> fallback_groups(Some(k), samples) == samples,
        samples >= 2 ==> fallback_groups(None, samples) == 2,
        samples < 2 ==> fallback_groups(None, samples) == samples,
        is_speaker_choice(Some(k), samples as nat, gaps, chosen) && k <= samples ==> chosen == k,
        is_speaker_choice(Some(k), samples as nat, gaps, chosen) && k > samples ==> chosen == samples,
        is_speaker_choice(None, samples as nat, gaps, chosen) && samples > 2 ==> 2 <= chosen <= 8
            && chosen < samples,
        is_speaker_choice(None, samples as nat, gaps, chosen) && samples <= 2 ==> chosen == samples,
{
    if is_speaker_choice(None, samples as nat, gaps, chosen) {
        clustering::the_largest_rise_decides(samples as nat, gaps, MAX_SPEAKERS as nat, chosen as int, 0);
    }
}

/// No frame is marked but by a window.
pub proof fn frames_are_marked_by_windows(windows: Seq<WindowScores>, n: int, g: int)
    requires
        0 <= g < frame_total(n),
    ensures
        marked_frames(windows, n).len() == frame_total(n),
        marked_frames(windows, n)[g] <==> exists|i: int|
            0 <= i < windows.len() && #[trigger] window_marks(windows, i, g),
{
}

/// The voices of one speaker are close: no two of them are farther apart than some of any
/// two speakers are.
pub proof fn voices_of_one_speaker_are_close(dist: Seq<Seq<i32>>, k: nat, x: int, y: int, z: int)
    requires
        clustering::is_distance_table(dist),
        1 <= k < dist.len(),
        0 <= x < dist.len(),
        0 <= y < dist.len(),
        0 <= z < dist.len(),
        x != y,
        segment_labels(dist, k)[x] == segment_labels(dist, k)[y],
        segment_labels(dist, k)[x] != segment_labels(dist, k)[z],
    ensures
        exists|u: int, v: int|
            #![trigger segment_labels(dist, k)[u], segment_labels(dist, k)[v]]
            0 <= u < dist.len() && 0 <= v < dist.len() && segment_labels(dist, k)[u] == segment_labels(
                dist,
                k,
            )[x] && segment_labels(dist, k)[v] == segment_labels(dist, k)[z] && dist[x][y] <= dist[u][v],
{
    clustering::groups_hold_what_is_close(dist, k, x, y);
    clustering::groups_hold_what_is_close(dist, k, x, z);
}

/// The speakers are numbered as they come: the first one is zero, and a number is given out
/// only after the one before it.
pub proof fn speakers_are_numbered_as_they_come(dist: Seq<Seq<i32>>, k: nat, x: int)
    requires
        k >= 1,
        0 <= x < dist.len(),
    ensures
        segment_labels(dist, k)[0] == 0,
        0 <= segment_labels(dist, k)[x] < k,
        segment_labels(dist, k)[x] > 0 ==> exists|y: int|
            0 <= y < x && #[trigger] segment_labels(dist, k)[y] == segment_labels(dist, k)[x] - 1,
{
    let labels = segment_labels(dist, k);
    clustering::exactly_so_many_groups(dist, k);
    if labels[x] > 0 {
        let g = labels[x] - 1;
        assert(labels.take(x).contains(g));
        let y = choose|y: int| 0 <= y < x && labels.take(x)[y] == g;
        assert(labels[y] == g);
    }
    if labels[0] > 0 {
        assert(labels.take(0).contains(0));
    }
}

} // verus!
