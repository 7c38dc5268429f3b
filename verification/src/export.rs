//! The transcript as a file: plain text and subtitles.

use vstd::prelude::*;

use crate::job::{self, Segment, SegmentView};
use crate::text;

verus! {

// ── Speakers ────────────────────────────────────────────────────────────────

/// Whether a segment has a speaker.
pub open spec fn has_speakers(segments: Seq<SegmentView>) -> bool {
    exists|i: int| 0 <= i < segments.len() && (#[trigger] segments[i]).speaker is Some
}

/// The speaker of a segment as shown: the name given to the speaker, else the
/// speaker, else `otherwise`.
pub open spec fn shown_speaker(segment: SegmentView, otherwise: Seq<char>) -> Seq<char> {
    match segment.speaker_name {
        Some(name) => name,
        None => match segment.speaker {
            Some(speaker) => speaker,
            None => otherwise,
        },
    }
}

/// The speaker of a segment as shown.
pub fn speaker_of(segment: &Segment, otherwise: &str) -> (out: String)
    ensures
        out@ == shown_speaker(segment@, otherwise@),
{
    match &segment.speaker_name {
        Some(name) => name.clone(),
        None => match &segment.speaker {
            Some(speaker) => speaker.clone(),
            None => otherwise.to_owned(),
        },
    }
}

fn any_speaker(segments: &[Segment]) -> (yes: bool)
    ensures
        yes == has_speakers(job::segment_views(segments@)),
{
    let ghost v = job::segment_views(segments@);
    let mut i: usize = 0;
    while i < segments.len()
        invariant
            i <= segments.len(),
            v == job::segment_views(segments@),
            forall|j: int| 0 <= j < i ==> (#[trigger] v[j]).speaker is None,
        decreases segments.len() - i,
    {
        assert(v[i as int] == segments@[i as int]@);
        if segments[i].speaker.is_some() {
            return true;
        }
        i += 1;
    }
    false
}

// ── Plain text ──────────────────────────────────────────────────────────────

/// The lines of a transcript with speakers: before the first segment of each speaker
/// in a row stands a line with the speaker, and between speakers an empty line.
pub open spec fn spoken_lines(segments: Seq<SegmentView>) -> Seq<Seq<char>>
    decreases segments.len(),
{
    if segments.len() == 0 {
        Seq::empty()
    } else {
        let before = spoken_lines(segments.drop_last());
        let speaker = shown_speaker(segments.last(), "Unknown"@);
        if segments.len() > 1 && shown_speaker(segments[segments.len() - 2], "Unknown"@) == speaker {
            before.push(segments.last().text)
        } else if segments.len() > 1 {
            before.push(Seq::empty()).push(speaker + ":"@).push(segments.last().text)
        } else {
            before.push(speaker + ":"@).push(segments.last().text)
        }
    }
}

/// The transcript as plain text.
pub open spec fn txt_of(segments: Seq<SegmentView>) -> Seq<char> {
    if has_speakers(segments) {
        text::joined(spoken_lines(segments), "\n"@)
    } else {
        text::joined(segments.map_values(|s: SegmentView| s.text), "\n\n"@)
    }
}

/// The transcript as plain text: paragraphs, or where there are speakers the lines of
/// each speaker under their name.
pub fn to_txt(segments: &[Segment]) -> (out: String)
    ensures
        out@ == txt_of(job::segment_views(segments@)),
{
    let ghost v = job::segment_views(segments@);
    let mut lines: Vec<String> = Vec::new();
    let mut i: usize = 0;
    if !any_speaker(segments) {
        while i < segments.len()
            invariant
                i <= segments.len(),
                v == job::segment_views(segments@),
                lines.len() == i,
                forall|j: int| 0 <= j < i ==> (#[trigger] lines@[j])@ == v[j].text,
            decreases segments.len() - i,
        {
            lines.push(segments[i].text.clone());
            i += 1;
        }
        assert(text::texts(lines@) =~= v.map_values(|s: SegmentView| s.text));
        return text::join(&lines, "\n\n");
    }
    let mut current: Option<String> = None;
    assert(text::texts(lines@) =~= spoken_lines(v.take(0)));
    while i < segments.len()
        invariant
            i <= segments.len(),
            v == job::segment_views(segments@),
            text::texts(lines@) == spoken_lines(v.take(i as int)),
            (i > 0) == (lines@.len() > 0),
            match current {
                Some(c) => i > 0 && c@ == shown_speaker(v[i - 1], "Unknown"@),
                None => i == 0,
            },
        decreases segments.len() - i,
    {
        let s = &segments[i];
        let speaker = speaker_of(s, "Unknown");
        let ghost before = text::texts(lines@);
        proof {
            assert(v.take(i + 1).drop_last() =~= v.take(i as int));
            assert(v.take(i + 1).last() == s@);
            if i > 0 {
                assert(v.take(i + 1)[i - 1] == v[i - 1]);
            }
        }
        let same: bool = match &current {
            Some(c) => *c == speaker,
            None => false,
        };
        if !same {
            if lines.len() > 0 {
                lines.push(String::new());
                assert(text::texts(lines@) =~= before.push(Seq::empty()));
            }
            let ghost mid = text::texts(lines@);
            let mut head = speaker.clone();
            head.append(":");
            lines.push(head);
            assert(text::texts(lines@) =~= mid.push(speaker@ + ":"@));
            current = Some(speaker);
        }
        let ghost mid = text::texts(lines@);
        lines.push(s.text.clone());
        assert(text::texts(lines@) =~= mid.push(s@.text));
        i += 1;
    }
    assert(v.take(i as int) =~= v);
    text::join(&lines, "\n")
}

// ── Subtitles ───────────────────────────────────────────────────────────────

/// A time in milliseconds as hours, minutes, seconds and milliseconds.
pub open spec fn clock_text(ms: nat) -> Seq<char> {
    text::zero_padded(text::decimal(ms / 3_600_000), 2) + ":"@ + text::zero_padded(
        text::decimal(ms / 60_000 % 60),
        2,
    ) + ":"@ + text::zero_padded(text::decimal(ms / 1000 % 60), 2) + ","@ + text::zero_padded(
        text::decimal(ms % 1000),
        3,
    )
}

/// A time in milliseconds as it is written in subtitles. A time before the start is
/// written as the start.
pub open spec fn srt_time_of(ms: int) -> Seq<char> {
    clock_text(if ms > 0 { ms as nat } else { 0 })
}

/// A time in milliseconds as it is written in subtitles.
pub fn srt_time(ms: i64) -> (out: String)
    ensures
        out@ == srt_time_of(ms as int),
{
    let ms: u64 = if ms > 0 { ms as u64 } else { 0 };
    let total_s: u64 = ms / 1000;
    let mut out = text::padded_text(total_s / 3600, 2);
    out.append(":");
    out.append(text::padded_text(total_s / 60 % 60, 2).as_str());
    out.append(":");
    out.append(text::padded_text(total_s % 60, 2).as_str());
    out.append(",");
    out.append(text::padded_text(ms % 1000, 3).as_str());
    out
}

/// The text of a subtitle: with the speaker in front where there are speakers.
pub open spec fn srt_text(segment: SegmentView, speakers: bool) -> Seq<char> {
    if speakers {
        "["@ + shown_speaker(segment, "Unknown"@) + "] "@ + segment.text
    } else {
        segment.text
    }
}

/// One subtitle: its number, its times and its text.
pub open spec fn srt_entry(number: nat, segment: SegmentView, speakers: bool) -> Seq<char> {
    text::decimal(number) + "\n"@ + srt_time_of(segment.start) + " --> "@ + srt_time_of(segment.end)
        + "\n"@ + srt_text(segment, speakers)
}

/// The transcript as subtitles, numbered from one.
pub open spec fn srt_of(segments: Seq<SegmentView>) -> Seq<char> {
    text::joined(
        segments.map(|i: int, s: SegmentView| srt_entry((i + 1) as nat, s, has_speakers(segments))),
        "\n\n"@,
    )
}

fn subtitle(number: u64, segment: &Segment, speakers: bool) -> (out: String)
    ensures
        out@ == srt_entry(number as nat, segment@, speakers),
{
    let mut out = text::decimal_text(number);
    out.append("\n");
    out.append(srt_time(segment.start).as_str());
    out.append(" --> ");
    out.append(srt_time(segment.end).as_str());
    out.append("\n");
    if speakers {
        let mut said = "[".to_owned();
        said.append(speaker_of(segment, "Unknown").as_str());
        said.append("] ");
        said.append(segment.text.as_str());
        out.append(said.as_str());
    } else {
        out.append(segment.text.as_str());
    }
    out
}

/// The transcript as subtitles.
pub fn to_srt(segments: &[Segment]) -> (out: String)
    ensures
        out@ == srt_of(job::segment_views(segments@)),
{
    let ghost v = job::segment_views(segments@);
    let speakers = any_speaker(segments);
    let mut entries: Vec<String> = Vec::new();
    let mut i: usize = 0;
    while i < segments.len()
        invariant
            i <= segments.len(),
            v == job::segment_views(segments@),
            entries.len() == i,
            forall|j: int|
                0 <= j < i ==> (#[trigger] entries@[j])@ == srt_entry((j + 1) as nat, v[j], speakers),
        decreases segments.len() - i,
    {
        entries.push(subtitle(i as u64 + 1, &segments[i], speakers));
        i += 1;
    }
    assert(text::texts(entries@) =~= v.map(
        |j: int, s: SegmentView| srt_entry((j + 1) as nat, s, speakers),
    ));
    text::join(&entries, "\n\n")
}

// ── Laws ────────────────────────────────────────────────────────────────────

/// The fields of a written time add up to the time, and each stays within its bound.
#[verifier::spinoff_prover]
pub proof fn written_times_add_up(ms: nat)
    ensures
        (ms / 3_600_000) * 3_600_000 + (ms / 60_000 % 60) * 60_000 + (ms / 1000 % 60) * 1000 + ms % 1000
            == ms,
        ms / 60_000 % 60 < 60,
        ms / 1000 % 60 < 60,
        ms % 1000 < 1000,
{
    let seconds = ms / 1000;
    let minutes = ms / 60_000;
    let hours = ms / 3_600_000;
    assert(minutes == seconds / 60);
    assert(hours == minutes / 60);
    assert(seconds % 60 == seconds - 60 * minutes);
    assert(minutes % 60 == minutes - 60 * hours);
    assert(ms % 1000 == ms - 1000 * seconds);
}

/// The text `part` stands somewhere in `s`.
pub open spec fn holds_text(s: Seq<char>, part: Seq<char>) -> bool {
    exists|at: int| #[trigger] text::occurs_at(s, part, at)
}

proof fn lemma_part_of_part(s: Seq<char>, part: Seq<char>, inner: Seq<char>)
    requires
        holds_text(s, part),
        holds_text(part, inner),
    ensures
        holds_text(s, inner),
{
    let a = choose|a: int| #[trigger] text::occurs_at(s, part, a);
    let b = choose|b: int| #[trigger] text::occurs_at(part, inner, b);
    assert(s.subrange(a + b, a + b + inner.len()) =~= s.subrange(a, a + part.len()).subrange(
        b,
        b + inner.len(),
    ));
    assert(text::occurs_at(s, inner, a + b));
}

proof fn lemma_held_at_the_end(front: Seq<char>, part: Seq<char>)
    ensures
        holds_text(front + part, part),
{
    let s = front + part;
    assert(s.subrange(front.len() as int, s.len() as int) =~= part);
    assert(text::occurs_at(s, part, front.len() as int));
}

proof fn lemma_joined_holds_parts(parts: Seq<Seq<char>>, sep: Seq<char>, i: int)
    requires
        0 <= i < parts.len(),
    ensures
        holds_text(text::joined(parts, sep), parts[i]),
    decreases parts.len(),
{
    let all = text::joined(parts, sep);
    if parts.len() == 1 {
        assert(Seq::<char>::empty() + parts[0] =~= parts[0]);
        lemma_held_at_the_end(Seq::empty(), parts[0]);
    } else if i == parts.len() - 1 {
        lemma_held_at_the_end(text::joined(parts.drop_last(), sep) + sep, parts[i]);
    } else {
        let front = text::joined(parts.drop_last(), sep);
        lemma_joined_holds_parts(parts.drop_last(), sep, i);
        assert(all.subrange(0, front.len() as int) =~= front);
        assert(text::occurs_at(all, front, 0));
        lemma_part_of_part(all, front, parts[i]);
    }
}

proof fn lemma_text_is_a_line(segments: Seq<SegmentView>, i: int)
    requires
        0 <= i < segments.len(),
    ensures
        spoken_lines(segments).contains(segments[i].text),
    decreases segments.len(),
{
    let lines = spoken_lines(segments);
    if i == segments.len() - 1 {
        assert(lines[lines.len() - 1] == segments[i].text);
    } else {
        let front = segments.drop_last();
        let before = spoken_lines(front);
        lemma_text_is_a_line(front, i);
        let k = choose|k: int| 0 <= k < before.len() && before[k] == front[i].text;
        assert(lines[k] == segments[i].text);
    }
}

/// No text is lost: what was said in any segment stands in the plain text and in the
/// subtitles.
pub proof fn no_text_is_lost(segments: Seq<SegmentView>, i: int)
    requires
        0 <= i < segments.len(),
    ensures
        holds_text(txt_of(segments), segments[i].text),
        holds_text(srt_of(segments), segments[i].text),
{
    let said = segments[i].text;
    if has_speakers(segments) {
        let lines = spoken_lines(segments);
        lemma_text_is_a_line(segments, i);
        let k = choose|k: int| 0 <= k < lines.len() && lines[k] == said;
        lemma_joined_holds_parts(lines, "\n"@, k);
    } else {
        let texts = segments.map_values(|s: SegmentView| s.text);
        lemma_joined_holds_parts(texts, "\n\n"@, i);
    }
    let speakers = has_speakers(segments);
    let entries = segments.map(|j: int, s: SegmentView| srt_entry((j + 1) as nat, s, speakers));
    let entry = srt_entry((i + 1) as nat, segments[i], speakers);
    assert(entries[i] == entry);
    lemma_joined_holds_parts(entries, "\n\n"@, i);
    let shown = srt_text(segments[i], speakers);
    let head = text::decimal((i + 1) as nat) + "\n"@ + srt_time_of(segments[i].start) + " --> "@
        + srt_time_of(segments[i].end) + "\n"@;
    lemma_held_at_the_end(head, shown);
    if speakers {
        lemma_held_at_the_end("["@ + shown_speaker(segments[i], "Unknown"@) + "] "@, said);
    } else {
        lemma_held_at_the_end(Seq::empty(), said);
        assert(Seq::<char>::empty() + said =~= said);
    }
    lemma_part_of_part(entry, shown, said);
    lemma_part_of_part(srt_of(segments), entry, said);
}

/// The shown speaker of a segment is the name that was given, before the speaker, before
/// the stand-in.
pub proof fn names_are_shown_before_speakers(segment: SegmentView, otherwise: Seq<char>)
    ensures
        segment.speaker_name matches Some(name) ==> shown_speaker(segment, otherwise) == name,
        segment.speaker_name is None ==> (segment.speaker matches Some(speaker) ==> shown_speaker(
            segment,
            otherwise,
        ) == speaker),
        segment.speaker_name is None && segment.speaker is None ==> shown_speaker(segment, otherwise)
            == otherwise,
{
}

/// What a line of a transcript with speakers is.
pub enum ScriptLine {
    /// The empty line between speakers.
    Gap,
    /// The line that names the speaker of a segment.
    Speaker(int),
    /// The text of a segment.
    Said(int),
}

/// Line `k` is what the script says. The nearest speaker line above what was said names
/// the shown speaker, with nothing but what that speaker said in between. A speaker is
/// named only where another one spoke before, after an empty line.
pub open spec fn is_line(
    segments: Seq<SegmentView>,
    lines: Seq<Seq<char>>,
    script: Seq<ScriptLine>,
    k: int,
) -> bool {
    match script[k] {
        ScriptLine::Gap => lines[k].len() == 0 && 0 < k < script.len() - 1 && script[k + 1] is Speaker,
        ScriptLine::Speaker(i) => {
            &&& 0 <= i < segments.len()
            &&& lines[k] == shown_speaker(segments[i], "Unknown"@) + ":"@
            &&& k + 1 < script.len()
            &&& script[k + 1] == ScriptLine::Said(i)
            &&& k == 0 <==> i == 0
            &&& k > 0 ==> script[k - 1] is Gap
            &&& i > 0 ==> shown_speaker(segments[i - 1], "Unknown"@) != shown_speaker(
                segments[i],
                "Unknown"@,
            )
        },
        ScriptLine::Said(i) => {
            &&& 0 <= i < segments.len()
            &&& lines[k] == segments[i].text
            &&& exists|h: int| #[trigger] stands_under(segments, script, k, h, segments[i])
        },
    }
}

/// Line `h` is the nearest speaker line above line `k` and names the speaker of the segment.
pub open spec fn stands_under(
    segments: Seq<SegmentView>,
    script: Seq<ScriptLine>,
    k: int,
    h: int,
    said: SegmentView,
) -> bool {
    &&& 0 <= h < k
    &&& script[h] matches ScriptLine::Speaker(j) && shown_speaker(segments[j], "Unknown"@)
        == shown_speaker(said, "Unknown"@)
    &&& forall|m: int| h < m < k ==> (#[trigger] script[m]) is Said
}

/// The lines are a script of the segments: every segment has its line, in order.
pub open spec fn is_script(
    segments: Seq<SegmentView>,
    lines: Seq<Seq<char>>,
    script: Seq<ScriptLine>,
) -> bool {
    &&& lines.len() == script.len()
    &&& forall|k: int| 0 <= k < script.len() ==> #[trigger] is_line(segments, lines, script, k)
    &&& forall|i: int|
        0 <= i < segments.len() ==> #[trigger] script.contains(ScriptLine::Said(i))
    &&& forall|k: int, l: int|
        #![trigger script[k], script[l]]
        0 <= k < l < script.len() ==> (script[k] matches ScriptLine::Said(i) ==> (
        script[l] matches ScriptLine::Said(j) ==> i < j))
}

spec fn script_of(segments: Seq<SegmentView>) -> Seq<ScriptLine>
    decreases segments.len(),
{
    if segments.len() == 0 {
        Seq::empty()
    } else {
        let n = segments.len() - 1;
        let before = script_of(segments.drop_last());
        if n > 0 && shown_speaker(segments[n - 1], "Unknown"@) == shown_speaker(segments[n], "Unknown"@) {
            before.push(ScriptLine::Said(n))
        } else if n > 0 {
            before.push(ScriptLine::Gap).push(ScriptLine::Speaker(n)).push(ScriptLine::Said(n))
        } else {
            before.push(ScriptLine::Speaker(n)).push(ScriptLine::Said(n))
        }
    }
}

proof fn lemma_line_stays(
    front: Seq<SegmentView>,
    segments: Seq<SegmentView>,
    old_lines: Seq<Seq<char>>,
    lines: Seq<Seq<char>>,
    old: Seq<ScriptLine>,
    script: Seq<ScriptLine>,
    k: int,
)
    requires
        0 <= k < old.len() <= script.len(),
        front.len() <= segments.len(),
        forall|m: int| 0 <= m < old.len() ==> script[m] == #[trigger] old[m],
        lines[k] == old_lines[k],
        forall|m: int| 0 <= m < front.len() ==> segments[m] == #[trigger] front[m],
        is_line(front, old_lines, old, k),
        forall|m: int|
            #![trigger old[m]]
            0 <= m < old.len() ==> (old[m] matches ScriptLine::Speaker(j) ==> 0 <= j < front.len()),
    ensures
        is_line(segments, lines, script, k),
{
    assert(script[k] == old[k]);
    match old[k] {
        ScriptLine::Gap => {
            assert(script[k + 1] == old[k + 1]);
        },
        ScriptLine::Speaker(i) => {
            assert(script[k + 1] == old[k + 1]);
            assert(segments[i] == front[i]);
            if k > 0 {
                assert(script[k - 1] == old[k - 1]);
            }
            if i > 0 {
                assert(segments[i - 1] == front[i - 1]);
            }
        },
        ScriptLine::Said(i) => {
            assert(segments[i] == front[i]);
            let h = choose|h: int| #[trigger] stands_under(front, old, k, h, front[i]);
            assert(script[h] == old[h]);
            assert forall|m: int| h < m < k implies (#[trigger] script[m]) is Said by {
                assert(old[m] is Said);
            }
            if let ScriptLine::Speaker(j) = old[h] {
                assert(segments[j] == front[j]);
            }
            assert(stands_under(segments, script, k, h, segments[i]));
        },
    }
}

proof fn lemma_script(segments: Seq<SegmentView>)
    ensures
        is_script(segments, spoken_lines(segments), script_of(segments)),
        segments.len() == 0 ==> script_of(segments).len() == 0,
        segments.len() > 0 ==> script_of(segments).len() > 0 && script_of(segments).last()
            == ScriptLine::Said(segments.len() - 1),
    decreases segments.len(),
{
    let lines = spoken_lines(segments);
    let script = script_of(segments);
    if segments.len() > 0 {
        let n = segments.len() - 1;
        let front = segments.drop_last();
        let old_lines = spoken_lines(front);
        let old = script_of(front);
        lemma_script(front);
        let last = script.len() - 1;
        let same = n > 0 && shown_speaker(segments[n - 1], "Unknown"@) == shown_speaker(
            segments[n],
            "Unknown"@,
        );
        assert forall|m: int|
            #![trigger old[m]]
            0 <= m < old.len() implies (old[m] matches ScriptLine::Speaker(j) ==> 0 <= j < front.len()) by {
            assert(is_line(front, old_lines, old, m));
        }
        assert forall|k: int| 0 <= k < script.len() implies #[trigger] is_line(
            segments,
            lines,
            script,
            k,
        ) by {
            if k < old.len() {
                assert(is_line(front, old_lines, old, k));
                lemma_line_stays(front, segments, old_lines, lines, old, script, k);
            } else if k == last {
                if same {
                    let e = old.len() - 1;
                    assert(is_line(front, old_lines, old, e));
                    let h = choose|h: int| #[trigger] stands_under(front, old, e, h, front[n - 1]);
                    assert(script[h] == old[h]);
                    assert forall|m: int| h < m < k implies (#[trigger] script[m]) is Said by {
                        if m < e {
                            assert(old[m] is Said);
                        } else {
                            assert(script[m] == old[e]);
                        }
                    }
                    if let ScriptLine::Speaker(j) = old[h] {
                        assert(segments[j] == front[j]);
                    }
                    assert(stands_under(segments, script, k, h, segments[n]));
                } else {
                    assert(script[last - 1] == ScriptLine::Speaker(n));
                    assert(stands_under(segments, script, k, last - 1, segments[n]));
                }
            }
        }
        assert forall|i: int| 0 <= i < segments.len() implies #[trigger] script.contains(
            ScriptLine::Said(i),
        ) by {
            if i < n {
                assert(old.contains(ScriptLine::Said(i)));
                let k = choose|k: int| 0 <= k < old.len() && old[k] == ScriptLine::Said(i);
                assert(script[k] == ScriptLine::Said(i));
            } else {
                assert(script[last] == ScriptLine::Said(n));
            }
        }
        assert forall|k: int, l: int| #![trigger script[k], script[l]] 0 <= k < l < script.len() implies (
        script[k] matches ScriptLine::Said(i) ==> (script[l] matches ScriptLine::Said(j) ==> i < j)) by {
            if l < old.len() {
                assert(script[k] == old[k] && script[l] == old[l]);
            } else if k < old.len() {
                assert(script[k] == old[k]);
                assert(is_line(front, old_lines, old, k));
            }
        }
    }
}

/// In a transcript with speakers everything stands under the name of the speaker who said
/// it. Without speakers it is the texts of the segments, in order, as paragraphs.
pub proof fn what_was_said_stands_under_its_speaker(segments: Seq<SegmentView>, parts: Seq<Seq<char>>)
    ensures
        has_speakers(segments) ==> exists|lines: Seq<Seq<char>>, script: Seq<ScriptLine>| #[trigger]
            is_script(segments, lines, script) && txt_of(segments) == text::joined(lines, "\n"@),
        (forall|i: int| 0 <= i < segments.len() ==> (#[trigger] segments[i]).speaker is None)
            && parts.len() == segments.len() && (forall|i: int|
            0 <= i < segments.len() ==> #[trigger] parts[i] == segments[i].text) ==> txt_of(segments)
            == text::joined(parts, "\n\n"@),
{
    lemma_script(segments);
    assert(is_script(segments, spoken_lines(segments), script_of(segments)));
    if !has_speakers(segments) && parts.len() == segments.len() && (forall|i: int|
        0 <= i < segments.len() ==> #[trigger] parts[i] == segments[i].text) {
        assert(segments.map_values(|s: SegmentView| s.text) =~= parts);
    }
}

/// The number that is written in the characters `from..to` of a text.
pub open spec fn number_in(s: Seq<char>, from: int, to: int) -> int {
    text::digits_value(s.subrange(from, to)) as int
}

/// The time that is read from a written one: the milliseconds are its last three digits,
/// the seconds and the minutes the two digits before, the hours all that stands before.
pub open spec fn time_read(s: Seq<char>) -> int {
    let n = s.len() as int;
    number_in(s, 0, n - 10) * 3_600_000 + number_in(s, n - 9, n - 7) * 60_000 + number_in(
        s,
        n - 6,
        n - 4,
    ) * 1000 + number_in(s, n - 3, n)
}

/// The text is digits with a colon before and after the minutes and a comma before the
/// milliseconds.
pub open spec fn is_clock(s: Seq<char>) -> bool {
    let n = s.len() as int;
    &&& n >= 12
    &&& forall|i: int|
        0 <= i < n ==> if i == n - 10 || i == n - 7 {
            #[trigger] s[i] == ':'
        } else if i == n - 4 {
            s[i] == ','
        } else {
            '0' <= s[i] <= '9'
        }
    &&& number_in(s, n - 9, n - 7) < 60
    &&& number_in(s, n - 6, n - 4) < 60
}

/// Reading a written subtitle time back gives the time; before the start, it is the start.
pub proof fn subtitle_times_read_back(ms: int)
    ensures
        is_clock(srt_time_of(ms)),
        time_read(srt_time_of(ms)) == if ms > 0 {
            ms
        } else {
            0
        },
{
    let t: nat = if ms > 0 { ms as nat } else { 0 };
    let (h, m, s, f) = (t / 3_600_000, t / 60_000 % 60, t / 1000 % 60, t % 1000);
    text::padding_keeps_the_number(h, 2);
    text::padding_keeps_the_number(m, 2);
    text::padding_keeps_the_number(s, 2);
    text::padding_keeps_the_number(f, 3);
    let (a, b, c, d) = (
        text::zero_padded(text::decimal(h), 2),
        text::zero_padded(text::decimal(m), 2),
        text::zero_padded(text::decimal(s), 2),
        text::zero_padded(text::decimal(f), 3),
    );
    reveal_strlit(":");
    reveal_strlit(",");
    let out = srt_time_of(ms);
    assert(out == a + ":"@ + b + ":"@ + c + ","@ + d);
    let n = out.len() as int;
    assert(n == a.len() + 10);
    assert(out.subrange(0, n - 10) =~= a);
    assert(out.subrange(n - 9, n - 7) =~= b);
    assert(out.subrange(n - 6, n - 4) =~= c);
    assert(out.subrange(n - 3, n) =~= d);
    assert forall|i: int| 0 <= i < n implies if i == n - 10 || i == n - 7 {
        #[trigger] out[i] == ':'
    } else if i == n - 4 {
        out[i] == ','
    } else {
        '0' <= out[i] <= '9'
    } by {
        if i < n - 10 {
            assert(out[i] == a[i]);
        } else if n - 10 < i < n - 7 {
            assert(out[i] == b[i - (n - 9)]);
        } else if n - 7 < i < n - 4 {
            assert(out[i] == c[i - (n - 6)]);
        } else if i > n - 4 {
            assert(out[i] == d[i - (n - 3)]);
        }
    }
    written_times_add_up(t);
}

/// Two different times are never written alike.
pub proof fn subtitle_times_differ(a: int, b: int)
    requires
        a >= 0,
        b >= 0,
        srt_time_of(a) == srt_time_of(b),
    ensures
        a == b,
{
    subtitle_times_read_back(a);
    subtitle_times_read_back(b);
}

/// The subtitles are those of the segments, in order, with an empty line in between: the
/// number, counted from one, the times, and the text, with the shown speaker in brackets
/// before it if any segment has a speaker.
pub proof fn every_segment_is_a_subtitle(segments: Seq<SegmentView>, parts: Seq<Seq<char>>)
    requires
        parts.len() == segments.len(),
        forall|i: int|
            0 <= i < segments.len() ==> #[trigger] parts[i] == text::decimal((i + 1) as nat) + "\n"@
                + srt_time_of(segments[i].start) + " --> "@ + srt_time_of(segments[i].end) + "\n"@ + (
            if exists|j: int| 0 <= j < segments.len() && (#[trigger] segments[j]).speaker is Some {
                "["@ + shown_speaker(segments[i], "Unknown"@) + "] "@ + segments[i].text
            } else {
                segments[i].text
            }),
    ensures
        srt_of(segments) == text::joined(parts, "\n\n"@),
{
    let entries = segments.map(
        |i: int, s: SegmentView| srt_entry((i + 1) as nat, s, has_speakers(segments)),
    );
    assert(entries =~= parts);
}

} // verus!
