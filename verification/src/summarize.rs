//! The summary of a transcript: what the language model is asked, and how its
//! streamed answer is read.

use vstd::prelude::*;

use crate::export;
use crate::job::{self, Segment, SegmentView};
use crate::models_dir::ModelsDir;
use crate::text;

verus! {

/// Whether summaries are available: the file of the language model is there.
pub fn available(models_dir: &ModelsDir) -> (yes: bool)
    ensures
        yes == models_dir.holds("llamafile"@),
{
    models_dir.has("llamafile")
}

// ── The question ────────────────────────────────────────────────────────────

/// One line of the transcript that the model reads.
pub open spec fn transcript_line(segment: SegmentView) -> Seq<char> {
    export::shown_speaker(segment, "Speaker"@) + ": "@ + text::trimmed(segment.text)
}

/// The transcript that the model reads.
pub open spec fn transcript_of(segments: Seq<SegmentView>) -> Seq<char> {
    text::joined(segments.map_values(|s: SegmentView| transcript_line(s)), "\n"@)
}

/// The transcript that the model reads: a line for each segment.
pub fn format_transcript(segments: &[Segment]) -> (out: String)
    ensures
        out@ == transcript_of(job::segment_views(segments@)),
{
    let ghost v = job::segment_views(segments@);
    let mut lines: Vec<String> = Vec::new();
    let mut i: usize = 0;
    while i < segments.len()
        invariant
            i <= segments.len(),
            v == job::segment_views(segments@),
            lines.len() == i,
            forall|j: int| 0 <= j < i ==> (#[trigger] lines@[j])@ == transcript_line(v[j]),
        decreases segments.len() - i,
    {
        let mut line = export::speaker_of(&segments[i], "Speaker");
        line.append(": ");
        line.append(text::trim(segments[i].text.as_str()).as_str());
        lines.push(line);
        i += 1;
    }
    assert(text::texts(lines@) =~= v.map_values(|s: SegmentView| transcript_line(s)));
    text::join(&lines, "\n")
}

/// When the last segment ends; the start where none ends after it.
pub open spec fn latest_end(segments: Seq<SegmentView>) -> int
    decreases segments.len(),
{
    if segments.len() == 0 {
        0
    } else {
        let before = latest_end(segments.drop_last());
        if segments.last().end > before {
            segments.last().end
        } else {
            before
        }
    }
}

/// How many tokens the answer may have: two hundred for each minute of the
/// transcript, rounded half up, no less than 512 and no more than the cap.
pub open spec fn token_budget(end_ms: int, cap: u32) -> int {
    let asked = (end_ms + 150) / 300;
    let least: int = if asked >= 512 { asked } else { 512 };
    if least <= cap {
        least
    } else {
        cap as int
    }
}

/// How many tokens the answer to the given transcript may have.
pub fn max_tokens(segments: &[Segment], cap: u32) -> (tokens: u32)
    ensures
        tokens == token_budget(latest_end(job::segment_views(segments@)), cap),
{
    let ghost v = job::segment_views(segments@);
    let mut end: i64 = 0;
    let mut i: usize = 0;
    while i < segments.len()
        invariant
            i <= segments.len(),
            v == job::segment_views(segments@),
            end >= 0,
            end == latest_end(v.take(i as int)),
        decreases segments.len() - i,
    {
        assert(v.take(i + 1).drop_last() =~= v.take(i as int));
        assert(v.take(i + 1).last() == segments@[i as int]@);
        if segments[i].end > end {
            end = segments[i].end;
        }
        i += 1;
    }
    assert(v.take(i as int) =~= v);
    let end: u64 = end as u64;
    let asked: u64 = end / 300 + (end % 300 + 150) / 300;
    let least: u64 = if asked >= 512 { asked } else { 512 };
    if least <= cap as u64 {
        least as u32
    } else {
        cap
    }
}

/// The instructions for the model, up to the date.
pub open spec fn prompt_head() -> Seq<char> {
    "You are an experienced law enforcement intelligence officer. Write a formal intelligence report based on the following recorded debrief between a Handler and a Human Source.\n\nHOUSE STYLE — follow exactly:\n- Begin with the date on its own line at the very top: "@
}

/// The instructions for the model, from the date on.
pub open spec fn prompt_tail() -> Seq<char> {
    ".\n- Write in the third person and the past tense, in a measured, professional register.\n- Refer to the two participants only as \"HS\" (the human source) and \"Handler\". Do not invent or use any personal names for them.\n- Use flowing narrative paragraphs. Do NOT use bullet points, numbered lists, or section headings.\n- Attribute information with reporting verbs, e.g. \"HS stated that...\", \"Handler advised...\", \"HS confirmed...\", \"HS further disclosed...\".\n- Report only what is supported by the transcript. Do not speculate, embellish, or add facts that are not present, and do not include analytical commentary or recommendations unless the speakers themselves made them.\n- Preserve operationally relevant detail exactly as stated: names, nicknames, locations, vehicles and registrations, dates, times, quantities, and the relationships between people.\n- Be concise and avoid repetition.\n\nProduce only the report text. Do not add a preamble, a title (other than the date line), or any closing remarks."@
}

/// The instructions for the model: the house style, with the date of the report.
pub fn system_prompt(date: &str) -> (out: String)
    ensures
        out@ == prompt_head() + date@ + prompt_tail(),
{
    let mut out = "You are an experienced law enforcement intelligence officer. Write a formal intelligence report based on the following recorded debrief between a Handler and a Human Source.\n\nHOUSE STYLE — follow exactly:\n- Begin with the date on its own line at the very top: ".to_owned();
    out.append(date);
    out.append(
        ".\n- Write in the third person and the past tense, in a measured, professional register.\n- Refer to the two participants only as \"HS\" (the human source) and \"Handler\". Do not invent or use any personal names for them.\n- Use flowing narrative paragraphs. Do NOT use bullet points, numbered lists, or section headings.\n- Attribute information with reporting verbs, e.g. \"HS stated that...\", \"Handler advised...\", \"HS confirmed...\", \"HS further disclosed...\".\n- Report only what is supported by the transcript. Do not speculate, embellish, or add facts that are not present, and do not include analytical commentary or recommendations unless the speakers themselves made them.\n- Preserve operationally relevant detail exactly as stated: names, nicknames, locations, vehicles and registrations, dates, times, quantities, and the relationships between people.\n- Be concise and avoid repetition.\n\nProduce only the report text. Do not add a preamble, a title (other than the date line), or any closing remarks.",
    );
    out
}

/// What the model is asked.
pub struct ChatRequest {
    pub system: String,
    pub transcript: String,
    pub max_tokens: u32,
}

/// The values of what the model is asked.
#[verifier::ext_equal]
pub struct ChatRequestView {
    pub system: Seq<char>,
    pub transcript: Seq<char>,
    pub max_tokens: int,
}

impl View for ChatRequest {
    type V = ChatRequestView;

    open spec fn view(&self) -> ChatRequestView {
        ChatRequestView {
            system: self.system@,
            transcript: self.transcript@,
            max_tokens: self.max_tokens as int,
        }
    }
}

/// What the model is asked about a transcript; `None` where there is nothing to
/// summarize.
pub open spec fn request_for(segments: Seq<SegmentView>, date: Seq<char>, cap: u32) -> Option<
    ChatRequestView,
> {
    if segments.len() == 0 {
        None
    } else {
        Some(
            ChatRequestView {
                system: prompt_head() + date + prompt_tail(),
                transcript: transcript_of(segments),
                max_tokens: token_budget(latest_end(segments), cap),
            },
        )
    }
}

/// What the model is asked about a transcript; `None` where there is nothing to
/// summarize.
pub fn chat_request(segments: &[Segment], date: &str, cap: u32) -> (out: Option<ChatRequest>)
    ensures
        match out {
            Some(r) => request_for(job::segment_views(segments@), date@, cap) == Some(r@),
            None => request_for(job::segment_views(segments@), date@, cap) is None,
        },
{
    if segments.len() == 0 {
        None
    } else {
        Some(
            ChatRequest {
                system: system_prompt(date),
                transcript: format_transcript(segments),
                max_tokens: max_tokens(segments, cap),
            },
        )
    }
}

/// The error for a transcript with nothing to summarize.
pub fn no_segments_message() -> (out: String)
    ensures
        out@ == "no segments to summarize"@,
{
    "no segments to summarize".to_owned()
}

/// Where the model is asked.
pub fn completions_url(port: u16) -> (out: String)
    ensures
        out@ == "http://127.0.0.1:"@ + text::decimal(port as nat) + "/v1/chat/completions"@,
{
    let mut out = "http://127.0.0.1:".to_owned();
    out.append(text::decimal_text(port as u64).as_str());
    out.append("/v1/chat/completions");
    out
}

/// The error for an answer that is no success.
pub fn server_error_message(status: &str, body: &str) -> (out: String)
    ensures
        out@ == "llamafile server error "@ + status@ + ": "@ + body@,
{
    let mut out = "llamafile server error ".to_owned();
    out.append(status);
    out.append(": ");
    out.append(body);
    out
}

// ── Waiting for the server ──────────────────────────────────────────────────

/// How long the server is waited for.
pub const RETRY_SECONDS: u64 = 300;

/// How long to wait between two attempts.
pub const RETRY_PAUSE_MS: u64 = 500;

/// What happens after an attempt to reach the server.
#[derive(Debug, Clone, Copy, PartialEq, Eq, Structural)]
pub enum RetryStep {
    /// The server answered.
    Answered,
    /// The request is sent after a pause.
    Again,
    /// The server stays out of reach.
    GiveUp,
}

/// Whether the request is sent: not to a server that is known to have exited.
pub fn may_send(alive: Option<bool>) -> (yes: bool)
    ensures
        yes == (alive != Some(false)),
{
    match alive {
        Some(a) => a,
        None => true,
    }
}

/// A request that did not reach the server is sent again until the time is over.
pub open spec fn retry_step(answered: bool, in_time: bool) -> RetryStep {
    if answered {
        RetryStep::Answered
    } else if in_time {
        RetryStep::Again
    } else {
        RetryStep::GiveUp
    }
}

/// A request that did not reach the server is sent again until the time is over.
pub fn after_attempt(answered: bool, in_time: bool) -> (step: RetryStep)
    ensures
        step == retry_step(answered, in_time),
{
    if answered {
        RetryStep::Answered
    } else if in_time {
        RetryStep::Again
    } else {
        RetryStep::GiveUp
    }
}

/// The error for a server that exited.
pub fn exited_message() -> (out: String)
    ensures
        out@ == "llamafile server process exited — check stderr for details"@,
{
    "llamafile server process exited — check stderr for details".to_owned()
}

/// The error for a server that stays out of reach.
pub fn unreachable_message(cause: &str) -> (out: String)
    ensures
        out@ == "llamafile server unreachable after 5 min: "@ + cause@,
{
    let mut out = "llamafile server unreachable after 5 min: ".to_owned();
    out.append(cause);
    out
}

// ── The answer ──────────────────────────────────────────────────────────────

/// The text that a JSON document holds under `list`, there at `index`, there under
/// `object`, there under `field`; `None` where the document is malformed or holds no
/// text there.
pub uninterp spec fn json_text(
    json: Seq<char>,
    list: Seq<char>,
    index: nat,
    object: Seq<char>,
    field: Seq<char>,
) -> Option<Seq<char>>;

/// `serde_json::from_str` into a `serde_json::Value`, then indexing into it by `list`,
/// `index`, `object` and `field`, then `Value::as_str`. The result has a name and
/// nothing more is said of it: it is given by the arguments alone.
#[verifier::external_body]
fn json_text_at(json: &str, list: &str, index: usize, object: &str, field: &str) -> (out: Option<String>)
    ensures
        text::opt_text(out) == json_text(json@, list@, index as nat, object@, field@),
{
    let value: serde_json::Value = serde_json::from_str(json).ok()?;
    value[list][index][object][field].as_str().map(|s| s.to_owned())
}

/// The piece of the answer in one event of the stream.
pub open spec fn delta_content(json: Seq<char>) -> Option<Seq<char>> {
    json_text(json, "choices"@, 0, "delta"@, "content"@)
}

/// A streamed answer as far as it was read.
pub struct AnswerStream {
    /// What was received after the last complete line.
    pub pending: Vec<char>,
    /// The answer so far.
    pub answer: String,
    /// Whether the end of the answer was announced.
    pub finished: bool,
}

/// The values of a streamed answer, and the pieces that the answer was made of.
#[verifier::ext_equal]
pub struct AnswerView {
    pub pending: Seq<char>,
    pub answer: Seq<char>,
    pub finished: bool,
    pub pieces: Seq<Seq<char>>,
}

/// What a line of the stream, without the whitespace around it, says.
pub enum LineView {
    /// Nothing of the answer.
    Other,
    /// The end of the answer.
    End,
    /// A piece of the answer.
    Piece(Seq<char>),
}

/// What the data of an event says, where `content` is the piece of the answer in it.
pub open spec fn read_data(data: Seq<char>, content: Option<Seq<char>>) -> LineView {
    if data == "[DONE]"@ {
        LineView::End
    } else {
        match content {
            Some(piece) if piece.len() > 0 => LineView::Piece(piece),
            _ => LineView::Other,
        }
    }
}

/// What a line of the stream says.
pub open spec fn read_line(line: Seq<char>) -> LineView {
    match text::after_prefix(line, "data: "@) {
        Some(data) => read_data(data, delta_content(data)),
        None => LineView::Other,
    }
}

impl AnswerView {
    /// After a line of the stream.
    pub open spec fn after_line(self, line: Seq<char>) -> AnswerView {
        match read_line(line) {
            LineView::Other => self,
            LineView::End => AnswerView { finished: true, ..self },
            LineView::Piece(piece) => AnswerView {
                answer: self.answer + piece,
                pieces: self.pieces.push(piece),
                ..self
            },
        }
    }

    /// After every complete line that was received, up to the end of the answer.
    pub open spec fn drained(self) -> AnswerView
        decreases self.pending.len(),
    {
        match text::find_from(self.pending, seq!['\n'], 0) {
            Some(i) if !self.finished && 0 <= i < self.pending.len() => {
                let next = (AnswerView { pending: self.pending.skip(i + 1), ..self }).after_line(
                    text::trimmed(self.pending.take(i)),
                );
                next.drained()
            },
            _ => self,
        }
    }

    /// After the given text was received.
    pub open spec fn received(self, chunk: Seq<char>) -> AnswerView {
        (AnswerView { pending: self.pending + chunk, ..self }).drained()
    }
}

/// What a line of the stream says.
pub enum Line {
    /// Nothing of the answer.
    Other,
    /// The end of the answer.
    End,
    /// A piece of the answer.
    Piece(String),
}

impl View for Line {
    type V = LineView;

    open spec fn view(&self) -> LineView {
        match self {
            Line::Other => LineView::Other,
            Line::End => LineView::End,
            Line::Piece(piece) => LineView::Piece(piece@),
        }
    }
}

/// What the data of an event says, where `content` is the piece of the answer in it.
pub fn event_line(data: &str, content: Option<String>) -> (line: Line)
    ensures
        line@ == read_data(data@, text::opt_text(content)),
{
    if text::same_text(data, "[DONE]") {
        Line::End
    } else {
        match content {
            Some(piece) => {
                if text::chars_of(piece.as_str()).len() > 0 {
                    Line::Piece(piece)
                } else {
                    Line::Other
                }
            },
            None => Line::Other,
        }
    }
}

/// What a line of the stream, without the whitespace around it, says.
pub fn stream_line(line: &Vec<char>) -> (out: Line)
    ensures
        out@ == read_line(line@),
{
    match text::strip_prefix_chars(line, &text::chars_of("data: ")) {
        Some(rest) => {
            let data = text::string_of(&rest);
            let content = json_text_at(data.as_str(), "choices", 0, "delta", "content");
            event_line(data.as_str(), content)
        },
        None => Line::Other,
    }
}

/// The text of bytes in UTF-8, where what is malformed is replaced.
pub uninterp spec fn lossy_text(bytes: Seq<u8>) -> Seq<char>;

/// `String::from_utf8_lossy`. The text has a name: it is given by the bytes alone. Of
/// bytes that are well-formed UTF-8 it is the text that they encode; what stands for
/// malformed bytes is left unsaid.
#[verifier::external_body]
fn from_utf8_lossy(bytes: &[u8]) -> (out: String)
    ensures
        out@ == lossy_text(bytes@),
        vstd::utf8::valid_utf8(bytes@) ==> out@ == vstd::utf8::decode_utf8(bytes@),
{
    String::from_utf8_lossy(bytes).into_owned()
}

impl View for AnswerStream {
    type V = AnswerView;

    open spec fn view(&self) -> AnswerView {
        AnswerView {
            pending: self.pending@,
            answer: self.answer@,
            finished: self.finished,
            pieces: Seq::empty(),
        }
    }
}

impl AnswerView {
    /// A stream of which nothing was received.
    pub open spec fn nothing() -> AnswerView {
        AnswerView {
            pending: Seq::empty(),
            answer: Seq::empty(),
            finished: false,
            pieces: Seq::empty(),
        }
    }

    /// The stream with its pieces handed on.
    pub open spec fn handed_on(self) -> AnswerView {
        AnswerView { pieces: Seq::empty(), ..self }
    }
}

impl AnswerStream {
    /// A stream of which nothing was received.
    pub fn new() -> (stream: AnswerStream)
        ensures
            stream@ == AnswerView::nothing(),
    {
        AnswerStream { pending: Vec::new(), answer: String::new(), finished: false }
    }

    /// The values of the stream, with the given pieces not yet handed on.
    spec fn with_pieces(&self, pieces: Seq<String>) -> AnswerView {
        AnswerView { pieces: text::texts(pieces), ..self@ }
    }

    /// Reads the first complete line. Returns `false` where there is none, or the
    /// answer has ended.
    fn read_one(&mut self, pieces: &mut Vec<String>) -> (read: bool)
        ensures
            !read ==> *final(self) == *old(self) && *final(pieces) == *old(pieces),
            !read ==> old(self).with_pieces(old(pieces)@).drained() == old(self).with_pieces(old(pieces)@),
            read ==> final(self).pending@.len() < old(self).pending@.len(),
            read ==> final(self).with_pieces(final(pieces)@).drained() == old(self).with_pieces(
                old(pieces)@,
            ).drained(),
    {
        let mut newline: Vec<char> = Vec::new();
        newline.push('\n');
        assert(newline@ =~= seq!['\n']);
        if self.finished {
            return false;
        }
        match text::find_chars(&self.pending, &newline, 0) {
            None => false,
            Some(i) => {
                proof {
                    text::lemma_found(self.pending@, newline@, 0);
                }
                assert(i + 1 <= self.pending.len());
                let ghost before = self.with_pieces(pieces@);
                let line = text::trim_chars(&text::slice_chars(&self.pending, 0, i));
                assert(self.pending@.subrange(0, i as int) =~= self.pending@.take(i as int));
                let rest = text::slice_chars(&self.pending, i + 1, self.pending.len());
                assert(rest@ =~= self.pending@.skip(i + 1));
                self.pending = rest;
                match stream_line(&line) {
                    Line::Other => {},
                    Line::End => {
                        self.finished = true;
                    },
                    Line::Piece(piece) => {
                        let ghost had = text::texts(pieces@);
                        self.answer.append(piece.as_str());
                        pieces.push(piece);
                        assert(text::texts(pieces@) =~= had.push(piece@));
                    },
                }
                assert(self.with_pieces(pieces@) =~= (AnswerView {
                    pending: before.pending.skip(i + 1),
                    ..before
                }).after_line(line@));
                true
            },
        }
    }

    /// Takes the next text of the stream and returns the pieces of the answer that it
    /// completes.
    pub fn push_text(&mut self, chunk: &str) -> (pieces: Vec<String>)
        ensures
            final(self)@ == old(self)@.received(chunk@).handed_on(),
            text::texts(pieces@) == old(self)@.received(chunk@).pieces,
    {
        let mut added = text::chars_of(chunk);
        let ghost before = self@;
        self.pending.append(&mut added);
        let mut pieces: Vec<String> = Vec::new();
        let ghost start = self.with_pieces(pieces@);
        assert(start =~= (AnswerView { pending: before.pending + chunk@, ..before }));
        let mut more: bool = true;
        while more
            invariant
                self.with_pieces(pieces@).drained() == start.drained(),
                !more ==> self.with_pieces(pieces@) == start.drained(),
            decreases self.pending@.len(), if more { 1int } else { 0int },
        {
            more = self.read_one(&mut pieces);
        }
        assert(self@ =~= start.drained().handed_on());
        pieces
    }

    /// Takes the next bytes of the stream and returns the pieces of the answer that
    /// they complete.
    pub fn push_bytes(&mut self, bytes: &[u8]) -> (pieces: Vec<String>)
        ensures
            final(self)@ == old(self)@.received(lossy_text(bytes@)).handed_on(),
            text::texts(pieces@) == old(self)@.received(lossy_text(bytes@)).pieces,
            vstd::utf8::valid_utf8(bytes@) ==> lossy_text(bytes@) == vstd::utf8::decode_utf8(bytes@),
    {
        let chunk = from_utf8_lossy(bytes);
        self.push_text(chunk.as_str())
    }
}

/// An answer without the block at its start in which the model thought aloud: what
/// follows the first end mark, without the whitespace before it. An answer that does not
/// start with such a block stays as it is.
pub open spec fn after_thinking(answer: Seq<char>) -> Seq<char> {
    match text::find_from(answer, "</think>"@, 0) {
        Some(i) if text::occurs_at(answer, "<think>"@, 0) => text::trimmed_start(
            answer.skip(i + "</think>"@.len()),
        ),
        _ => answer,
    }
}

/// An answer without the block at its start in which the model thought aloud.
pub fn strip_thinking(answer: &Vec<char>) -> (out: Vec<char>)
    ensures
        out@ == after_thinking(answer@),
{
    let mark = text::chars_of("</think>");
    if text::stands_at(answer, &text::chars_of("<think>"), 0) {
        if let Some(i) = text::find_chars(answer, &mark, 0) {
            proof {
                text::lemma_found(answer@, mark@, 0);
            }
            assert(i + mark.len() <= answer.len());
            let rest = text::slice_chars(answer, i + mark.len(), answer.len());
            assert(rest@ =~= answer@.skip(i + mark@.len()));
            return text::trim_start_chars(&rest);
        }
    }
    let out = text::slice_chars(answer, 0, answer.len());
    assert(out@ =~= answer@);
    out
}

/// The text with each carriage return before a line feed left out.
pub open spec fn with_unix_lines(s: Seq<char>) -> Seq<char>
    decreases s.len(),
{
    if s.len() == 0 {
        s
    } else if s.len() >= 2 && s[0] == '\r' && s[1] == '\n' {
        seq!['\n'] + with_unix_lines(s.skip(2))
    } else {
        seq![s[0]] + with_unix_lines(s.skip(1))
    }
}

/// The text with each carriage return before a line feed left out.
pub fn unix_lines(v: &Vec<char>) -> (out: Vec<char>)
    ensures
        out@ == with_unix_lines(v@),
{
    let mut out: Vec<char> = Vec::new();
    let mut i: usize = 0;
    assert(out@ + with_unix_lines(v@.skip(0)) =~= with_unix_lines(v@)) by {
        assert(v@.skip(0) =~= v@);
    }
    while i < v.len()
        invariant
            i <= v.len(),
            out@ + with_unix_lines(v@.skip(i as int)) == with_unix_lines(v@),
        decreases v.len() - i,
    {
        let ghost had = out@;
        let ghost rest = v@.skip(i as int);
        if v[i] == '\r' && i + 1 < v.len() && v[i + 1] == '\n' {
            out.push('\n');
            assert(rest.skip(2) =~= v@.skip(i + 2));
            i += 2;
        } else {
            out.push(v[i]);
            assert(rest.skip(1) =~= v@.skip(i + 1));
            i += 1;
        }
        assert(out@ + with_unix_lines(v@.skip(i as int)) =~= had + with_unix_lines(rest));
    }
    assert(v@.skip(i as int) =~= Seq::<char>::empty());
    assert(out@ + with_unix_lines(v@.skip(i as int)) =~= out@);
    out
}

/// The summary that an answer holds.
pub open spec fn summary_of(answer: Seq<char>) -> Seq<char> {
    with_unix_lines(text::trimmed(after_thinking(answer)))
}

/// The summary that an answer holds: without what the model thought aloud, without the
/// whitespace around it, with plain line ends.
pub fn summary_text(answer: &str) -> (out: String)
    ensures
        out@ == summary_of(answer@),
{
    let rest = strip_thinking(&text::chars_of(answer));
    text::string_of(&unix_lines(&text::trim_chars(&rest)))
}

proof fn lemma_found_first(s: Seq<char>, p: Seq<char>, from: int, at: int)
    requires
        0 <= from <= at,
        text::occurs_at(s, p, at),
        forall|j: int| from <= j < at ==> !(#[trigger] text::occurs_at(s, p, j)),
    ensures
        text::find_from(s, p, from) == Some(at),
    decreases at - from,
{
    if from < at {
        assert(!text::occurs_at(s, p, from));
        lemma_found_first(s, p, from + 1, at);
    }
}

/// Only a block at the start is left out: what follows it stays but for the whitespace
/// before it, and an answer that does not start with a block, or whose block does not
/// end, stays whole.
pub proof fn only_leading_thoughts_are_left_out(thoughts: Seq<char>, rest: Seq<char>, answer: Seq<char>)
    requires
        forall|j: int| !(#[trigger] text::occurs_at(thoughts, "</think>"@, j)),
    ensures
        after_thinking("<think>"@ + thoughts + "</think>"@ + rest) == text::trimmed_start(rest),
        !text::occurs_at(answer, "<think>"@, 0) ==> after_thinking(answer) == answer,
        text::find_from(answer, "</think>"@, 0) is None ==> after_thinking(answer) == answer,
{
    reveal_strlit("<think>");
    reveal_strlit("</think>");
    let head = "<think>"@;
    let mark = "</think>"@;
    let s = head + thoughts + mark + rest;
    let at = 7 + thoughts.len() as int;
    assert(s.subrange(0, 7) =~= head);
    assert(s.subrange(at, at + 8) =~= mark);
    assert forall|j: int| 0 <= j < at implies !(#[trigger] text::occurs_at(s, mark, j)) by {
        if text::occurs_at(s, mark, j) {
            let part = s.subrange(j, j + 8);
            assert(part[0] == s[j] && part[1] == s[j + 1]);
            if j < 7 {
                assert(s[j] == head[j]);
                assert(s.subrange(0, 7)[1] == s[1]);
            } else if j + 8 <= at {
                assert(thoughts.subrange(j - 7, j - 7 + 8) =~= part);
                assert(text::occurs_at(thoughts, mark, j - 7));
            } else {
                assert(s.subrange(at, at + 8)[0] == s[at]);
                assert(part[at - j] == s[at]);
                assert(mark[at - j] == mark[0]);
            }
        }
    }
    lemma_found_first(s, mark, 0, at);
    assert(s.skip(at + 8) =~= rest);
}

// ── Laws of the stream ──────────────────────────────────────────────────────

proof fn lemma_found_in_front(s: Seq<char>, t: Seq<char>, c: char, from: int)
    requires
        0 <= from,
        text::find_from(s, seq![c], from) is Some,
    ensures
        text::find_from(s + t, seq![c], from) == text::find_from(s, seq![c], from),
    decreases s.len() - from,
{
    let p = seq![c];
    let u = s + t;
    assert(s.subrange(from, from + 1) =~= u.subrange(from, from + 1));
    if !text::occurs_at(s, p, from) {
        lemma_found_in_front(s, t, c, from + 1);
    }
}

proof fn lemma_drained_in_parts(state: AnswerView, more: Seq<char>)
    ensures
        (AnswerView { pending: state.pending + more, ..state }).drained() == (AnswerView {
            pending: state.drained().pending + more,
            ..state.drained()
        }).drained(),
    decreases state.pending.len(),
{
    let nl = seq!['\n'];
    let whole = AnswerView { pending: state.pending + more, ..state };
    match text::find_from(state.pending, nl, 0) {
        Some(i) if !state.finished && 0 <= i < state.pending.len() => {
            lemma_found_in_front(state.pending, more, '\n', 0);
            let line = text::trimmed(state.pending.take(i));
            let next = (AnswerView { pending: state.pending.skip(i + 1), ..state }).after_line(line);
            assert(whole.pending.take(i) =~= state.pending.take(i));
            assert(whole.pending.skip(i + 1) =~= state.pending.skip(i + 1) + more);
            let whole_next = (AnswerView { pending: whole.pending.skip(i + 1), ..whole }).after_line(line);
            assert(whole_next =~= (AnswerView { pending: next.pending + more, ..next }));
            lemma_drained_in_parts(next, more);
        },
        _ => {},
    }
}

/// How the stream is cut into chunks makes no difference: text that comes in two
/// chunks is read as if it had come in one.
pub proof fn chunks_do_not_matter(state: AnswerView, first: Seq<char>, second: Seq<char>)
    ensures
        state.received(first).received(second) == state.received(first + second),
{
    let start = AnswerView { pending: state.pending + first, ..state };
    lemma_drained_in_parts(start, second);
    assert(state.pending + (first + second) =~= start.pending + second);
}

/// The texts one after the other.
pub open spec fn strung_together(parts: Seq<Seq<char>>) -> Seq<char>
    decreases parts.len(),
{
    if parts.len() == 0 {
        Seq::empty()
    } else {
        strung_together(parts.drop_last()) + parts.last()
    }
}

proof fn lemma_drained_answer(state: AnswerView)
    requires
        state.answer == strung_together(state.pieces),
    ensures
        state.drained().answer == strung_together(state.drained().pieces),
    decreases state.pending.len(),
{
    match text::find_from(state.pending, seq!['\n'], 0) {
        Some(i) if !state.finished && 0 <= i < state.pending.len() => {
            let line = text::trimmed(state.pending.take(i));
            let next = (AnswerView { pending: state.pending.skip(i + 1), ..state }).after_line(line);
            if let LineView::Piece(piece) = read_line(line) {
                assert(state.pieces.push(piece).drop_last() =~= state.pieces);
            }
            lemma_drained_answer(next);
        },
        _ => {},
    }
}

/// The answer is the pieces that were handed on, one after the other.
pub proof fn the_answer_is_its_pieces(state: AnswerView, chunk: Seq<char>)
    requires
        state.answer == strung_together(state.pieces),
    ensures
        state.received(chunk).answer == strung_together(state.received(chunk).pieces),
{
    lemma_drained_answer(AnswerView { pending: state.pending + chunk, ..state });
}

/// Nothing that comes after the end of the answer changes it.
pub proof fn nothing_follows_the_end(state: AnswerView, chunk: Seq<char>)
    requires
        state.finished,
    ensures
        state.received(chunk).answer == state.answer,
        state.received(chunk).pieces == state.pieces,
        state.received(chunk).finished,
{
}

proof fn lemma_one_line(state: AnswerView, line: Seq<char>)
    requires
        !state.finished,
        state.pending.len() == 0,
        !line.contains('\n'),
    ensures
        state.received(line + "\n"@) == state.after_line(text::trimmed(line)),
{
    reveal_strlit("\n");
    let nl = seq!['\n'];
    let n = line.len() as int;
    let start = AnswerView { pending: state.pending + (line + "\n"@), ..state };
    assert(start.pending =~= line + "\n"@);
    assert(start.pending.subrange(n, n + 1) =~= nl);
    assert forall|j: int| 0 <= j < n implies !(#[trigger] text::occurs_at(start.pending, nl, j)) by {
        if text::occurs_at(start.pending, nl, j) {
            assert(start.pending.subrange(j, j + 1)[0] == line[j]);
        }
    }
    text::lemma_first_at(start.pending, nl, 0, n);
    assert(start.pending.take(n) =~= line);
    assert(start.pending.skip(n + 1) =~= Seq::<char>::empty());
    let rest = AnswerView { pending: start.pending.skip(n + 1), ..start };
    assert(rest =~= state);
    let next = rest.after_line(text::trimmed(line));
    assert(next.pending.len() == 0);
    assert(next.drained() == next);
}

/// What an event of the stream, one on a line, does: the end mark ends the answer; any
/// other event whose content is a text of at least one character adds exactly that text to
/// the answer and hands it on as one piece; all others change nothing. Whitespace around
/// the line makes no difference.
pub proof fn events_add_their_content(
    state: AnswerView,
    before: Seq<char>,
    data: Seq<char>,
    after: Seq<char>,
)
    requires
        !state.finished,
        state.pending.len() == 0,
        forall|k: int| 0 <= k < before.len() ==> text::is_space(#[trigger] before[k]) && before[k] != '\n',
        forall|k: int| 0 <= k < after.len() ==> text::is_space(#[trigger] after[k]) && after[k] != '\n',
        data.len() > 0,
        !text::is_space(data.last()),
        !data.contains('\n'),
    ensures
        ({
            let next = state.received(before + ("data: "@ + data) + after + "\n"@);
            if data == "[DONE]"@ {
                next == AnswerView { finished: true, ..state }
            } else {
                match json_text(data, "choices"@, 0, "delta"@, "content"@) {
                    Some(piece) => if piece.len() > 0 {
                        next == AnswerView {
                            answer: state.answer + piece,
                            pieces: state.pieces.push(piece),
                            ..state
                        }
                    } else {
                        next == state
                    },
                    None => next == state,
                }
            }
        }),
{
    reveal_strlit("data: ");
    let said = "data: "@ + data;
    let line = before + said + after;
    assert(said[0] == 'd');
    assert(said.last() == data.last());
    assert(!line.contains('\n')) by {
        if line.contains('\n') {
            let k = choose|k: int| 0 <= k < line.len() && line[k] == '\n';
            if k < before.len() {
                assert(before[k] == '\n');
            } else if k < before.len() + said.len() {
                let d = k - before.len();
                assert(said[d] == '\n');
                if d >= 6 {
                    assert(data[d - 6] == '\n');
                }
            } else {
                assert(after[k - before.len() - said.len()] == '\n');
            }
        }
    }
    lemma_one_line(state, line);
    text::trimming_leaves_the_text(before, said, after);
    assert(said.subrange(0, 6) =~= "data: "@);
    assert(said.skip(6) =~= data);
}

/// A line that is no event changes nothing.
pub proof fn other_lines_change_nothing(state: AnswerView, line: Seq<char>)
    requires
        !state.finished,
        state.pending.len() == 0,
        !line.contains('\n'),
        !(text::trimmed(line).len() >= 6 && text::trimmed(line).take(6) == "data: "@),
    ensures
        state.received(line + "\n"@) == state,
{
    reveal_strlit("data: ");
    lemma_one_line(state, line);
    let t = text::trimmed(line);
    if text::occurs_at(t, "data: "@, 0) {
        assert(t.take(6) =~= t.subrange(0, 6));
    }
}

/// The text of a stream with one event after the other, each on a line of its own.
pub open spec fn stream_of(events: Seq<Seq<char>>) -> Seq<char>
    decreases events.len(),
{
    if events.len() == 0 {
        Seq::empty()
    } else {
        stream_of(events.drop_last()) + ("data: "@ + events.last() + "\n"@)
    }
}

/// The contents of the events that hold any, in order.
pub open spec fn contents_of(events: Seq<Seq<char>>) -> Seq<Seq<char>>
    decreases events.len(),
{
    if events.len() == 0 {
        Seq::empty()
    } else {
        let before = contents_of(events.drop_last());
        match json_text(events.last(), "choices"@, 0, "delta"@, "content"@) {
            Some(content) => if content.len() > 0 {
                before.push(content)
            } else {
                before
            },
            None => before,
        }
    }
}

/// The pieces that are handed on are the contents of the events, in order and unchanged,
/// and the answer is these one after the other.
pub proof fn the_answer_is_what_the_events_hold(events: Seq<Seq<char>>)
    requires
        forall|i: int|
            #![trigger events[i]]
            0 <= i < events.len() ==> events[i].len() > 0 && !text::is_space(events[i].last())
                && !events[i].contains('\n') && events[i] != "[DONE]"@,
    ensures
        ({
            let end = AnswerView::nothing().received(stream_of(events));
            &&& end.pieces == contents_of(events)
            &&& end.answer == text::joined(contents_of(events), Seq::empty())
            &&& end.pending.len() == 0
            &&& !end.finished
        }),
    decreases events.len(),
{
    let nothing = AnswerView::nothing();
    let none = Seq::<char>::empty();
    if events.len() == 0 {
        assert(nothing.pending + none =~= nothing.pending);
        assert(nothing.drained() == nothing);
    } else {
        let front = events.drop_last();
        let last = events.last();
        assert(last == events[events.len() - 1]);
        assert forall|i: int|
            #![trigger front[i]]
            0 <= i < front.len() implies front[i].len() > 0 && !text::is_space(front[i].last())
            && !front[i].contains('\n') && front[i] != "[DONE]"@ by {
            assert(front[i] == events[i]);
        }
        the_answer_is_what_the_events_hold(front);
        let mid = nothing.received(stream_of(front));
        chunks_do_not_matter(nothing, stream_of(front), "data: "@ + last + "\n"@);
        events_add_their_content(mid, none, last, none);
        assert(none + ("data: "@ + last) + none + "\n"@ =~= "data: "@ + last + "\n"@);
        let had = contents_of(front);
        let now = contents_of(events);
        if now.len() > had.len() {
            assert(now.drop_last() =~= had);
            if had.len() > 0 {
                assert(text::joined(now, none) =~= text::joined(had, none) + now.last());
            } else {
                assert(none + now.last() =~= now.last());
            }
        }
    }
}

/// The transcript that the model reads has a line for each segment, in order: its shown
/// speaker and what was said.
pub proof fn the_model_reads_every_segment(segments: Seq<SegmentView>, lines: Seq<Seq<char>>)
    requires
        lines.len() == segments.len(),
        forall|i: int|
            0 <= i < segments.len() ==> #[trigger] lines[i] == export::shown_speaker(
                segments[i],
                "Speaker"@,
            ) + ": "@ + text::trimmed(segments[i].text),
    ensures
        transcript_of(segments) == text::joined(lines, "\n"@),
{
    assert(segments.map_values(|s: SegmentView| transcript_line(s)) =~= lines);
}

/// The end of a transcript is that of the segment that ends last, whatever their order.
pub proof fn the_last_to_end_counts(segments: Seq<SegmentView>)
    ensures
        latest_end(segments) >= 0,
        forall|i: int| 0 <= i < segments.len() ==> (#[trigger] segments[i]).end <= latest_end(segments),
        latest_end(segments) > 0 ==> exists|i: int|
            0 <= i < segments.len() && (#[trigger] segments[i]).end == latest_end(segments),
    decreases segments.len(),
{
    if segments.len() > 0 {
        let front = segments.drop_last();
        the_last_to_end_counts(front);
        assert forall|i: int| 0 <= i < segments.len() implies (#[trigger] segments[i]).end <= latest_end(
            segments,
        ) by {
            if i < front.len() {
                assert(front[i].end <= latest_end(front));
            }
        }
        if latest_end(segments) > 0 {
            if segments.last().end > latest_end(front) {
                assert(segments[segments.len() - 1].end == latest_end(segments));
            } else {
                let i = choose|i: int| 0 <= i < front.len() && (#[trigger] front[i]).end == latest_end(front);
                assert(segments[i].end == latest_end(segments));
            }
        }
    }
}

/// The answer may have two hundred tokens for each minute, to the nearest token, but no
/// fewer than 512 and no more than the cap.
pub proof fn tokens_go_by_the_minute(end_ms: int, cap: u32)
    requires
        end_ms >= 0,
    ensures
        token_budget(end_ms, cap) <= cap,
        cap >= 512 ==> token_budget(end_ms, cap) >= 512,
        cap < 512 ==> token_budget(end_ms, cap) == cap,
        512 < token_budget(end_ms, cap) < cap ==> {
            let twice_off = 2 * (token_budget(end_ms, cap) * 60_000 - 200 * end_ms);
            -60_000 < twice_off <= 60_000
        },
        200 * end_ms > 512 * 60_000 + 30_000 && 200 * end_ms < cap * 60_000 - 30_000
            ==> 512 < token_budget(end_ms, cap) < cap,
        200 * end_ms < 512 * 60_000 && cap >= 512 ==> token_budget(end_ms, cap) == 512,
        200 * end_ms >= cap * 60_000 ==> token_budget(end_ms, cap) == cap,
{
}

/// A line end of a carriage return and a line feed becomes a line feed; all other text
/// stays as it is.
pub proof fn line_ends_become_plain(a: Seq<char>, b: Seq<char>)
    ensures
        !a.contains('\r') ==> with_unix_lines(a) == a,
        with_unix_lines(a + seq!['\r', '\n'] + b) == with_unix_lines(a) + seq!['\n'] + with_unix_lines(b),
        b.len() == 0 || b[0] != '\n' ==> with_unix_lines(a + b) == with_unix_lines(a) + with_unix_lines(b),
{
    lemma_plain_lines(a);
    let crlf = seq!['\r', '\n'];
    let tail = crlf + b;
    assert(a + crlf + b =~= a + tail);
    lemma_lines_in_parts(a, tail);
    assert(tail.skip(2) =~= b);
    assert(with_unix_lines(tail) == seq!['\n'] + with_unix_lines(b));
    assert(with_unix_lines(a) + with_unix_lines(tail) =~= with_unix_lines(a) + seq!['\n']
        + with_unix_lines(b));
    if b.len() == 0 || b[0] != '\n' {
        lemma_lines_in_parts(a, b);
    }
}

proof fn lemma_plain_lines(a: Seq<char>)
    ensures
        !a.contains('\r') ==> with_unix_lines(a) == a,
    decreases a.len(),
{
    if a.len() > 0 && !a.contains('\r') {
        let rest = a.skip(1);
        assert(a[0] != '\r');
        assert(!rest.contains('\r')) by {
            if rest.contains('\r') {
                let k = choose|k: int| 0 <= k < rest.len() && rest[k] == '\r';
                assert(a[k + 1] == '\r');
            }
        }
        lemma_plain_lines(rest);
        assert(seq![a[0]] + rest =~= a);
    }
}

proof fn lemma_lines_in_parts(a: Seq<char>, b: Seq<char>)
    requires
        b.len() == 0 || b[0] != '\n',
    ensures
        with_unix_lines(a + b) == with_unix_lines(a) + with_unix_lines(b),
    decreases a.len(),
{
    let both = a + b;
    if a.len() == 0 {
        assert(both =~= b);
        assert(with_unix_lines(a) + with_unix_lines(b) =~= with_unix_lines(b));
    } else if a.len() >= 2 && a[0] == '\r' && a[1] == '\n' {
        lemma_lines_in_parts(a.skip(2), b);
        assert(both.skip(2) =~= a.skip(2) + b);
        assert(both[0] == '\r' && both[1] == '\n');
        assert(seq!['\n'] + (with_unix_lines(a.skip(2)) + with_unix_lines(b)) =~= seq!['\n']
            + with_unix_lines(a.skip(2)) + with_unix_lines(b));
    } else {
        lemma_lines_in_parts(a.skip(1), b);
        assert(both.skip(1) =~= a.skip(1) + b);
        assert(both[0] == a[0]);
        assert(!(both.len() >= 2 && both[0] == '\r' && both[1] == '\n')) by {
            if both.len() >= 2 {
                if a.len() >= 2 {
                    assert(both[1] == a[1]);
                } else {
                    assert(both[1] == b[0]);
                }
            }
        }
        assert(seq![a[0]] + (with_unix_lines(a.skip(1)) + with_unix_lines(b)) =~= seq![a[0]]
            + with_unix_lines(a.skip(1)) + with_unix_lines(b));
    }
}

/// The summary is what the answer holds after a block of thoughts at its start, without
/// the whitespace around it and with plain line ends. Text without any of these stays as
/// it is.
pub proof fn a_plain_answer_is_the_summary(answer: Seq<char>, thoughts: Seq<char>, before: Seq<char>, after: Seq<char>)
    requires
        answer.len() > 0,
        !text::is_space(answer[0]),
        !text::is_space(answer.last()),
        !answer.contains('\r'),
        forall|j: int| !(#[trigger] text::occurs_at(thoughts, "</think>"@, j)),
        forall|k: int| 0 <= k < before.len() ==> text::is_space(#[trigger] before[k]),
        forall|k: int| 0 <= k < after.len() ==> text::is_space(#[trigger] after[k]),
    ensures
        summary_of("<think>"@ + thoughts + "</think>"@ + (before + answer + after)) == answer,
        answer[0] != '<' ==> summary_of(before + answer + after) == answer,
{
    let rest = before + answer + after;
    reveal_strlit("<think>");
    only_leading_thoughts_are_left_out(thoughts, rest, rest);
    text::trimming_leaves_the_text(before, answer, after);
    lemma_trimmed_start_again(rest);
    line_ends_become_plain(answer, Seq::empty());
    if answer[0] != '<' {
        if text::occurs_at(rest, "<think>"@, 0) {
            assert(rest.subrange(0, 7)[0] == rest[0]);
            if before.len() > 0 {
                assert(rest[0] == before[0]);
            } else {
                assert(rest[0] == answer[0]);
            }
        }
    }
}

proof fn lemma_trimmed_start_again(s: Seq<char>)
    ensures
        text::trimmed(text::trimmed_start(s)) == text::trimmed(s),
    decreases s.len(),
{
    if s.len() > 0 && text::is_space(s[0]) {
        lemma_trimmed_start_again(s.drop_first());
    }
}

/// An answer is taken whenever it comes; only without one, and only in time, is the request
/// sent again.
pub proof fn requests_are_sent_until_they_are_answered(answered: bool, in_time: bool)
    ensures
        retry_step(answered, in_time) == RetryStep::Answered <==> answered,
        retry_step(answered, in_time) == RetryStep::Again <==> !answered && in_time,
        retry_step(answered, in_time) == RetryStep::GiveUp <==> !answered && !in_time,
{
}

/// The model is asked about the whole transcript, with the date in its instructions, and may
/// answer at a length that goes by the end of the transcript. It is asked whenever there is
/// anything to summarize.
pub proof fn the_whole_transcript_is_asked_about(
    segments: Seq<SegmentView>,
    lines: Seq<Seq<char>>,
    date: Seq<char>,
    cap: u32,
    end: int,
)
    requires
        lines.len() == segments.len() > 0,
        forall|i: int|
            0 <= i < segments.len() ==> #[trigger] lines[i] == export::shown_speaker(
                segments[i],
                "Speaker"@,
            ) + ": "@ + text::trimmed(segments[i].text),
        end >= 0,
        forall|i: int| 0 <= i < segments.len() ==> (#[trigger] segments[i]).end <= end,
        exists|i: int| 0 <= i < segments.len() && (#[trigger] segments[i]).end == end,
    ensures
        request_for(segments, date, cap) matches Some(r) && r.transcript == text::joined(lines, "\n"@)
            && r.system == prompt_head() + date + prompt_tail() && r.max_tokens == token_budget(end, cap),
        request_for(Seq::empty(), date, cap) is None,
{
    the_model_reads_every_segment(segments, lines);
    the_last_to_end_counts(segments);
}

} // verus!
