//! Handing a transcript out as a file.

use vstd::prelude::*;

use crate::export;
use crate::job::{self, Segment, SegmentView};
use crate::path;
use crate::routes::{self, ApiError, ApiErrorView};
use crate::state::{AppState, AppView};
use crate::text;

verus! {

/// A request for a transcript as a file.
pub struct ExportRequest {
    pub segments: Vec<Segment>,
    pub summary: Option<String>,
}

/// The forms in which a transcript is handed out.
#[derive(Debug, Clone, Copy, PartialEq, Eq, Structural)]
pub enum ExportFormat {
    Txt,
    Srt,
    Json,
}

/// The form that a request names.
pub open spec fn format_named(fmt: Seq<char>) -> Option<ExportFormat> {
    if fmt == "txt"@ {
        Some(ExportFormat::Txt)
    } else if fmt == "srt"@ {
        Some(ExportFormat::Srt)
    } else if fmt == "json"@ {
        Some(ExportFormat::Json)
    } else {
        None
    }
}

/// The form that a request names.
pub fn parse_format(fmt: &str) -> (out: Option<ExportFormat>)
    ensures
        out == format_named(fmt@),
{
    if text::same_text(fmt, "txt") {
        Some(ExportFormat::Txt)
    } else if text::same_text(fmt, "srt") {
        Some(ExportFormat::Srt)
    } else if text::same_text(fmt, "json") {
        Some(ExportFormat::Json)
    } else {
        None
    }
}

impl ExportFormat {
    /// The media type.
    pub open spec fn media(self) -> Seq<char> {
        match self {
            ExportFormat::Txt => "text/plain; charset=utf-8"@,
            ExportFormat::Srt => "text/srt; charset=utf-8"@,
            ExportFormat::Json => "application/json"@,
        }
    }

    /// The file extension with its dot.
    pub open spec fn suffix(self) -> Seq<char> {
        match self {
            ExportFormat::Txt => ".txt"@,
            ExportFormat::Srt => ".srt"@,
            ExportFormat::Json => ".json"@,
        }
    }

    /// The media type.
    pub fn media_type(self) -> (out: &'static str)
        ensures
            out@ == self.media(),
    {
        match self {
            ExportFormat::Txt => "text/plain; charset=utf-8",
            ExportFormat::Srt => "text/srt; charset=utf-8",
            ExportFormat::Json => "application/json",
        }
    }

    /// The file extension with its dot.
    pub fn extension(self) -> (out: &'static str)
        ensures
            out@ == self.suffix(),
    {
        match self {
            ExportFormat::Txt => ".txt",
            ExportFormat::Srt => ".srt",
            ExportFormat::Json => ".json",
        }
    }
}

/// A character that would end or break a quoted text in a header.
pub open spec fn breaks_quotes(c: char) -> bool {
    c == '"' || c == '\\' || c == '\r' || c == '\n'
}

/// A character as it is written in a quoted text.
pub open spec fn quotable(c: char) -> char {
    if breaks_quotes(c) {
        '_'
    } else {
        c
    }
}

/// The text with each character that would break a quoted text replaced.
pub fn quotable_text(s: &str) -> (out: String)
    ensures
        out@ == s@.map_values(|c: char| quotable(c)),
{
    let v = text::chars_of(s);
    let mut out: Vec<char> = Vec::new();
    let mut i: usize = 0;
    while i < v.len()
        invariant
            i <= v.len(),
            out.len() == i,
            forall|j: int| 0 <= j < i ==> out@[j] == quotable(#[trigger] v@[j]),
        decreases v.len() - i,
    {
        let c: char = v[i];
        if c == '"' || c == '\\' || c == '\r' || c == '\n' {
            out.push('_');
        } else {
            out.push(c);
        }
        i += 1;
    }
    assert(out@ =~= s@.map_values(|c: char| quotable(c)));
    text::string_of(&out)
}

/// The name of a file up to its last dot, fit for a quoted text; empty where a path
/// leads to no file name.
pub open spec fn base_name_of(file: Option<Seq<char>>) -> Seq<char> {
    match file {
        Some(name) => path::stem_of(name).map_values(|c: char| quotable(c)),
        None => Seq::empty(),
    }
}

/// The name of a file up to its last dot, fit for a quoted text.
pub fn base_name(file: Option<String>) -> (out: String)
    ensures
        out@ == base_name_of(text::opt_text(file)),
{
    match file {
        Some(name) => quotable_text(path::stem(name.as_str()).as_str()),
        None => {
            let out = String::new();
            assert(out@ =~= Seq::empty());
            out
        },
    }
}

/// The header that names the file.
pub open spec fn disposition(base: Seq<char>, format: ExportFormat) -> Seq<char> {
    "attachment; filename=\""@ + (base + format.suffix()) + "\""@
}

/// What the file holds.
pub enum ExportContent {
    Text(String),
    /// The segments of the request as JSON.
    Json(Vec<Segment>),
}

/// The values of what the file holds.
#[verifier::ext_equal]
pub enum ExportContentView {
    Text(Seq<char>),
    Json(Seq<SegmentView>),
}

impl View for ExportContent {
    type V = ExportContentView;

    open spec fn view(&self) -> ExportContentView {
        match self {
            ExportContent::Text(s) => ExportContentView::Text(s@),
            ExportContent::Json(segments) => ExportContentView::Json(job::segment_views(segments@)),
        }
    }
}

/// What the file holds in the given form.
pub open spec fn content_of(format: ExportFormat, segments: Seq<SegmentView>) -> ExportContentView {
    match format {
        ExportFormat::Txt => ExportContentView::Text(export::txt_of(segments)),
        ExportFormat::Srt => ExportContentView::Text(export::srt_of(segments)),
        ExportFormat::Json => ExportContentView::Json(segments),
    }
}

/// A transcript as a file.
pub struct ExportReply {
    pub content_disposition: String,
    pub media_type: &'static str,
    pub content: ExportContent,
}

/// Why a transcript is not handed out, if it is not.
pub open spec fn export_refusal(state: AppView, id: Seq<char>, fmt: Seq<char>) -> Option<ApiErrorView> {
    if !state.has_job(id) {
        Some(routes::no_such_job())
    } else if format_named(fmt) is None {
        Some(routes::refusal(400, "Unknown format: "@ + fmt))
    } else {
        None
    }
}

/// Hands out the segments of the request as a file that is named after the recording.
pub fn export(state: &AppState, job_id: &str, fmt: &str, req: ExportRequest) -> (out: Result<
    ExportReply,
    ApiError,
>)
    requires
        state.wf(),
    ensures
        match export_refusal(state@, job_id@, fmt@) {
            Some(e) => routes::is_refused(out, e),
            None => match out {
                Ok(reply) => {
                    let format = format_named(fmt@)->0;
                    let file = path::name_in_path(state@.jobs.jobs[job_id@].filename);
                    &&& forall|name: Seq<char>| #[trigger]
                        path::leads_to(state@.jobs.jobs[job_id@].filename, name) ==> file == Some(name)
                    &&& reply.content_disposition@ == disposition(base_name_of(file), format)
                    &&& reply.media_type@ == format.media()
                    &&& reply.content@ == content_of(format, job::segment_views(req.segments@))
                },
                Err(_) => false,
            },
        },
{
    let job = match state.jobs.get(job_id) {
        Some(j) => j,
        None => {
            return Err(routes::api_error(404, "Job not found"));
        },
    };
    let format = match parse_format(fmt) {
        Some(f) => f,
        None => {
            let mut message = "Unknown format: ".to_owned();
            message.append(fmt);
            return Err(ApiError { status: 400, message });
        },
    };
    let base = base_name(path::file_name(job.filename.as_str()));
    let mut content_disposition = "attachment; filename=\"".to_owned();
    let mut name = base;
    name.append(format.extension());
    content_disposition.append(name.as_str());
    content_disposition.append("\"");
    let content = match format {
        ExportFormat::Txt => ExportContent::Text(export::to_txt(req.segments.as_slice())),
        ExportFormat::Srt => ExportContent::Text(export::to_srt(req.segments.as_slice())),
        ExportFormat::Json => ExportContent::Json(req.segments),
    };
    Ok(ExportReply { content_disposition, media_type: format.media_type(), content })
}

/// Nothing in the name of the file ends the quoted text that it stands in.
pub proof fn names_stay_quoted(file: Option<Seq<char>>, i: int)
    requires
        0 <= i < base_name_of(file).len(),
    ensures
        !breaks_quotes(base_name_of(file)[i]),
{
}

/// A file name is shown as it is, but for the characters that would break its quotes, and
/// the file has the ending of its format.
pub proof fn downloads_are_named_after_the_upload(name: Seq<char>, i: int, format: ExportFormat, base: Seq<char>)
    ensures
        base_name_of(Some(name)).len() == path::stem_of(name).len(),
        0 <= i < path::stem_of(name).len() ==> {
            let c = path::stem_of(name)[i];
            base_name_of(Some(name))[i] == if c == '"' || c == '\\' || c == '\r' || c == '\n' {
                '_'
            } else {
                c
            }
        },
        base_name_of(None).len() == 0,
        disposition(base, format) == "attachment; filename=\""@ + base + format.suffix() + "\""@,
{
    assert(disposition(base, format) =~= "attachment; filename=\""@ + base + format.suffix() + "\""@);
}

/// The three formats by their names: plain text, subtitles and data, each with its ending
/// and its media type, and there are no others.
pub proof fn formats_have_names(fmt: Seq<char>, segments: Seq<SegmentView>)
    ensures
        fmt == "txt"@ ==> (format_named(fmt) matches Some(f) && f.suffix() == ".txt"@ && f.media()
            == "text/plain; charset=utf-8"@ && content_of(f, segments) == ExportContentView::Text(
            export::txt_of(segments),
        )),
        fmt == "srt"@ ==> (format_named(fmt) matches Some(f) && f.suffix() == ".srt"@ && f.media()
            == "text/srt; charset=utf-8"@ && content_of(f, segments) == ExportContentView::Text(
            export::srt_of(segments),
        )),
        fmt == "json"@ ==> (format_named(fmt) matches Some(f) && f.suffix() == ".json"@ && f.media()
            == "application/json"@ && content_of(f, segments) == ExportContentView::Json(segments)),
        fmt != "txt"@ && fmt != "srt"@ && fmt != "json"@ ==> format_named(fmt) is None,
{
    reveal_strlit("txt");
    reveal_strlit("srt");
    reveal_strlit("json");
    assert("txt"@[0] == 't' && "srt"@[0] == 's' && "json"@[0] == 'j');
}

/// A transcript is handed out exactly for a job that is there and a format that is known.
pub proof fn transcripts_are_handed_out_in_known_formats(state: AppView, id: Seq<char>, fmt: Seq<char>)
    ensures
        export_refusal(state, id, fmt) is None <==> state.has_job(id) && (fmt == "txt"@ || fmt == "srt"@
            || fmt == "json"@),
        !state.has_job(id) ==> (export_refusal(state, id, fmt) matches Some(e) && e.status == 404),
        state.has_job(id) && export_refusal(state, id, fmt) is Some ==> (export_refusal(
            state,
            id,
            fmt,
        ) matches Some(e) && e.status == 400),
{
}

} // verus!
