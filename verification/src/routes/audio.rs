//! Playing the recording back.

use vstd::prelude::*;

use crate::job::{self, JobView};
use crate::routes::{self, ApiError, ApiErrorView};
use crate::state::{AppState, AppView};
use crate::text;

verus! {

/// The media type of a recording by its file extension.
pub open spec fn mime_of(ext: Seq<char>) -> Seq<char> {
    if ext == ".mp3"@ {
        "audio/mpeg"@
    } else if ext == ".wav"@ {
        "audio/wav"@
    } else if ext == ".m4a"@ {
        "audio/mp4"@
    } else if ext == ".ogg"@ {
        "audio/ogg"@
    } else if ext == ".flac"@ {
        "audio/flac"@
    } else {
        "application/octet-stream"@
    }
}

/// The media type of a recording by its file extension.
pub fn mime(ext: &str) -> (out: String)
    ensures
        out@ == mime_of(ext@),
{
    if text::same_text(ext, ".mp3") {
        "audio/mpeg".to_owned()
    } else if text::same_text(ext, ".wav") {
        "audio/wav".to_owned()
    } else if text::same_text(ext, ".m4a") {
        "audio/mp4".to_owned()
    } else if text::same_text(ext, ".ogg") {
        "audio/ogg".to_owned()
    } else if text::same_text(ext, ".flac") {
        "audio/flac".to_owned()
    } else {
        "application/octet-stream".to_owned()
    }
}

/// A number that a range may name.
pub open spec fn position(s: Seq<char>) -> Option<nat> {
    match text::unsigned_value(s) {
        Some(n) if n <= u64::MAX => Some(n),
        _ => None,
    }
}

/// The first and last byte that a range asks for: `bytes=`, the first, a hyphen, and
/// the last, which may be left out. `None` where it is malformed, empty or reaches
/// beyond the end.
pub open spec fn range_of(s: Seq<char>, total: nat) -> Option<(nat, nat)> {
    match text::after_prefix(s, "bytes="@) {
        None => None,
        Some(rest) => match text::find_from(rest, seq!['-'], 0) {
            None => None,
            Some(i) => {
                let first = position(rest.take(i));
                let last = if rest.skip(i + 1).len() == 0 {
                    Some(if total > 0 { (total - 1) as nat } else { 0 })
                } else {
                    position(rest.skip(i + 1))
                };
                match (first, last) {
                    (Some(a), Some(b)) if a <= b && b < total => Some((a, b)),
                    _ => None,
                }
            },
        },
    }
}

/// The first and last byte that a range asks for.
pub fn parse_range(s: &str, total: u64) -> (out: Option<(u64, u64)>)
    ensures
        match out {
            Some(r) => range_of(s@, total as nat) == Some((r.0 as nat, r.1 as nat)) && r.0 <= r.1
                && r.1 < total,
            None => range_of(s@, total as nat) is None,
        },
{
    let rest = match text::strip_prefix_chars(&text::chars_of(s), &text::chars_of("bytes=")) {
        Some(rest) => rest,
        None => {
            return None;
        },
    };
    let mut hyphen: Vec<char> = Vec::new();
    hyphen.push('-');
    assert(hyphen@ =~= seq!['-']);
    let i: usize = match text::find_chars(&rest, &hyphen, 0) {
        Some(i) => i,
        None => {
            return None;
        },
    };
    proof {
        text::lemma_found(rest@, hyphen@, 0);
    }
    let front = text::slice_chars(&rest, 0, i);
    let back = text::slice_chars(&rest, i + 1, rest.len());
    assert(front@ =~= rest@.take(i as int));
    assert(back@ =~= rest@.skip(i + 1));
    let first: u64 = match text::parse_unsigned(&front, u64::MAX) {
        Some(n) => n,
        None => {
            return None;
        },
    };
    let last: u64 = if back.len() == 0 {
        if total > 0 {
            total - 1
        } else {
            0
        }
    } else {
        match text::parse_unsigned(&back, u64::MAX) {
            Some(n) => n,
            None => {
                return None;
            },
        }
    };
    if first <= last && last < total {
        Some((first, last))
    } else {
        None
    }
}

/// The recording, or a part of it. Its length is that of the body.
pub struct AudioReply {
    pub status: u16,
    pub mime: String,
    /// Which part it is, where it is one.
    pub content_range: Option<String>,
    pub body: Vec<u8>,
}

/// The values of an answer with a recording.
#[verifier::ext_equal]
pub struct AudioReplyView {
    pub status: u16,
    pub mime: Seq<char>,
    pub content_range: Option<Seq<char>>,
    pub body: Seq<u8>,
}

impl View for AudioReply {
    type V = AudioReplyView;

    open spec fn view(&self) -> AudioReplyView {
        AudioReplyView {
            status: self.status,
            mime: self.mime@,
            content_range: text::opt_text(self.content_range),
            body: self.body@,
        }
    }
}

impl AudioReply {
    /// In which unit a part of the recording can be asked for.
    pub fn accept_ranges(&self) -> (unit: &'static str)
        ensures
            unit@ == "bytes"@,
    {
        "bytes"
    }

    /// How many bytes are sent.
    pub fn content_length(&self) -> (bytes: usize)
        ensures
            bytes == self@.body.len(),
    {
        self.body.len()
    }
}

/// The text that names the bytes from `first` to `last` of `total`.
pub open spec fn range_text(first: nat, last: nat, total: nat) -> Seq<char> {
    "bytes "@ + text::decimal(first) + "-"@ + text::decimal(last) + "/"@ + text::decimal(total)
}

/// The part of the recording that a request asks for, or the whole of it.
pub open spec fn audio_reply(job: JobView, range: Option<Seq<char>>) -> AudioReplyView {
    let total = job.audio_data.len();
    let asked = match range {
        Some(s) => range_of(s, total),
        None => None,
    };
    match asked {
        Some((first, last)) => AudioReplyView {
            status: 206,
            mime: mime_of(job.audio_ext),
            content_range: Some(range_text(first, last, total)),
            body: job.audio_data.subrange(first as int, last as int + 1),
        },
        None => AudioReplyView {
            status: 200,
            mime: mime_of(job.audio_ext),
            content_range: None,
            body: job.audio_data,
        },
    }
}

/// Why there is no recording to play, if there is none.
pub open spec fn audio_refusal(state: AppView, id: Seq<char>) -> Option<ApiErrorView> {
    if !state.has_job(id) {
        Some(routes::no_such_job())
    } else if state.jobs.jobs[id].audio_data.len() == 0 {
        Some(routes::refusal(404, "Audio not available"@))
    } else {
        None
    }
}

/// The recording of a job, or the part of it that the range asks for.
pub fn audio(state: &AppState, job_id: &str, range: Option<&str>) -> (out: Result<AudioReply, ApiError>)
    requires
        state.wf(),
    ensures
        match audio_refusal(state@, job_id@) {
            Some(e) => routes::is_refused(out, e),
            None => match out {
                Ok(reply) => reply@ == audio_reply(
                    state@.jobs.jobs[job_id@],
                    match range {
                        Some(s) => Some(s@),
                        None => None,
                    },
                ),
                Err(_) => false,
            },
        },
{
    let job = match state.jobs.get(job_id) {
        Some(j) => j,
        None => {
            return Err(routes::api_error(404, "Job not found"));
        },
    };
    if job.audio_data.len() == 0 {
        return Err(routes::api_error(404, "Audio not available"));
    }
    let total: u64 = job.audio_data.len() as u64;
    let asked: Option<(u64, u64)> = match range {
        Some(s) => parse_range(s, total),
        None => None,
    };
    match asked {
        Some(r) => {
            let mut content_range = "bytes ".to_owned();
            content_range.append(text::decimal_text(r.0).as_str());
            content_range.append("-");
            content_range.append(text::decimal_text(r.1).as_str());
            content_range.append("/");
            content_range.append(text::decimal_text(total).as_str());
            Ok(
                AudioReply {
                    status: 206,
                    mime: mime(job.audio_ext.as_str()),
                    content_range: Some(content_range),
                    body: job::copy_bytes(&job.audio_data, r.0 as usize, r.1 as usize + 1),
                },
            )
        },
        None => {
            let body = job::copy_bytes(&job.audio_data, 0, job.audio_data.len());
            assert(body@ =~= job.audio_data@);
            Ok(
                AudioReply {
                    status: 200,
                    mime: mime(job.audio_ext.as_str()),
                    content_range: None,
                    body,
                },
            )
        },
    }
}

/// A part that is played lies within the recording, is not empty and is as long as the
/// range says.
pub proof fn parts_lie_within(s: Seq<char>, total: nat)
    ensures
        range_of(s, total) matches Some((first, last)) ==> first <= last < total,
{
}

/// A range that names its first byte and no last one asks for everything from that byte to
/// the last byte of the recording; one that names both asks for exactly these and what is
/// between them. What lies beyond the recording, or ends before it starts, asks for no
/// part. `first` and `last` are the digits of the two numbers.
pub proof fn ranges_ask_for_what_they_name(first: Seq<char>, last: Seq<char>, total: nat)
    requires
        first.len() > 0,
        forall|i: int| 0 <= i < first.len() ==> '0' <= (#[trigger] first[i]) <= '9',
        last.len() > 0,
        forall|i: int| 0 <= i < last.len() ==> '0' <= (#[trigger] last[i]) <= '9',
        total <= u64::MAX,
    ensures
        ({
            let a = text::digits_value(first);
            let b = text::digits_value(last);
            &&& a < total ==> range_of("bytes="@ + first + "-"@, total) == Some((a, (total - 1) as nat))
            &&& a >= total ==> range_of("bytes="@ + first + "-"@, total) is None
            &&& a <= b < total ==> range_of("bytes="@ + first + "-"@ + last, total) == Some((a, b))
            &&& !(a <= b < total) ==> range_of("bytes="@ + first + "-"@ + last, total) is None
        }),
{
    lemma_range_parts(first, Seq::empty());
    lemma_range_parts(first, last);
    assert("bytes="@ + first + "-"@ + Seq::<char>::empty() =~= "bytes="@ + first + "-"@);
    lemma_digits_position(first);
    lemma_digits_position(last);
}

/// A range without its unit or without a hyphen asks for no part.
pub proof fn malformed_ranges_ask_for_nothing(s: Seq<char>, total: nat)
    ensures
        !(s.len() >= 6 && s.take(6) == "bytes="@) ==> range_of(s, total) is None,
        !s.contains('-') ==> range_of(s, total) is None,
{
    reveal_strlit("bytes=");
    if text::occurs_at(s, "bytes="@, 0) {
        assert(s.take(6) =~= s.subrange(0, 6));
        let rest = s.skip(6);
        if text::find_from(rest, seq!['-'], 0) is Some {
            text::lemma_found(rest, seq!['-'], 0);
            let i = text::find_from(rest, seq!['-'], 0)->0;
            assert(rest.subrange(i, i + 1)[0] == '-');
            assert(s[i + 6] == '-');
        }
    }
}

proof fn lemma_digits_position(s: Seq<char>)
    requires
        s.len() > 0,
        forall|i: int| 0 <= i < s.len() ==> '0' <= (#[trigger] s[i]) <= '9',
    ensures
        position(s) == if text::digits_value(s) <= u64::MAX {
            Some(text::digits_value(s))
        } else {
            None
        },
{
    assert(s[0] != '+');
    assert(text::unsigned_digits(s) == s);
    assert forall|i: int| 0 <= i < s.len() implies text::is_digit(#[trigger] s[i]) by {}
}

proof fn lemma_range_parts(first: Seq<char>, last: Seq<char>)
    requires
        forall|i: int| 0 <= i < first.len() ==> '0' <= (#[trigger] first[i]) <= '9',
    ensures
        ({
            let s = "bytes="@ + first + "-"@ + last;
            let rest = first + "-"@ + last;
            &&& text::after_prefix(s, "bytes="@) == Some(rest)
            &&& text::find_from(rest, seq!['-'], 0) == Some(first.len() as int)
            &&& rest.take(first.len() as int) == first
            &&& rest.skip(first.len() as int + 1) == last
        }),
{
    reveal_strlit("bytes=");
    reveal_strlit("-");
    let s = "bytes="@ + first + "-"@ + last;
    let rest = first + "-"@ + last;
    let hyphen = seq!['-'];
    let n = first.len() as int;
    assert(s.subrange(0, 6) =~= "bytes="@);
    assert(s.skip(6) =~= rest);
    assert(rest.subrange(n, n + 1) =~= hyphen);
    assert forall|j: int| 0 <= j < n implies !(#[trigger] text::occurs_at(rest, hyphen, j)) by {
        if text::occurs_at(rest, hyphen, j) {
            assert(rest.subrange(j, j + 1)[0] == first[j]);
        }
    }
    text::lemma_first_at(rest, hyphen, 0, n);
    assert(rest.take(n) =~= first);
    assert(rest.skip(n + 1) =~= last);
}

/// What is played is the part of the recording that was asked for, byte by byte, or the
/// whole recording where no part was asked for, and the reply names the part.
pub proof fn the_part_asked_for_is_played(job: JobView, range: Option<Seq<char>>)
    ensures
        ({
            let data = job.audio_data;
            let reply = audio_reply(job, range);
            match range {
                Some(s) => match range_of(s, data.len()) {
                    Some((a, b)) => {
                        &&& reply.status == 206
                        &&& reply.body.len() == b - a + 1
                        &&& forall|i: int|
                            0 <= i < reply.body.len() ==> #[trigger] reply.body[i] == data[a + i]
                        &&& reply.content_range == Some(
                            "bytes "@ + text::decimal(a) + "-"@ + text::decimal(b) + "/"@
                                + text::decimal(data.len()),
                        )
                    },
                    None => reply.status == 200 && reply.body == data && reply.content_range is None,
                },
                None => reply.status == 200 && reply.body == data && reply.content_range is None,
            }
        }),
        audio_reply(job, range).mime == mime_of(job.audio_ext),
{
}

/// There is a recording to play exactly if there is such a job and it has one.
pub proof fn recordings_are_played_where_there_is_one(state: AppView, id: Seq<char>)
    ensures
        audio_refusal(state, id) is None <==> state.has_job(id) && state.jobs.jobs[id].audio_data.len()
            > 0,
        audio_refusal(state, id) matches Some(e) ==> e.status == 404,
{
}

} // verus!
