//! Taking in a recording.

use vstd::prelude::*;

use crate::ids;
use crate::job::{JobStatus, JobView};
use crate::path;
use crate::routes::{self, ApiError, ApiErrorView};
use crate::state::{AppState, AppView};
use crate::text;

verus! {

/// The file extensions that are taken, in lower case.
pub open spec fn is_allowed_extension(ext: Seq<char>) -> bool {
    ext == ".mp3"@ || ext == ".wav"@ || ext == ".m4a"@ || ext == ".ogg"@ || ext == ".flac"@
}

/// Whether recordings with the extension are taken.
pub fn allowed_extension(ext: &str) -> (yes: bool)
    ensures
        yes == is_allowed_extension(ext@),
{
    text::same_text(ext, ".mp3") || text::same_text(ext, ".wav") || text::same_text(ext, ".m4a")
        || text::same_text(ext, ".ogg") || text::same_text(ext, ".flac")
}

/// The refusal of a recording with the given extension.
pub open spec fn unsupported(ext: Seq<char>) -> ApiErrorView {
    routes::refusal(400, "Unsupported file type: "@ + ext)
}

/// Takes an extension or refuses it.
pub fn check_extension(ext: String) -> (out: Result<String, ApiError>)
    ensures
        if is_allowed_extension(ext@) {
            out == Ok::<String, ApiError>(ext)
        } else {
            routes::is_refused(out, unsupported(ext@))
        },
{
    if allowed_extension(ext.as_str()) {
        Ok(ext)
    } else {
        let mut message = "Unsupported file type: ".to_owned();
        message.append(ext.as_str());
        Err(ApiError { status: 400, message })
    }
}

/// The extension of an uploaded file: a dot and what follows the last dot of its name,
/// in lower case; nothing where the name has no extension.
pub open spec fn upload_extension(filename: Seq<char>) -> Seq<char> {
    match path::name_in_path(filename) {
        Some(name) => match path::extension_of(name) {
            Some(ext) => "."@ + path::lowercase(ext),
            None => Seq::empty(),
        },
        None => Seq::empty(),
    }
}

/// The extension of a file with a plain name of ASCII characters.
pub open spec fn plain_extension(name: Seq<char>) -> Seq<char> {
    match path::extension_of(name) {
        Some(ext) => "."@ + ext.map_values(|c: char| path::ascii_lower(c)),
        None => Seq::empty(),
    }
}

/// A plain name of ASCII characters.
pub open spec fn is_ascii_name(name: Seq<char>) -> bool {
    path::is_plain_name(name) && forall|i: int| 0 <= i < name.len() ==> (#[trigger] name[i]) as u32 <= 127
}

/// The extension under which an uploaded file is taken, or its refusal.
pub fn accept_file(filename: &str) -> (out: Result<String, ApiError>)
    ensures
        is_ascii_name(filename@) ==> upload_extension(filename@) == plain_extension(filename@),
        if is_allowed_extension(upload_extension(filename@)) {
            out matches Ok(ext) && ext@ == upload_extension(filename@)
        } else {
            routes::is_refused(out, unsupported(upload_extension(filename@)))
        },
{
    let mut ext = String::new();
    assert(path::is_plain_name(filename@) ==> path::leads_to(filename@, filename@));
    if let Some(name) = path::file_name(filename) {
        if let Some(e) = path::extension(name.as_str()) {
            ext.append(".");
            ext.append(path::to_lowercase(e.as_str()).as_str());
            proof {
                path::a_name_is_stem_and_extension(name@);
                if is_ascii_name(filename@) {
                    let stem = path::stem_of(name@);
                    assert forall|i: int| 0 <= i < e@.len() implies (#[trigger] e@[i]) as u32 <= 127 by {
                        assert(e@[i] == filename@[stem.len() + 1 + i]);
                    }
                }
            }
        }
    }
    assert(ext@ =~= upload_extension(filename@));
    check_extension(ext)
}

/// The refusal of an upload without a file.
pub fn no_file() -> (error: ApiError)
    ensures
        error@ == routes::refusal(400, "no file field"@),
{
    routes::api_error(400, "no file field")
}

/// The name of an uploaded file: the one that was sent with it, or `upload`.
pub fn upload_name(sent: Option<String>) -> (name: String)
    ensures
        name@ == match sent {
            Some(s) => s@,
            None => "upload"@,
        },
{
    match sent {
        Some(s) => s,
        None => "upload".to_owned(),
    }
}

/// The answer to an upload.
pub struct UploadReply {
    pub job_id: String,
    pub filename: String,
    pub size: usize,
}

impl AppView {
    /// The state with a new job for a recording.
    pub open spec fn with_upload(
        self,
        id: Seq<char>,
        filename: Seq<char>,
        ext: Seq<char>,
        data: Seq<u8>,
    ) -> AppView {
        let job = JobView::fresh(id, filename, "small"@);
        AppView {
            jobs: self.jobs.inserted(id, JobView { audio_data: data, audio_ext: ext, ..job }),
            ..self
        }
    }
}

/// Takes in a recording whose extension was accepted: it becomes a new job.
pub fn store_upload(state: &mut AppState, filename: String, ext: String, data: Vec<u8>) -> (reply: UploadReply)
    requires
        old(state).wf(),
    ensures
        final(state).wf(),
        ids::is_plain_id(reply.job_id@),
        reply.filename@ == filename@,
        reply.size == data@.len(),
        final(state)@ == old(state)@.with_upload(reply.job_id@, filename@, ext@, data@),
{
    let ghost before = state@;
    let ghost bytes = data@;
    let size: usize = data.len();
    let job_id = state.jobs.insert(filename.clone(), "small".to_owned());
    let ghost fresh = JobView::fresh(job_id@, filename@, "small"@);
    assert(state.jobs@ == before.jobs.inserted(job_id@, fresh));
    if let Some(j) = state.jobs.get_mut(job_id.as_str()) {
        j.audio_data = data;
        j.audio_ext = ext;
        j.status = JobStatus::Uploaded;
        assert(j@ =~= (JobView { audio_data: bytes, audio_ext: ext@, ..fresh }));
    }
    assert(state.jobs@ =~= before.with_upload(job_id@, filename@, ext@, bytes).jobs);
    assert(state@ =~= before.with_upload(job_id@, filename@, ext@, bytes));
    UploadReply { job_id, filename, size }
}

/// Takes in a recording under the name that was sent with it, or refuses it.
pub fn upload(state: &mut AppState, sent: Option<String>, data: Vec<u8>) -> (out: Result<
    UploadReply,
    ApiError,
>)
    requires
        old(state).wf(),
    ensures
        final(state).wf(),
        ({
            let filename = match sent {
                Some(s) => s@,
                None => "upload"@,
            };
            let ext = upload_extension(filename);
            if is_allowed_extension(ext) {
                match out {
                    Ok(reply) => {
                        &&& ids::is_plain_id(reply.job_id@)
                        &&& reply.filename@ == filename
                        &&& reply.size == data@.len()
                        &&& final(state)@ == old(state)@.with_upload(
                            reply.job_id@,
                            filename,
                            ext,
                            data@,
                        )
                    },
                    Err(_) => false,
                }
            } else {
                routes::is_refused(out, unsupported(ext)) && final(state)@ == old(state)@
            }
        }),
{
    let filename = upload_name(sent);
    match accept_file(filename.as_str()) {
        Ok(ext) => Ok(store_upload(state, filename, ext, data)),
        Err(e) => Err(e),
    }
}

/// A recording that was taken in is found under the identifier that was given out, as
/// it was sent, with nothing made of it yet.
pub proof fn an_upload_is_found(
    state: AppView,
    id: Seq<char>,
    filename: Seq<char>,
    ext: Seq<char>,
    data: Seq<u8>,
)
    ensures
        ({
            let next = state.with_upload(id, filename, ext, data);
            &&& next.has_job(id)
            &&& next.jobs.jobs[id].audio_data == data
            &&& next.jobs.jobs[id].audio_ext == ext
            &&& next.jobs.jobs[id].filename == filename
            &&& next.jobs.jobs[id].status == JobStatus::Uploaded
            &&& next.jobs.jobs[id].segments.len() == 0
        }),
{
}

/// The extension of a file decides by its letters, in upper or in lower case: a name with a
/// stem and a dot has what follows its last dot, in lower case, and a name without one has
/// none.
pub proof fn extensions_are_in_lower_case(stem: Seq<char>, ext: Seq<char>, i: int)
    requires
        !ext.contains('.'),
    ensures
        stem.len() > 0 ==> {
            let e = plain_extension(stem + seq!['.'] + ext);
            &&& e.len() == ext.len() + 1
            &&& e[0] == '.'
            &&& 0 <= i < ext.len() ==> e[i + 1] == path::ascii_lower(ext[i])
        },
        plain_extension(ext).len() == 0,
{
    reveal_strlit(".");
    path::the_last_dot_parts_a_name(stem, ext);
}

/// What may be uploaded can be played as sound, and nothing else can.
pub proof fn uploads_can_be_played(ext: Seq<char>)
    ensures
        is_allowed_extension(ext) <==> routes::audio::mime_of(ext).take(6) == "audio/"@,
        is_allowed_extension(".mp3"@) && is_allowed_extension(".wav"@) && is_allowed_extension(".m4a"@)
            && is_allowed_extension(".ogg"@) && is_allowed_extension(".flac"@),
{
    reveal_strlit("audio/");
    reveal_strlit("audio/mpeg");
    reveal_strlit("audio/wav");
    reveal_strlit("audio/mp4");
    reveal_strlit("audio/ogg");
    reveal_strlit("audio/flac");
    reveal_strlit("application/octet-stream");
    let m = routes::audio::mime_of(ext);
    if is_allowed_extension(ext) {
        assert(m.take(6) =~= "audio/"@);
    } else {
        assert(m.take(6)[1] == 'p');
    }
}

/// An upload leaves the slot, the sessions and the settings as they are.
pub proof fn an_upload_adds_a_job_only(
    state: AppView,
    id: Seq<char>,
    filename: Seq<char>,
    ext: Seq<char>,
    data: Seq<u8>,
)
    ensures
        state.with_upload(id, filename, ext, data).slot_free == state.slot_free,
        state.with_upload(id, filename, ext, data).auth == state.auth,
        state.with_upload(id, filename, ext, data).llama_port == state.llama_port,
        state.with_upload(id, filename, ext, data).summary_tokens == state.summary_tokens,
        state.with_upload(id, filename, ext, data).jobs.order.last() == id,
        state.with_upload(id, filename, ext, data).jobs.jobs[id].model_name == "small"@,
        state.with_upload(id, filename, ext, data).jobs.jobs[id].job_id == id,
{
}

} // verus!
