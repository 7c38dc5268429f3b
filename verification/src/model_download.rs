//! Fetching the models that the service needs.

use vstd::prelude::*;

use crate::models_dir::{ModelsDir, Platform};
use crate::path;
use crate::text;

verus! {

/// The name of the ONNX Runtime library.
pub open spec fn dylib_name(platform: Platform) -> Seq<char> {
    match platform {
        Platform::Windows => "onnxruntime.dll"@,
        _ => "libonnxruntime.so"@,
    }
}

/// The name of the ONNX Runtime library.
pub fn dylib_file(platform: Platform) -> (name: &'static str)
    ensures
        name@ == dylib_name(platform),
{
    match platform {
        Platform::Windows => "onnxruntime.dll",
        _ => "libonnxruntime.so",
    }
}

/// The path of the ONNX Runtime library.
pub fn ort_dylib_path(models_dir: &ModelsDir) -> (path: String)
    ensures
        path@ == models_dir.path_of(dylib_name(models_dir.platform)),
{
    models_dir.join(dylib_file(models_dir.platform))
}

/// The path of the language model.
pub fn llamafile_path(models_dir: &ModelsDir) -> (path: String)
    ensures
        path@ == models_dir.path_of("llamafile"@),
{
    models_dir.join("llamafile")
}

/// The kinds of archive that a file may come in.
#[derive(Debug, Clone, Copy, PartialEq, Eq, Structural)]
pub enum Archive {
    TarBz2,
    TarGz,
    Zip,
}

/// A file to fetch: where it comes from, and what in the archive it is, if it comes in
/// one.
pub struct Download {
    pub name: String,
    pub dest: String,
    pub url: String,
    pub inner: Option<String>,
    pub archive: Option<Archive>,
}

/// The values of a file to fetch.
#[verifier::ext_equal]
pub struct DownloadView {
    pub name: Seq<char>,
    pub dest: Seq<char>,
    pub url: Seq<char>,
    pub inner: Option<Seq<char>>,
    pub archive: Option<Archive>,
}

impl View for Download {
    type V = DownloadView;

    open spec fn view(&self) -> DownloadView {
        DownloadView {
            name: self.name@,
            dest: self.dest@,
            url: self.url@,
            inner: text::opt_text(self.inner),
            archive: self.archive,
        }
    }
}

/// The values of a list of files to fetch.
pub open spec fn download_views(list: Seq<Download>) -> Seq<DownloadView> {
    list.map_values(|d: Download| d@)
}

/// A file that comes as it is.
pub open spec fn plain_file(models: &ModelsDir, name: Seq<char>, url: Seq<char>) -> DownloadView {
    DownloadView { name, dest: models.path_of(name), url, inner: None, archive: None }
}

/// A file that comes in an archive.
pub open spec fn packed_file(
    models: &ModelsDir,
    name: Seq<char>,
    url: Seq<char>,
    inner: Seq<char>,
    archive: Archive,
) -> DownloadView {
    DownloadView {
        name,
        dest: models.path_of(name),
        url,
        inner: Some(inner),
        archive: Some(archive),
    }
}

/// The speech model.
pub open spec fn speech_model(models: &ModelsDir) -> DownloadView {
    plain_file(
        models,
        "ggml-small-q8_0.bin"@,
        "https://huggingface.co/ggerganov/whisper.cpp/resolve/main/ggml-small-q8_0.bin"@,
    )
}

/// The segmentation model.
pub open spec fn segmentation_model(models: &ModelsDir) -> DownloadView {
    packed_file(
        models,
        "sherpa-onnx-pyannote-seg.onnx"@,
        "https://github.com/k2-fsa/sherpa-onnx/releases/download/speaker-segmentation-models/sherpa-onnx-pyannote-segmentation-3-0.tar.bz2"@,
        "model.onnx"@,
        Archive::TarBz2,
    )
}

/// The embedding model.
pub open spec fn embedding_model(models: &ModelsDir) -> DownloadView {
    plain_file(
        models,
        "3dspeaker_speech_eres2netv2_sv_zh-cn_16k-common.onnx"@,
        "https://github.com/k2-fsa/sherpa-onnx/releases/download/speaker-recongition-models/3dspeaker_speech_eres2netv2_sv_zh-cn_16k-common.onnx"@,
    )
}

/// The ONNX Runtime library.
pub open spec fn runtime_library(models: &ModelsDir) -> DownloadView {
    match models.platform {
        Platform::Windows => packed_file(
            models,
            "onnxruntime.dll"@,
            "https://github.com/microsoft/onnxruntime/releases/download/v1.24.2/onnxruntime-win-x64-1.24.2.zip"@,
            "onnxruntime-win-x64-1.24.2/lib/onnxruntime.dll"@,
            Archive::Zip,
        ),
        _ => packed_file(
            models,
            "libonnxruntime.so"@,
            "https://github.com/microsoft/onnxruntime/releases/download/v1.24.2/onnxruntime-linux-x64-1.24.2.tgz"@,
            "onnxruntime-linux-x64-1.24.2/lib/libonnxruntime.so.1.24.2"@,
            Archive::TarGz,
        ),
    }
}

/// The files that the service needs, in the order in which they are fetched.
pub open spec fn required_files(models: &ModelsDir) -> Seq<DownloadView> {
    seq![
        speech_model(models),
        segmentation_model(models),
        embedding_model(models),
        runtime_library(models),
    ]
}

/// The files of a list that are not there, in their order.
pub open spec fn missing(models: &ModelsDir, list: Seq<DownloadView>) -> Seq<DownloadView>
    decreases list.len(),
{
    if list.len() == 0 {
        Seq::empty()
    } else {
        let before = missing(models, list.drop_last());
        if models.holds(list.last().name) {
            before
        } else {
            before.push(list.last())
        }
    }
}

fn needed(models: &ModelsDir, name: &str, url: &str, inner: Option<&str>, archive: Option<Archive>) -> (out: Download)
    ensures
        out@ == (DownloadView {
            name: name@,
            dest: models.path_of(name@),
            url: url@,
            inner: match inner {
                Some(s) => Some(s@),
                None => None,
            },
            archive,
        }),
{
    Download {
        name: name.to_owned(),
        dest: models.join(name),
        url: url.to_owned(),
        inner: match inner {
            Some(s) => Some(s.to_owned()),
            None => None,
        },
        archive,
    }
}

fn required(models: &ModelsDir) -> (out: Vec<Download>)
    ensures
        download_views(out@) == required_files(models),
{
    let mut out: Vec<Download> = Vec::new();
    out.push(
        needed(
            models,
            "ggml-small-q8_0.bin",
            "https://huggingface.co/ggerganov/whisper.cpp/resolve/main/ggml-small-q8_0.bin",
            None,
            None,
        ),
    );
    out.push(
        needed(
            models,
            "sherpa-onnx-pyannote-seg.onnx",
            "https://github.com/k2-fsa/sherpa-onnx/releases/download/speaker-segmentation-models/sherpa-onnx-pyannote-segmentation-3-0.tar.bz2",
            Some("model.onnx"),
            Some(Archive::TarBz2),
        ),
    );
    out.push(
        needed(
            models,
            "3dspeaker_speech_eres2netv2_sv_zh-cn_16k-common.onnx",
            "https://github.com/k2-fsa/sherpa-onnx/releases/download/speaker-recongition-models/3dspeaker_speech_eres2netv2_sv_zh-cn_16k-common.onnx",
            None,
            None,
        ),
    );
    match models.platform {
        Platform::Windows => {
            out.push(
                needed(
                    models,
                    "onnxruntime.dll",
                    "https://github.com/microsoft/onnxruntime/releases/download/v1.24.2/onnxruntime-win-x64-1.24.2.zip",
                    Some("onnxruntime-win-x64-1.24.2/lib/onnxruntime.dll"),
                    Some(Archive::Zip),
                ),
            );
        },
        _ => {
            out.push(
                needed(
                    models,
                    "libonnxruntime.so",
                    "https://github.com/microsoft/onnxruntime/releases/download/v1.24.2/onnxruntime-linux-x64-1.24.2.tgz",
                    Some("onnxruntime-linux-x64-1.24.2/lib/libonnxruntime.so.1.24.2"),
                    Some(Archive::TarGz),
                ),
            );
        },
    }
    assert(download_views(out@) =~= required_files(models));
    out
}

fn clone_download(d: &Download) -> (out: Download)
    ensures
        out@ == d@,
{
    Download {
        name: d.name.clone(),
        dest: d.dest.clone(),
        url: d.url.clone(),
        inner: text::clone_opt(&d.inner),
        archive: d.archive,
    }
}

/// The files that have to be fetched: those that the service needs and that are not
/// there.
pub fn plan_downloads(models: &ModelsDir) -> (out: Vec<Download>)
    ensures
        download_views(out@) == missing(models, required_files(models)),
{
    let list = required(models);
    let ghost v = download_views(list@);
    let mut out: Vec<Download> = Vec::new();
    let mut i: usize = 0;
    assert(v.take(0) =~= Seq::empty());
    assert(download_views(out@) =~= missing(models, v.take(0)));
    while i < list.len()
        invariant
            i <= list.len(),
            v == download_views(list@),
            download_views(out@) == missing(models, v.take(i as int)),
        decreases list.len() - i,
    {
        let ghost had = download_views(out@);
        assert(v.take(i + 1).drop_last() =~= v.take(i as int));
        assert(v.take(i + 1).last() == list@[i as int]@);
        if !models.has(list[i].name.as_str()) {
            let d = clone_download(&list[i]);
            out.push(d);
            assert(download_views(out@) =~= had.push(list@[i as int]@));
        }
        i += 1;
    }
    assert(v.take(i as int) =~= v);
    out
}

/// How a file is fetched.
pub enum Fetch {
    /// It is written where it belongs.
    Direct,
    /// An archive is written to this path, and the file is taken out of it.
    Unpack { tmp: String, inner: String, archive: Archive },
}

/// The values of how a file is fetched.
#[verifier::ext_equal]
pub enum FetchView {
    Direct,
    Unpack { tmp: Seq<char>, inner: Seq<char>, archive: Archive },
}

impl View for Fetch {
    type V = FetchView;

    open spec fn view(&self) -> FetchView {
        match self {
            Fetch::Direct => FetchView::Direct,
            Fetch::Unpack { tmp, inner, archive } => FetchView::Unpack {
                tmp: tmp@,
                inner: inner@,
                archive: *archive,
            },
        }
    }
}

/// The name under which an archive is kept while it is unpacked.
pub open spec fn archive_name(archive: Archive) -> Seq<char> {
    match archive {
        Archive::TarBz2 => "_dl.tar.bz2"@,
        Archive::TarGz => "_dl.tar.gz"@,
        Archive::Zip => "_dl.zip"@,
    }
}

/// How a file is fetched. An archive in which no file is named is an error.
pub open spec fn fetch_of(models: &ModelsDir, d: DownloadView) -> Result<FetchView, Seq<char>> {
    match d.archive {
        None => Ok(FetchView::Direct),
        Some(archive) => match d.inner {
            Some(inner) => Ok(
                FetchView::Unpack {
                    tmp: models.path_of(archive_name(archive)),
                    inner,
                    archive,
                },
            ),
            None => Err("invalid download config"@),
        },
    }
}

/// How a file is fetched.
pub fn fetch_plan(models: &ModelsDir, d: &Download) -> (out: Result<Fetch, String>)
    ensures
        match out {
            Ok(f) => fetch_of(models, d@) == Ok::<FetchView, Seq<char>>(f@),
            Err(message) => fetch_of(models, d@) == Err::<FetchView, Seq<char>>(message@),
        },
{
    match d.archive {
        None => Ok(Fetch::Direct),
        Some(archive) => match &d.inner {
            Some(inner) => {
                let tmp = match archive {
                    Archive::TarBz2 => models.join("_dl.tar.bz2"),
                    Archive::TarGz => models.join("_dl.tar.gz"),
                    Archive::Zip => models.join("_dl.zip"),
                };
                Ok(Fetch::Unpack { tmp, inner: inner.clone(), archive })
            },
            None => Err("invalid download config".to_owned()),
        },
    }
}

// ── Archives ────────────────────────────────────────────────────────────────

/// The name by which a file is looked for in an archive: the last part of its path.
pub open spec fn inner_name_of(inner: Seq<char>) -> Seq<char> {
    match path::name_in_path(inner) {
        Some(name) => name,
        None => inner,
    }
}

/// The name by which a file is looked for in an archive: the last part of its path.
pub fn inner_name(inner: &str) -> (out: String)
    ensures
        out@ == inner_name_of(inner@),
        forall|name: Seq<char>| #[trigger] path::leads_to(inner@, name) ==> out@ == name,
{
    match path::file_name(inner) {
        Some(name) => name,
        None => inner.to_owned(),
    }
}

/// Whether an entry of a tar archive is the file that is looked for: the last part of
/// its path is the name.
pub fn tar_entry_matches(entry: &str, name: &str) -> (yes: bool)
    ensures
        yes == (path::name_in_path(entry@) == Some(name@)),
        path::leads_to(entry@, name@) ==> yes,
{
    match path::file_name(entry) {
        Some(n) => text::same_text(n.as_str(), name),
        None => false,
    }
}

/// Whether an entry of a zip archive is the file that is looked for: its path ends in
/// the name.
pub fn zip_entry_matches(entry: &str, name: &str) -> (yes: bool)
    ensures
        yes == text::occurs_at(entry@, name@, entry@.len() - name@.len()),
{
    let e = text::chars_of(entry);
    let n = text::chars_of(name);
    n.len() <= e.len() && text::stands_at(&e, &n, e.len() - n.len())
}

/// The error for an archive without the file that is looked for.
pub open spec fn not_in_archive(name: Seq<char>, archive: Archive) -> Seq<char> {
    match archive {
        Archive::Zip => "'"@ + name + "' not found in zip"@,
        _ => "'"@ + name + "' not found in archive"@,
    }
}

/// The error for an archive without the file that is looked for.
pub fn not_found_message(name: &str, archive: Archive) -> (message: String)
    ensures
        message@ == not_in_archive(name@, archive),
{
    let mut message = "'".to_owned();
    message.append(name);
    match archive {
        Archive::Zip => {
            message.append("' not found in zip");
        },
        _ => {
            message.append("' not found in archive");
        },
    }
    message
}

// ── Laws ────────────────────────────────────────────────────────────────────

proof fn lemma_missing(models: &ModelsDir, list: Seq<DownloadView>, d: DownloadView)
    ensures
        missing(models, list).contains(d) <==> list.contains(d) && !models.holds(d.name),
    decreases list.len(),
{
    if list.len() > 0 {
        let front = list.drop_last();
        let before = missing(models, front);
        lemma_missing(models, front, d);
        assert(list =~= front.push(list.last()));
        assert(list.contains(d) <==> front.contains(d) || d == list.last()) by {
            if front.contains(d) {
                let k = choose|k: int| 0 <= k < front.len() && front[k] == d;
                assert(list[k] == d);
            }
            if d == list.last() {
                assert(list[list.len() - 1] == d);
            }
        }
        let after = before.push(list.last());
        assert(after.contains(d) <==> before.contains(d) || d == list.last()) by {
            if before.contains(d) {
                let k = choose|k: int| 0 <= k < before.len() && before[k] == d;
                assert(after[k] == d);
            }
            if d == list.last() {
                assert(after[before.len() as int] == d);
            }
        }
    }
}

/// A file is fetched exactly if the service needs it and it is not there.
pub proof fn what_is_there_is_not_fetched(models: &ModelsDir, d: DownloadView)
    ensures
        missing(models, required_files(models)).contains(d) <==> {
            &&& required_files(models).contains(d)
            &&& !models.holds(d.name)
        },
{
    lemma_missing(models, required_files(models), d);
}

/// Every file that the service needs can be fetched: none of them is an error.
pub proof fn required_files_can_be_fetched(models: &ModelsDir, i: int)
    requires
        0 <= i < required_files(models).len(),
    ensures
        fetch_of(models, required_files(models)[i]) is Ok,
{
}

/// The files that are fetched are all that telling speakers apart needs, and the library
/// that it runs on; and each is put where it is looked for.
pub proof fn the_required_files_are_enough(models: &ModelsDir, i: int)
    ensures
        (forall|j: int|
            0 <= j < required_files(models).len() ==> models.holds((#[trigger] required_files(models)[j]).name))
            ==> crate::diarize::can_diarize(models) && models.holds(dylib_name(models.platform)),
        0 <= i < required_files(models).len() ==> required_files(models)[i].dest == models.path_of(
            required_files(models)[i].name,
        ),
        required_files(models).len() == 4,
        crate::routes::config::is_model_file(required_files(models)[0].name),
{
    let files = required_files(models);
    if forall|j: int| 0 <= j < files.len() ==> models.holds((#[trigger] files[j]).name) {
        assert(models.holds(files[1].name));
        assert(models.holds(files[2].name));
        assert(models.holds(files[3].name));
    }
    reveal_strlit("ggml-small-q8_0.bin");
    reveal_strlit("ggml-");
    reveal_strlit(".bin");
    let name = files[0].name;
    assert(name.subrange(0, 5) =~= "ggml-"@);
    assert(name.subrange(name.len() - 4, name.len() as int) =~= ".bin"@);
}

/// A file that is in no archive is fetched as it is; one in an archive is taken out of it,
/// by its name there, from a file of its own for each kind of archive.
pub proof fn archives_are_unpacked(models: &ModelsDir, d: DownloadView)
    ensures
        d.archive is None ==> fetch_of(models, d) == Ok::<FetchView, Seq<char>>(FetchView::Direct),
        d.archive matches Some(a) ==> (d.inner matches Some(inner) ==> fetch_of(models, d) == Ok::<
            FetchView,
            Seq<char>,
        >(FetchView::Unpack { tmp: models.path_of(archive_name(a)), inner, archive: a })),
        d.archive is Some && d.inner is None ==> fetch_of(models, d) is Err,
{
}

} // verus!
