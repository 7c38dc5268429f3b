use murmur::diarize::{
    emb_model_path, models_available, seg_model_path, worker_request, worker_turns, WorkerResponse,
    WorkerRun,
};
use murmur::llama_server::{after_look, library_path, server_command, spawn_error, ServerLook, WatchStep};
use murmur::model_download::{
    fetch_plan, inner_name, llamafile_path, not_found_message, ort_dylib_path, plan_downloads,
    tar_entry_matches, zip_entry_matches, Archive, Download, Fetch,
};
use murmur::models::{load_error, Lookup, ModelCache};
use murmur::models_dir::{ModelsDir, Platform};
use murmur::startup::{check_models, first_launch, startup_mode, summary_tokens, Mode};
use murmur::transcribe::{make_segments, milliseconds, thread_count, vad_model, RawSegment};
use murmur::worker::Turn;

fn at(platform: Platform, path: &str, files: &[&str]) -> ModelsDir {
    ModelsDir { platform, path: path.into(), files: files.iter().map(|f| f.to_string()).collect() }
}

fn dir(files: &[&str]) -> ModelsDir {
    at(Platform::Linux, "/srv/models", files)
}

fn windows_dir(files: &[&str]) -> ModelsDir {
    at(Platform::Windows, "C:\\models", files)
}

const BEST: &str = "3dspeaker_speech_eres2netv2_sv_zh-cn_16k-common.onnx";
const LARGE: &str = "3dspeaker_speech_eres2net_large_sv_zh-cn_3dspeaker_16k.onnx";
const ENGLISH: &str = "3dspeaker_speech_eres2net_sv_en_voxceleb_16k.onnx";
const WESPEAKER: &str = "sherpa-onnx-wespeaker-emb.onnx";
const SEG: &str = "sherpa-onnx-pyannote-seg.onnx";

#[test]
fn the_best_embedding_model_is_used() {
    let path = |files: &[&str]| emb_model_path(&dir(files));
    assert_eq!(path(&[]), format!("/srv/models/{}", WESPEAKER));
    assert_eq!(path(&[WESPEAKER, ENGLISH]), format!("/srv/models/{}", ENGLISH));
    assert_eq!(path(&[WESPEAKER, ENGLISH, LARGE]), format!("/srv/models/{}", LARGE));
    assert_eq!(path(&[WESPEAKER, BEST, ENGLISH]), format!("/srv/models/{}", BEST));
    assert_eq!(seg_model_path(&dir(&[])), format!("/srv/models/{}", SEG));
}

#[test]
fn diarization_needs_two_models() {
    assert!(!models_available(&dir(&[])));
    assert!(!models_available(&dir(&[SEG])));
    assert!(!models_available(&dir(&[BEST])));
    for m in [BEST, LARGE, ENGLISH, WESPEAKER] {
        assert!(models_available(&dir(&[m, SEG])));
    }
}

#[test]
fn the_worker_is_asked() {
    let r = worker_request("/tmp/a.mp3".into(), &dir(&[BEST, SEG]), Some(3));
    assert_eq!(r.audio_path, "/tmp/a.mp3");
    assert_eq!(r.emb_model, format!("/srv/models/{}", BEST));
    assert_eq!(r.seg_model, format!("/srv/models/{}", SEG));
    assert_eq!(r.num_speakers, Some(3));
    assert_eq!(worker_request("".into(), &dir(&[]), None).num_speakers, None);
    for n in [0u32, 0x7fff_ffff, 0x8000_0000, u32::MAX] {
        assert_eq!(worker_request("".into(), &dir(&[]), Some(n)).num_speakers, Some(n as i32));
    }
}

fn reply(ok: bool, turns: Option<Vec<Turn>>, error: Option<&str>) -> WorkerRun {
    WorkerRun::Reply(WorkerResponse { ok, turns, error: error.map(|e| e.to_string()) })
}

#[test]
fn the_worker_answers() {
    let turn = || Turn { start: 1, end: 2, speaker: "SPEAKER_00".into() };
    assert_eq!(worker_turns(reply(true, Some(vec![turn()]), None)).ok().unwrap().len(), 1);
    assert_eq!(worker_turns(reply(true, None, Some("x"))).ok().unwrap().len(), 0);
    let error = |run: WorkerRun| worker_turns(run).err().unwrap();
    assert_eq!(error(reply(false, Some(vec![turn()]), Some("bad"))), "bad");
    assert_eq!(error(reply(false, None, None)), "unknown diarization error");
    assert_eq!(error(WorkerRun::NotReady("disk full".into())), "disk full");
    assert_eq!(error(WorkerRun::NotRun("x".into())), "failed to run diarize-worker: x");
    assert_eq!(
        error(WorkerRun::Exited { status: "exit status: 1".into(), stderr: "e".into() }),
        "diarize-worker exited with exit status: 1: e"
    );
    assert_eq!(
        error(WorkerRun::BadReply { cause: "c".into(), raw: "r".into() }),
        "bad worker response: c\nraw: r"
    );
    assert_eq!(error(WorkerRun::Panicked("p".into())), "task panicked: p");
}

#[test]
fn models_are_loaded_once() {
    let mut cache: ModelCache<u32> = ModelCache::new();
    let d = dir(&["ggml-small.bin"]);
    assert!(matches!(cache.get_or_load("small", &d), Ok(Lookup::Load(p)) if p == "/srv/models/ggml-small.bin"));
    let e = cache.get_or_load("tiny", &d).unwrap_err();
    assert_eq!(
        e,
        "Model file not found: /srv/models/ggml-tiny.bin  —  download ggml-tiny.bin from https://huggingface.co/ggerganov/whisper.cpp"
    );
    cache.insert("small".into(), 1);
    cache.insert("base".into(), 2);
    cache.insert("small".into(), 3);
    assert_eq!(cache.get("small"), Some(&1));
    assert_eq!(cache.get("base"), Some(&2));
    assert_eq!(cache.get("tiny"), None);
    assert!(matches!(cache.get_or_load("base", &dir(&[])), Ok(Lookup::Cached)));
    assert_eq!(load_error("tiny", "X"), "failed to load model 'tiny': X");
}

#[test]
fn missing_files_are_fetched() {
    let all = plan_downloads(&dir(&[]));
    let names: Vec<&str> = all.iter().map(|d| d.name.as_str()).collect();
    assert_eq!(names, vec!["ggml-small-q8_0.bin", SEG, BEST, "libonnxruntime.so"]);
    assert_eq!(all[0].dest, "/srv/models/ggml-small-q8_0.bin");
    assert_eq!(
        all[0].url,
        "https://huggingface.co/ggerganov/whisper.cpp/resolve/main/ggml-small-q8_0.bin"
    );
    assert!(matches!(fetch_plan(&dir(&[]), &all[0]), Ok(Fetch::Direct)));
    assert!(matches!(
        fetch_plan(&dir(&[]), &all[1]),
        Ok(Fetch::Unpack { tmp, inner, archive: Archive::TarBz2 })
            if tmp == "/srv/models/_dl.tar.bz2" && inner == "model.onnx"
    ));
    assert!(matches!(
        fetch_plan(&dir(&[]), &all[3]),
        Ok(Fetch::Unpack { tmp, inner, archive: Archive::TarGz })
            if tmp == "/srv/models/_dl.tar.gz"
                && inner == "onnxruntime-linux-x64-1.24.2/lib/libonnxruntime.so.1.24.2"
    ));
    let windows = plan_downloads(&windows_dir(&[SEG, BEST, "ggml-small-q8_0.bin"]));
    assert_eq!(windows.len(), 1);
    assert_eq!(windows[0].dest, "C:\\models\\onnxruntime.dll");
    assert!(matches!(
        fetch_plan(&windows_dir(&[]), &windows[0]),
        Ok(Fetch::Unpack { tmp, archive: Archive::Zip, .. }) if tmp == "C:\\models\\_dl.zip"
    ));
    assert!(plan_downloads(&dir(&[SEG, BEST, "ggml-small-q8_0.bin", "libonnxruntime.so"])).is_empty());
    assert_eq!(plan_downloads(&at(Platform::Other, "m", &[]))[3].dest, "m/libonnxruntime.so");
    let bad = Download {
        name: "x".into(),
        dest: "x".into(),
        url: "x".into(),
        inner: None,
        archive: Some(Archive::Zip),
    };
    assert!(matches!(fetch_plan(&dir(&[]), &bad), Err(m) if m == "invalid download config"));
}

#[test]
fn files_are_found_in_archives() {
    assert_eq!(
        inner_name("onnxruntime-linux-x64-1.24.2/lib/libonnxruntime.so.1.24.2"),
        "libonnxruntime.so.1.24.2"
    );
    assert_eq!(inner_name("model.onnx"), "model.onnx");
    assert_eq!(inner_name(".."), "..");
    assert!(tar_entry_matches("a/b/model.onnx", "model.onnx"));
    assert!(!tar_entry_matches("a/b/model.onnx.bak", "model.onnx"));
    assert!(!tar_entry_matches("a/other-model.onnx", "model.onnx"));
    assert!(zip_entry_matches("a/other-model.onnx", "model.onnx"));
    assert!(!zip_entry_matches("x", "model.onnx"));
    assert_eq!(not_found_message("m", Archive::TarGz), "'m' not found in archive");
    assert_eq!(not_found_message("m", Archive::TarBz2), "'m' not found in archive");
    assert_eq!(not_found_message("m", Archive::Zip), "'m' not found in zip");
}

#[test]
fn paths_of_model_files() {
    assert_eq!(ort_dylib_path(&dir(&[])), "/srv/models/libonnxruntime.so");
    assert_eq!(ort_dylib_path(&windows_dir(&[])), "C:\\models\\onnxruntime.dll");
    assert_eq!(ort_dylib_path(&at(Platform::Other, "/m", &[])), "/m/libonnxruntime.so");
    assert_eq!(llamafile_path(&dir(&[])), "/srv/models/llamafile");
    for path in ["", "a", "a/", "/"] {
        let joined = std::path::Path::new(path).join("x");
        assert_eq!(at(Platform::Linux, path, &[]).join("x"), joined.to_str().unwrap());
        assert_eq!(at(Platform::Other, path, &[]).join("x"), joined.to_str().unwrap());
    }
    let on_windows = |path: &str| at(Platform::Windows, path, &[]).join("x");
    assert_eq!(on_windows("C:\\models"), "C:\\models\\x");
    assert_eq!(on_windows("C:\\models\\"), "C:\\models\\x");
    assert_eq!(on_windows("C:/models/"), "C:/models/x");
    assert_eq!(on_windows("C:"), "C:x");
    assert_eq!(on_windows("CC:"), "CC:\\x");
    assert_eq!(on_windows(""), "x");
    assert_eq!(at(Platform::Linux, "a\\", &[]).join("x"), "a\\/x");
    assert_eq!(at(Platform::Linux, "C:", &[]).join("x"), "C:/x");
}

#[test]
fn the_server_is_started_on_its_port() {
    let c = server_command(&dir(&[]), 8123);
    assert_eq!(c.program, "sh");
    assert_eq!(
        c.args,
        vec![
            "/srv/models/llamafile", "--server", "--host", "127.0.0.1", "--port", "8123", "-c",
            "8192", "-t", "8",
        ]
    );
    let c = server_command(&windows_dir(&[]), 1);
    assert_eq!(c.program, "C:\\models\\llamafile");
    assert_eq!(c.args.len(), 9);
    let c = server_command(&at(Platform::Other, "/m", &[]), 1);
    assert_eq!(c.program, "/m/llamafile");
    assert_eq!(c.args.len(), 9);
    assert_eq!(
        library_path("x86_64", ""),
        "/usr/local/cuda/lib64:/usr/local/nvidia/lib64:/lib/x86_64-linux-gnu:/usr/lib/x86_64-linux-gnu"
    );
    assert!(library_path("aarch64", "/opt/lib").ends_with("/usr/lib/aarch64-linux-gnu:/opt/lib"));
    assert_eq!(spawn_error("x"), "failed to spawn llamafile: x");
}

#[test]
fn the_server_is_watched() {
    assert_eq!(after_look(ServerLook::Running, true), WatchStep { again: true, alive: true });
    assert_eq!(after_look(ServerLook::Exited, true), WatchStep { again: false, alive: false });
    assert_eq!(after_look(ServerLook::Unknown, true), WatchStep { again: false, alive: true });
}

#[test]
fn the_first_argument_decides() {
    assert_eq!(startup_mode(Some("--worker")), Mode::Worker);
    assert_eq!(startup_mode(Some("--download-models")), Mode::DownloadModels);
    assert_eq!(startup_mode(Some("--other")), Mode::Serve);
    assert_eq!(startup_mode(None), Mode::Serve);
}

#[test]
fn settings_have_defaults() {
    assert_eq!(summary_tokens(None), 2048);
    assert_eq!(summary_tokens(Some("100")), 100);
    assert_eq!(summary_tokens(Some("4294967296")), 2048);
    assert_eq!(summary_tokens(Some("many")), 2048);
    assert!(first_launch(&dir(&["onnxruntime.dll"])));
    assert!(!first_launch(&windows_dir(&["onnxruntime.dll"])));
    assert!(check_models(&dir(&["libonnxruntime.so"])).is_ok());
    assert_eq!(
        check_models(&dir(&["onnxruntime.dll"])).unwrap_err(),
        "Models not found at /srv/models.\nRun:  murmur --download-models"
    );
    assert_eq!(
        check_models(&windows_dir(&["libonnxruntime.so"])).unwrap_err(),
        "Models not found at C:\\models.\nRun:  murmur --download-models"
    );
}

#[test]
fn the_speech_model_runs_on_some_threads() {
    assert_eq!(thread_count(None), 4);
    assert_eq!(thread_count(Some(1)), 4);
    assert_eq!(thread_count(Some(9)), 4);
    assert_eq!(thread_count(Some(12)), 6);
    assert_eq!(thread_count(Some(64)), 8);
    assert_eq!(vad_model(&dir(&["ggml-silero-vad.bin"])).as_deref(), Some("/srv/models/ggml-silero-vad.bin"));
    assert_eq!(vad_model(&dir(&[])), None);
}

#[test]
fn segments_come_from_the_model() {
    assert_eq!(milliseconds(150), 1500);
    assert_eq!(milliseconds(-3), -30);
    assert_eq!(milliseconds(i64::MAX), i64::MAX);
    assert_eq!(milliseconds(i64::MIN), i64::MIN);
    let out = make_segments(&vec![
        RawSegment { start: 0, end: 150, text: " One ".into() },
        RawSegment { start: 150, end: 299, text: "two".into() },
    ]);
    assert_eq!(out.len(), 2);
    assert_eq!((out[1].id, out[1].start, out[1].end), (1, 1500, 2990));
    assert_eq!(out[0].text, "One");
    assert_eq!(out[0].speaker, None);
}
