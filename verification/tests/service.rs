use murmur::auth::AuthConfig;
use murmur::diarize::{WorkerResponse, WorkerRun};
use murmur::job::{
    DiarizeStatus, JobStatus, Segment, SegmentEvent, SummaryEvent, SummaryStatus,
};
use murmur::models_dir::{ModelsDir, Platform};
use murmur::routes::audio::{audio, mime, parse_range};
use murmur::routes::config::{discover_models, get_config, model_name};
use murmur::routes::diarize::{diarize, diarize_status, elapsed_tenths, end_diarization, DiarizeRequest};
use murmur::routes::export::{export, quotable_text, ExportContent, ExportRequest};
use murmur::routes::progress::{event_name, progress};
use murmur::routes::status::status;
use murmur::routes::summarize::{
    add_piece, end_summary, summarize, summarize_stream, summary_event_name, SummarizeRequest,
    SummaryRun,
};
use murmur::routes::transcribe::{
    allowed_model, default_model, end_transcription, transcribe, TranscribeRequest,
};
use murmur::routes::upload::{accept_file, no_file, upload, upload_name};
use murmur::routes::{guard, Endpoint, UPLOAD_LIMIT};
use murmur::state::AppState;
use murmur::transcribe::{RawSegment, TranscriptionRun};
use murmur::worker::Turn;

fn state() -> AppState {
    AppState::new(AuthConfig::new("admin".into(), "pw".into()), 2048, Some(4321))
}

fn models(files: &[&str]) -> ModelsDir {
    ModelsDir {
        platform: Platform::Linux,
        path: "/m".into(),
        files: files.iter().map(|f| f.to_string()).collect(),
    }
}

fn all_models() -> ModelsDir {
    models(&["sherpa-onnx-pyannote-seg.onnx", "sherpa-onnx-wespeaker-emb.onnx"])
}

fn add(state: &mut AppState, name: &str) -> String {
    upload(state, Some(name.into()), vec![1, 2, 3, 4]).unwrap().job_id
}

fn raw(start: i64, end: i64, text: &str) -> RawSegment {
    RawSegment { start, end, text: text.into() }
}

fn small() -> TranscribeRequest {
    TranscribeRequest { model: default_model() }
}

fn finish(state: &mut AppState, id: &str) {
    transcribe(state, id, &small()).unwrap();
    end_transcription(
        state,
        id,
        TranscriptionRun::Done(vec![raw(0, 150, " Hello "), raw(150, 300, "World")]),
    );
}

// ── Uploads ─────────────────────────────────────────────────────────────────

#[test]
fn uploads_become_jobs() {
    let mut s = state();
    let reply = upload(&mut s, Some("Talk.MP3".into()), vec![7; 10]).unwrap();
    assert_eq!(reply.filename, "Talk.MP3");
    assert_eq!(reply.size, 10);
    let j = s.jobs.get(&reply.job_id).unwrap();
    assert_eq!(j.audio_ext, ".mp3");
    assert_eq!(j.audio_data, vec![7; 10]);
    assert_eq!(j.model_name, "small");
    assert_eq!(j.status, JobStatus::Uploaded);
}

#[test]
fn only_audio_files_are_taken() {
    for name in ["a.mp3", "a.WAV", "a.m4a", "a.b.ogg", "a.Flac", "dir/a.mp3"] {
        assert!(accept_file(name).is_ok(), "{}", name);
    }
    for (name, ext) in [
        ("a.txt", ".txt"),
        ("a", ""),
        (".mp3", ""),
        ("a.", "."),
        ("a.opus", ".opus"),
        ("a.MP4", ".mp4"),
        ("..", ""),
        ("", ""),
        ("mp3/", ""),
    ] {
        let e = accept_file(name).unwrap_err();
        assert_eq!(e.status, 400);
        assert_eq!(e.message, format!("Unsupported file type: {}", ext));
    }
    let mut s = state();
    let e = match upload(&mut s, None, vec![]) {
        Err(e) => e,
        Ok(_) => panic!(),
    };
    assert_eq!(e.message, "Unsupported file type: ");
    assert_eq!(upload_name(None), "upload");
    assert_eq!(no_file().message, "no file field");
    assert_eq!(no_file().status, 400);
    assert_eq!(UPLOAD_LIMIT, 2 * 1024 * 1024 * 1024);
}

#[test]
fn extensions_are_lower_cased_beyond_ascii() {
    let e = accept_file("x.ÄÖ").unwrap_err();
    assert_eq!(e.message, "Unsupported file type: .äö");
}

// ── Transcription ───────────────────────────────────────────────────────────

#[test]
fn one_transcription_at_a_time() {
    let mut s = state();
    let a = add(&mut s, "a.mp3");
    let b = add(&mut s, "b.mp3");
    assert_eq!(transcribe(&mut s, &a, &small()).unwrap(), "small");
    assert_eq!(s.jobs.get(&a).unwrap().status, JobStatus::Running);
    let e = transcribe(&mut s, &a, &small()).unwrap_err();
    assert_eq!((e.status, e.message.as_str()), (429, "Transcription already in progress"));
    let e = transcribe(&mut s, &b, &small()).unwrap_err();
    assert_eq!((e.status, e.message.as_str()), (429, "A transcription is already in progress"));
    assert_eq!(s.jobs.get(&b).unwrap().status, JobStatus::Uploaded);
    let event = end_transcription(&mut s, &a, TranscriptionRun::Done(vec![raw(0, 100, "x")]));
    assert!(matches!(event, SegmentEvent::Done { total_segments: 1 }));
    assert_eq!(s.jobs.get(&a).unwrap().status, JobStatus::Done);
    assert!(transcribe(&mut s, &b, &small()).is_ok());
}

#[test]
fn unknown_jobs_are_not_transcribed() {
    let mut s = state();
    let e = transcribe(&mut s, "nope", &small()).unwrap_err();
    assert_eq!((e.status, e.message.as_str()), (404, "Job not found"));
}

#[test]
fn unknown_models_fall_back_to_small() {
    let mut s = state();
    let a = add(&mut s, "a.mp3");
    let req = TranscribeRequest { model: "huge".into() };
    assert_eq!(transcribe(&mut s, &a, &req).unwrap(), "small");
    end_transcription(&mut s, &a, TranscriptionRun::Failed("no".into()));
    let req = TranscribeRequest { model: "large-v3-turbo-q5_0".into() };
    assert_eq!(transcribe(&mut s, &a, &req).unwrap(), "large-v3-turbo-q5_0");
    assert_eq!(s.jobs.get(&a).unwrap().model_name, "large-v3-turbo-q5_0");
}

#[test]
fn the_models_that_may_be_named() {
    let list = [
        "tiny", "tiny-q8_0", "tiny-q5_1", "base", "base-q8_0", "base-q5_1", "small", "small-q8_0",
        "small-q5_1", "medium", "medium-q8_0", "medium-q5_0", "large-v3", "large-v3-q8_0",
        "large-v3-q5_0", "large-v3-turbo", "large-v3-turbo-q8_0", "large-v3-turbo-q5_0",
        "distil-medium.en", "distil-large-v3",
    ];
    for m in list {
        assert!(allowed_model(m));
    }
    for m in ["", "Small", "large", "medium-q5_1", "distil"] {
        assert!(!allowed_model(m));
    }
}

#[test]
fn failures_reach_the_job_and_the_listeners() {
    let mut s = state();
    let a = add(&mut s, "a.mp3");
    transcribe(&mut s, &a, &small()).unwrap();
    let event = end_transcription(&mut s, &a, TranscriptionRun::Failed("broken".into()));
    assert!(matches!(event, SegmentEvent::Error { message } if message == "broken"));
    assert_eq!(s.jobs.get(&a).unwrap().status, JobStatus::Error);
    assert_eq!(s.jobs.get(&a).unwrap().error.as_deref(), Some("broken"));
    transcribe(&mut s, &a, &small()).unwrap();
    assert_eq!(s.jobs.get(&a).unwrap().error, None);
    end_transcription(&mut s, &a, TranscriptionRun::Panicked("oops".into()));
    assert_eq!(s.jobs.get(&a).unwrap().error.as_deref(), Some("task panicked: oops"));
}

#[test]
fn a_dropped_job_gives_the_slot_back() {
    let mut s = state();
    let a = add(&mut s, "a.mp3");
    transcribe(&mut s, &a, &small()).unwrap();
    for _ in 0..20 {
        add(&mut s, "b.mp3");
    }
    assert!(s.jobs.get(&a).is_none());
    let b = add(&mut s, "c.mp3");
    assert!(transcribe(&mut s, &b, &small()).is_err());
    end_transcription(&mut s, &a, TranscriptionRun::Done(vec![]));
    assert!(transcribe(&mut s, &b, &small()).is_ok());
}

// ── Diarization ─────────────────────────────────────────────────────────────

#[test]
fn diarization_runs_after_transcription() {
    let mut s = state();
    let m = all_models();
    let req = DiarizeRequest { num_speakers: Some(2) };
    let e = diarize(&mut s, "nope", &req, &m, 0).err().unwrap();
    assert_eq!(e.status, 404);
    let a = add(&mut s, "a.mp3");
    let e = diarize(&mut s, &a, &req, &m, 0).err().unwrap();
    assert_eq!((e.status, e.message.as_str()), (400, "Transcription must complete before diarization"));
    finish(&mut s, &a);
    let e = diarize(&mut s, &a, &req, &models(&["sherpa-onnx-wespeaker-emb.onnx"]), 0).err().unwrap();
    assert_eq!(
        (e.status, e.message.as_str()),
        (503, "Diarization models not found. See PHASES.md for download instructions.")
    );
    let task = diarize(&mut s, &a, &req, &m, 1000).ok().unwrap();
    assert_eq!(task.num_speakers, Some(2));
    assert_eq!(task.recording.audio_data, vec![1, 2, 3, 4]);
    assert_eq!(task.recording.audio_ext, ".mp3");
    assert_eq!(task.recording.segments.len(), 2);
    assert_eq!(s.jobs.get(&a).unwrap().audio_data, vec![1, 2, 3, 4]);
    let e = diarize(&mut s, &a, &req, &m, 0).err().unwrap();
    assert_eq!((e.status, e.message.as_str()), (429, "Diarization already in progress"));
    let e = transcribe(&mut s, &a, &small()).unwrap_err();
    assert_eq!(
        (e.status, e.message.as_str()),
        (409, "Diarization is in progress; wait for it to finish before re-transcribing")
    );

    let report = diarize_status(&s, &a, 2449).ok().unwrap();
    assert_eq!(report.diarize_status, DiarizeStatus::Running);
    assert_eq!(report.stage, "Identifying speakers…");
    assert_eq!(report.elapsed_tenths, 14);
    assert_eq!(report.progress, 0);
    assert!(report.segments.is_none());

    let turns = vec![
        Turn { start: 0, end: 1600, speaker: "SPEAKER_01".into() },
        Turn { start: 1600, end: 3000, speaker: "SPEAKER_00".into() },
    ];
    end_diarization(
        &mut s,
        &a,
        &task.recording.segments,
        WorkerRun::Reply(WorkerResponse { ok: true, turns: Some(turns), error: None }),
    );
    let report = diarize_status(&s, &a, 2450).ok().unwrap();
    assert_eq!(report.diarize_status, DiarizeStatus::Done);
    assert_eq!(report.speakers, vec!["SPEAKER_01".to_string(), "SPEAKER_00".to_string()]);
    assert_eq!(report.stage, "Done");
    assert_eq!(report.progress, 100);
    assert_eq!(report.elapsed_tenths, 15);
    let segments = report.segments.unwrap();
    assert_eq!(segments[0].speaker.as_deref(), Some("SPEAKER_01"));
    assert_eq!(segments[1].speaker.as_deref(), Some("SPEAKER_00"));
    assert_eq!(segments[0].text, "Hello");
    // The recording is still there: it can be played and transcribed again.
    assert_eq!(audio(&s, &a, None).ok().unwrap().body, vec![1, 2, 3, 4]);
    assert!(transcribe(&mut s, &a, &small()).is_ok());
}

#[test]
fn diarization_errors_are_reported() {
    let mut s = state();
    let a = add(&mut s, "a.mp3");
    finish(&mut s, &a);
    let req = DiarizeRequest { num_speakers: None };
    let task = diarize(&mut s, &a, &req, &all_models(), 0).ok().unwrap();
    end_diarization(&mut s, &a, &task.recording.segments, WorkerRun::NotRun("gone".into()));
    let report = diarize_status(&s, &a, 0).ok().unwrap();
    assert_eq!(report.diarize_status, DiarizeStatus::Error);
    assert_eq!(report.diarize_error.as_deref(), Some("failed to run diarize-worker: gone"));
    assert!(report.segments.is_none());
    assert_eq!(diarize_status(&s, "nope", 0).err().unwrap().status, 404);
}

#[test]
fn elapsed_time_is_rounded_half_up() {
    assert_eq!(elapsed_tenths(None, 100), 0);
    assert_eq!(elapsed_tenths(Some(0), 49), 0);
    assert_eq!(elapsed_tenths(Some(0), 50), 1);
    assert_eq!(elapsed_tenths(Some(10), 1260), 13);
    assert_eq!(elapsed_tenths(Some(10), 5), 0);
    assert_eq!(elapsed_tenths(Some(0), u64::MAX), u64::MAX / 100);
}

// ── Following ───────────────────────────────────────────────────────────────

#[test]
fn late_listeners_get_everything() {
    let mut s = state();
    let a = add(&mut s, "a.mp3");
    let r = progress(&s, &a).ok().unwrap();
    assert!(r.events.is_empty());
    assert!(r.live);
    finish(&mut s, &a);
    let r = progress(&s, &a).ok().unwrap();
    assert!(!r.live);
    let names: Vec<&str> = r.events.iter().map(event_name).collect();
    assert_eq!(names, vec!["segment", "segment", "done"]);
    assert!(matches!(&r.events[0], SegmentEvent::Segment(x) if x.text == "Hello" && x.end == 1500));
    assert!(matches!(r.events[2], SegmentEvent::Done { total_segments: 2 }));
    s.jobs.get_mut(&a).unwrap().status = JobStatus::Error;
    let r = progress(&s, &a).ok().unwrap();
    assert!(!r.live);
    assert!(matches!(&r.events[2], SegmentEvent::Error { message } if message.is_empty()));
    assert_eq!(event_name(&r.events[2]), "error");
    assert_eq!(progress(&s, "nope").err().unwrap().message, "Job not found");
}

#[test]
fn the_status_of_a_job() {
    let mut s = state();
    let a = add(&mut s, "a.mp3");
    finish(&mut s, &a);
    let r = status(&s, &a).ok().unwrap();
    assert_eq!(r.job_id, a);
    assert_eq!(r.status, JobStatus::Done);
    assert_eq!(r.model, "small");
    assert_eq!(r.segment_count, 2);
    assert_eq!(r.error, None);
    assert_eq!(status(&s, "x").err().unwrap().status, 404);
}

// ── Summaries ───────────────────────────────────────────────────────────────

#[test]
fn summaries_run_once_and_keep_names() {
    let mut s = state();
    let a = add(&mut s, "a.mp3");
    let req = SummarizeRequest {
        speaker_names: Some(vec![("SPEAKER_00".into(), "Ann".into()), ("SPEAKER_07".into(), "Bo".into())]),
    };
    assert_eq!(summarize(&mut s, "nope", &req, 5).err().unwrap().status, 404);
    let e = summarize(&mut s, &a, &req, 5).err().unwrap();
    assert_eq!((e.status, e.message.as_str()), (400, "No segments to summarize"));
    finish(&mut s, &a);
    s.jobs.get_mut(&a).unwrap().segments[0].speaker = Some("SPEAKER_00".into());
    s.jobs.get_mut(&a).unwrap().segments[1].speaker = Some("SPEAKER_01".into());
    let task = summarize(&mut s, &a, &req, 5).ok().unwrap();
    assert_eq!(task.port, 4321);
    assert_eq!(task.tokens_cap, 2048);
    assert_eq!(task.segments[0].speaker_name.as_deref(), Some("Ann"));
    assert_eq!(task.segments[1].speaker_name, None);
    assert_eq!(s.jobs.get(&a).unwrap().segments[0].speaker_name.as_deref(), Some("Ann"));
    assert_eq!(s.jobs.get(&a).unwrap().summary_start, Some(5));
    let e = summarize(&mut s, &a, &req, 5).err().unwrap();
    assert_eq!((e.status, e.message.as_str()), (429, "Summarization already in progress"));

    let r = summarize_stream(&s, &a).ok().unwrap();
    assert!(r.live && r.events.is_empty());
    assert!(matches!(add_piece(&mut s, &a, "One ".into()), SummaryEvent::Token { text } if text == "One "));
    add_piece(&mut s, &a, "two".into());
    let r = summarize_stream(&s, &a).ok().unwrap();
    assert!(r.live);
    assert!(matches!(&r.events[..], [SummaryEvent::Token { text }] if text == "One two"));
    assert_eq!(summary_event_name(&r.events[0]), "token");

    let event = end_summary(&mut s, &a, SummaryRun::Done("Short.".into()));
    assert_eq!(summary_event_name(&event), "done");
    let r = summarize_stream(&s, &a).ok().unwrap();
    assert!(!r.live);
    assert!(matches!(&r.events[..], [SummaryEvent::Token { text }, SummaryEvent::Done] if text == "Short."));
}

#[test]
fn summaries_can_fail() {
    let mut s = state();
    let a = add(&mut s, "a.mp3");
    finish(&mut s, &a);
    let req = SummarizeRequest { speaker_names: None };
    assert!(summarize(&mut s, &a, &req, 0).is_ok());
    let event = end_summary(&mut s, &a, SummaryRun::Failed("down".into()));
    assert!(matches!(&event, SummaryEvent::Error { message } if message == "down"));
    assert_eq!(summary_event_name(&event), "error");
    assert_eq!(s.jobs.get(&a).unwrap().summary_status, SummaryStatus::Error);
    let r = summarize_stream(&s, &a).ok().unwrap();
    assert!(matches!(&r.events[..], [SummaryEvent::Error { message }] if message == "down"));
    assert!(summarize(&mut s, &a, &req, 0).is_ok());
    assert_eq!(s.jobs.get(&a).unwrap().summary_error, None);
    assert_eq!(summarize_stream(&s, "x").err().unwrap().status, 404);
    // Listeners to a job that was dropped still hear the rest.
    assert!(matches!(add_piece(&mut s, "x", "p".into()), SummaryEvent::Token { text } if text == "p"));
    assert!(matches!(end_summary(&mut s, "x", SummaryRun::Done("t".into())), SummaryEvent::Done));
    assert!(matches!(
        end_summary(&mut s, "x", SummaryRun::Failed("e".into())),
        SummaryEvent::Error { message } if message == "e"
    ));
}

#[test]
fn without_a_language_model_there_are_no_summaries() {
    let mut s = AppState::new(AuthConfig::new("admin".into(), "pw".into()), 2048, None);
    let a = add(&mut s, "a.mp3");
    let req = SummarizeRequest { speaker_names: None };
    let e = summarize(&mut s, &a, &req, 0).err().unwrap();
    assert_eq!((e.status, e.message.as_str()), (503, "Summarization model not available"));
}

// ── Export ──────────────────────────────────────────────────────────────────

fn request() -> ExportRequest {
    ExportRequest {
        segments: vec![Segment {
            id: 0,
            start: 0,
            end: 1500,
            text: "Hello".into(),
            speaker: None,
            speaker_name: None,
        }],
        summary: Some("ignored".into()),
    }
}

#[test]
fn transcripts_are_handed_out_as_files() {
    let mut s = state();
    let a = add(&mut s, "my \"talk\".final.mp3");
    let r = export(&s, &a, "txt", request()).ok().unwrap();
    assert_eq!(r.content_disposition, "attachment; filename=\"my _talk_.final.txt\"");
    assert_eq!(r.media_type, "text/plain; charset=utf-8");
    assert!(matches!(r.content, ExportContent::Text(t) if t == "Hello"));
    let r = export(&s, &a, "srt", request()).ok().unwrap();
    assert_eq!(r.content_disposition, "attachment; filename=\"my _talk_.final.srt\"");
    assert_eq!(r.media_type, "text/srt; charset=utf-8");
    assert!(matches!(r.content, ExportContent::Text(t) if t == "1\n00:00:00,000 --> 00:00:01,500\nHello"));
    let r = export(&s, &a, "json", request()).ok().unwrap();
    assert_eq!(r.content_disposition, "attachment; filename=\"my _talk_.final.json\"");
    assert_eq!(r.media_type, "application/json");
    assert!(matches!(r.content, ExportContent::Json(v) if v.len() == 1));
    let e = export(&s, &a, "pdf", request()).err().unwrap();
    assert_eq!((e.status, e.message.as_str()), (400, "Unknown format: pdf"));
    assert_eq!(export(&s, "x", "pdf", request()).err().unwrap().status, 404);
}

#[test]
fn file_names_are_made_quotable() {
    assert_eq!(quotable_text("a\"b\\c\rd\ne'f"), "a_b_c_d_e'f");
}

// ── Playing back ────────────────────────────────────────────────────────────

#[test]
fn ranges_of_a_recording() {
    assert_eq!(parse_range("bytes=0-", 10), Some((0, 9)));
    assert_eq!(parse_range("bytes=2-5", 10), Some((2, 5)));
    assert_eq!(parse_range("bytes=+2-+5", 10), Some((2, 5)));
    assert_eq!(parse_range("bytes=9-9", 10), Some((9, 9)));
    for bad in [
        "bytes=5-2", "bytes=0-10", "bytes=10-", "bytes=-5", "bytes=a-5", "bytes=1-b", "bytes=1",
        "octets=1-2", "bytes=1-2,3-4", "", "bytes=18446744073709551616-",
    ] {
        assert_eq!(parse_range(bad, 10), None, "{}", bad);
    }
    assert_eq!(parse_range("bytes=0-", 0), None);
}

#[test]
fn recordings_are_played_in_parts() {
    let mut s = state();
    let a = add(&mut s, "a.ogg");
    let r = audio(&s, &a, None).ok().unwrap();
    assert_eq!((r.status, r.mime.as_str(), r.content_range.as_deref()), (200, "audio/ogg", None));
    assert_eq!(r.body, vec![1, 2, 3, 4]);
    assert_eq!((r.accept_ranges(), r.content_length()), ("bytes", 4));
    let r = audio(&s, &a, Some("bytes=1-2")).ok().unwrap();
    assert_eq!(r.status, 206);
    assert_eq!(r.content_range.as_deref(), Some("bytes 1-2/4"));
    assert_eq!(r.body, vec![2, 3]);
    assert_eq!((r.accept_ranges(), r.content_length()), ("bytes", 2));
    let r = audio(&s, &a, Some("bytes=1-9")).ok().unwrap();
    assert_eq!(r.status, 200);
    assert_eq!(audio(&s, "x", None).err().unwrap().message, "Job not found");
    s.jobs.get_mut(&a).unwrap().audio_data.clear();
    let e = audio(&s, &a, None).err().unwrap();
    assert_eq!((e.status, e.message.as_str()), (404, "Audio not available"));
}

#[test]
fn media_types_of_recordings() {
    assert_eq!(mime(".mp3"), "audio/mpeg");
    assert_eq!(mime(".wav"), "audio/wav");
    assert_eq!(mime(".m4a"), "audio/mp4");
    assert_eq!(mime(".ogg"), "audio/ogg");
    assert_eq!(mime(".flac"), "audio/flac");
    assert_eq!(mime(".xyz"), "application/octet-stream");
}

// ── Configuration ───────────────────────────────────────────────────────────

#[test]
fn models_are_listed_in_order() {
    let m = models(&[
        "ggml-small-q8_0.bin", "ggml-base.bin", "readme.txt", "ggml-silero-vad.bin", "ggml-.bin",
        "small.bin", "ggml-tiny.bin.part", "ggml-base.bin", "ggml-ggml-x.bin.bin", "ggml-é.bin",
    ]);
    assert_eq!(
        discover_models(&m),
        vec!["", "base", "base", "silero-vad", "small-q8_0", "x", "é"]
    );
    assert_eq!(model_name("ggml-large-v3.bin").as_deref(), Some("large-v3"));
    assert_eq!(model_name("large-v3.bin"), None);
    assert_eq!(model_name("ggml-.bi"), None);
}

#[test]
fn the_configuration_follows_the_files() {
    let c = get_config(&models(&["ggml-small.bin"]));
    assert!(c.whisper_available);
    assert!(!c.sherpa_diarize_available);
    assert!(!c.summarize_available);
    assert_eq!(c.available_models, vec!["small"]);
    let c = get_config(&models(&[
        "sherpa-onnx-pyannote-seg.onnx",
        "3dspeaker_speech_eres2net_sv_en_voxceleb_16k.onnx",
        "llamafile",
    ]));
    assert!(c.sherpa_diarize_available);
    assert!(c.summarize_available);
    assert!(c.available_models.is_empty());
}

// ── The guard ───────────────────────────────────────────────────────────────

#[test]
fn only_the_front_door_is_open() {
    let mut auth = AuthConfig::new("admin".into(), "pw".into());
    let token = auth.create_session("admin", "pw").unwrap();
    let cookie = format!("session={}", token);
    let open = [
        Endpoint::Index, Endpoint::IndexFile, Endpoint::Login, Endpoint::Logout, Endpoint::AuthCheck,
    ];
    let closed = [
        Endpoint::Config, Endpoint::Upload, Endpoint::Transcribe, Endpoint::Progress,
        Endpoint::Diarize, Endpoint::DiarizeStatus, Endpoint::Export, Endpoint::Status,
        Endpoint::Summarize, Endpoint::SummarizeStream,
    ];
    for e in open {
        assert!(guard(e, &auth, None).is_none());
    }
    for e in closed {
        let r = guard(e, &auth, None).unwrap();
        assert_eq!((r.status, r.error.as_deref()), (401, Some("unauthorized")));
        assert!(guard(e, &auth, Some("session=x")).is_some());
        assert!(guard(e, &auth, Some(&cookie)).is_none());
    }
    assert_eq!(Endpoint::Export.path(), "/export/:job_id/:fmt");
    assert_eq!(Endpoint::Index.path(), "/");
}
