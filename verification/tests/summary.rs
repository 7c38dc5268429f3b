use murmur::calendar::{civil_from_days, date_at, date_text, today};
use murmur::job::Segment;
use murmur::models_dir::{ModelsDir, Platform};
use murmur::summarize::{
    after_attempt, available, chat_request, completions_url, event_line, exited_message,
    format_transcript, max_tokens, may_send, no_segments_message, server_error_message,
    summary_text, system_prompt, unreachable_message, AnswerStream, Line, RetryStep,
    RETRY_PAUSE_MS, RETRY_SECONDS,
};

fn seg(end: i64, text: &str, speaker: Option<&str>, name: Option<&str>) -> Segment {
    Segment {
        id: 0,
        start: 0,
        end,
        text: text.into(),
        speaker: speaker.map(|s| s.to_string()),
        speaker_name: name.map(|s| s.to_string()),
    }
}

#[test]
fn the_language_model_is_a_file() {
    let none = ModelsDir { platform: Platform::Linux, path: "m".into(), files: vec!["ggml-small.bin".into()] };
    let some = ModelsDir { platform: Platform::Linux, path: "m".into(), files: vec!["llamafile".into()] };
    assert!(!available(&none));
    assert!(available(&some));
}

#[test]
fn the_transcript_names_its_speakers() {
    let segs = vec![
        seg(1, " Hi ", Some("SPEAKER_00"), Some("Ann")),
        seg(2, "there\n", Some("SPEAKER_01"), None),
        seg(3, "x", None, None),
    ];
    assert_eq!(format_transcript(&segs), "Ann: Hi\nSPEAKER_01: there\nSpeaker: x");
    assert_eq!(format_transcript(&[]), "");
}

#[test]
fn longer_recordings_get_longer_summaries() {
    assert_eq!(max_tokens(&[], 2048), 512);
    assert_eq!(max_tokens(&[seg(60_000, "", None, None)], 2048), 512);
    // Ten minutes at two hundred tokens each.
    assert_eq!(max_tokens(&[seg(600_000, "", None, None), seg(1, "", None, None)], 4096), 2000);
    assert_eq!(max_tokens(&[seg(600_000, "", None, None)], 2048), 2000);
    assert_eq!(max_tokens(&[seg(660_000, "", None, None)], 2048), 2048);
    assert_eq!(max_tokens(&[seg(600_149, "", None, None)], 4096), 2000);
    assert_eq!(max_tokens(&[seg(600_150, "", None, None)], 4096), 2001);
    assert_eq!(max_tokens(&[seg(1, "", None, None)], 100), 100);
    assert_eq!(max_tokens(&[seg(i64::MAX, "", None, None)], u32::MAX), u32::MAX);
    assert_eq!(max_tokens(&[seg(-600_000, "", None, None)], 4096), 512);
}

#[test]
fn the_prompt_holds_the_date() {
    let p = system_prompt("1 May 2024");
    assert!(p.starts_with("You are an experienced law enforcement intelligence officer."));
    assert!(p.contains("at the very top: 1 May 2024.\n- Write in the third person"));
    assert!(p.ends_with("or any closing remarks."));
}

#[test]
fn requests_hold_prompt_transcript_and_budget() {
    let r = chat_request(&[seg(600_000, "Hello", None, None)], "1 May 2024", 4096).unwrap();
    assert_eq!(r.system, system_prompt("1 May 2024"));
    assert_eq!(r.transcript, "Speaker: Hello");
    assert_eq!(r.max_tokens, 2000);
    assert!(chat_request(&[], "1 May 2024", 4096).is_none());
    assert_eq!(no_segments_message(), "no segments to summarize");
}

#[test]
fn the_server_is_asked_on_its_port() {
    assert_eq!(completions_url(8080), "http://127.0.0.1:8080/v1/chat/completions");
    assert_eq!(
        server_error_message("500 Internal Server Error", "boom"),
        "llamafile server error 500 Internal Server Error: boom"
    );
}

#[test]
fn the_server_is_waited_for() {
    assert!(may_send(None));
    assert!(may_send(Some(true)));
    assert!(!may_send(Some(false)));
    assert_eq!(after_attempt(true, false), RetryStep::Answered);
    assert_eq!(after_attempt(false, true), RetryStep::Again);
    assert_eq!(after_attempt(false, false), RetryStep::GiveUp);
    assert_eq!((RETRY_SECONDS, RETRY_PAUSE_MS), (300, 500));
    assert_eq!(exited_message(), "llamafile server process exited — check stderr for details");
    assert_eq!(unreachable_message("refused"), "llamafile server unreachable after 5 min: refused");
}

#[test]
fn answers_are_read_from_the_stream() {
    let mut s = AnswerStream::new();
    assert!(s.push_text("data: {\"choices\":[{\"delta\":{\"content\":\"Hel").is_empty());
    assert_eq!(s.push_text("lo\"}}]}\n\n"), vec!["Hello"]);
    assert!(s.push_text(": comment\r\ndata: {broken\r\ndata: {\"choices\":[]}\n").is_empty());
    assert!(s.push_text("data: {\"choices\":[{\"delta\":{\"content\":\"\"}}]}\n").is_empty());
    assert!(s.push_text("data: {\"choices\":[{\"delta\":{\"role\":\"assistant\"}}]}\n").is_empty());
    assert_eq!(
        s.push_text("data: {\"choices\":[{\"delta\":{\"content\":\" a\"}}]}\ndata: {\"choices\":[{\"delta\":{\"content\":\"b\"}}]}\ndata: [DONE]\ndata: {\"choices\":[{\"delta\":{\"content\":\"c\"}}]}\n"),
        vec![" a", "b"]
    );
    assert!(s.finished);
    assert_eq!(s.answer, "Hello ab");
    assert!(s.push_text("data: {\"choices\":[{\"delta\":{\"content\":\"d\"}}]}\n").is_empty());
    assert_eq!(s.answer, "Hello ab");
}

#[test]
fn chunks_make_no_difference() {
    let all = "data: {\"choices\":[{\"delta\":{\"content\":\"é\"}}]}\nx\ndata: {\"choices\":[{\"delta\":{\"content\":\"y\"}}]}\ndata: [DONE]\n";
    let mut whole = AnswerStream::new();
    let pieces = whole.push_bytes(all.as_bytes());
    assert_eq!(pieces, vec!["é", "y"]);
    let mut split = AnswerStream::new();
    let mut got = Vec::new();
    for c in all.chars() {
        got.extend(split.push_bytes(c.to_string().as_bytes()));
    }
    assert_eq!(got, pieces);
    assert_eq!(split.answer, whole.answer);
    assert_eq!(split.finished, whole.finished);
    assert_eq!(split.pending, whole.pending);
}

#[test]
fn malformed_bytes_are_replaced() {
    let mut s = AnswerStream::new();
    let mut bytes = b"data: {\"choices\":[{\"delta\":{\"content\":\"a".to_vec();
    bytes.push(0xff);
    bytes.extend_from_slice(b"b\"}}]}\n");
    assert_eq!(s.push_bytes(&bytes), vec!["a\u{fffd}b"]);
}

#[test]
fn events_of_the_stream() {
    assert!(matches!(event_line("[DONE]", None), Line::End));
    assert!(matches!(event_line("{}", None), Line::Other));
    assert!(matches!(event_line("{}", Some("".into())), Line::Other));
    assert!(matches!(event_line("{}", Some("x".into())), Line::Piece(p) if p == "x"));
}

#[test]
fn thinking_is_left_out() {
    assert_eq!(summary_text("<think>hm\nhm</think>\n\n Report.\r\nEnd. "), "Report.\nEnd.");
    assert_eq!(summary_text("  plain\r\r\ntext\r"), "plain\r\ntext");
    assert_eq!(summary_text("<think>a</think>b</think>c"), "b</think>c");
    assert_eq!(summary_text("a </think> b"), "a </think> b");
    assert_eq!(summary_text("a<think>b</think>c"), "a<think>b</think>c");
    assert_eq!(summary_text("<think>never ends"), "<think>never ends");
    assert_eq!(summary_text(""), "");
}

#[test]
fn dates_of_days() {
    assert_eq!(date_text(0), "1 January 1970");
    assert_eq!(date_text(59), "1 March 1970");
    assert_eq!(date_text(11_016), "29 February 2000");
    assert_eq!(date_text(11_017), "1 March 2000");
    assert_eq!(date_text(19_722), "31 December 2023");
    assert_eq!(date_text(19_723), "1 January 2024");
    assert_eq!(date_text(47_540), "28 February 2100");
    assert_eq!(date_text(47_541), "1 March 2100");
    assert_eq!(civil_from_days(20_000), (2024, 10, 4));
    assert_eq!(date_at(86_399), "1 January 1970");
    assert_eq!(date_at(86_400), "2 January 1970");
}

#[test]
fn today_is_a_date() {
    let now = std::time::SystemTime::now()
        .duration_since(std::time::UNIX_EPOCH)
        .unwrap()
        .as_secs();
    let t = today();
    assert!(t == date_at(now) || t == date_at(now + 60) || t == date_at(now - 60));
}
