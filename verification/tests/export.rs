use murmur::export::{srt_time, to_srt, to_txt};
use murmur::job::Segment;

fn seg(id: usize, start: i64, end: i64, text: &str) -> Segment {
    Segment { id, start, end, text: text.into(), speaker: None, speaker_name: None }
}

fn seg_spk(id: usize, start: i64, end: i64, text: &str, speaker: &str) -> Segment {
    Segment { id, start, end, text: text.into(), speaker: Some(speaker.into()), speaker_name: None }
}

#[test]
fn txt_no_speakers() {
    let segs = vec![seg(0, 0, 1000, "Hello"), seg(1, 1000, 2000, "World")];
    assert_eq!(to_txt(&segs), "Hello\n\nWorld");
}

#[test]
fn txt_with_speakers_groups_consecutive() {
    let segs = vec![
        seg_spk(0, 0, 1000, "Hi", "SPEAKER_00"),
        seg_spk(1, 1000, 2000, "there", "SPEAKER_00"),
        seg_spk(2, 2000, 3000, "Hello", "SPEAKER_01"),
    ];
    let out = to_txt(&segs);
    assert!(out.contains("SPEAKER_00:\nHi\nthere"));
    assert!(out.contains("SPEAKER_01:\nHello"));
}

#[test]
fn srt_time_formatting() {
    assert_eq!(srt_time(3_661_500), "01:01:01,500");
    assert_eq!(srt_time(0), "00:00:00,000");
}

#[test]
fn srt_no_speakers() {
    let segs = vec![seg(0, 0, 1500, "Hello")];
    let out = to_srt(&segs);
    assert!(out.contains("1\n00:00:00,000 --> 00:00:01,500\nHello"));
}

#[test]
fn txt_of_nothing_is_empty() {
    assert_eq!(to_txt(&[]), "");
    assert_eq!(to_srt(&[]), "");
}

#[test]
fn txt_puts_an_empty_line_between_speakers() {
    let mut named = seg_spk(1, 1000, 2000, "two", "SPEAKER_01");
    named.speaker_name = Some("Ann".into());
    let segs = vec![
        seg_spk(0, 0, 1000, "one", "SPEAKER_00"),
        named,
        seg(2, 2000, 3000, "three"),
    ];
    assert_eq!(to_txt(&segs), "SPEAKER_00:\none\n\nAnn:\ntwo\n\nUnknown:\nthree");
}

#[test]
fn txt_groups_by_the_shown_name() {
    let mut a = seg_spk(0, 0, 1, "x", "SPEAKER_00");
    a.speaker_name = Some("Bo".into());
    let mut b = seg_spk(1, 1, 2, "y", "SPEAKER_01");
    b.speaker_name = Some("Bo".into());
    assert_eq!(to_txt(&[a, b]), "Bo:\nx\ny");
}

#[test]
fn srt_shows_speakers() {
    let segs = vec![
        seg_spk(0, 0, 1500, "Hello", "SPEAKER_00"),
        seg(1, 1500, 90_061_001, "bye"),
    ];
    assert_eq!(
        to_srt(&segs),
        "1\n00:00:00,000 --> 00:00:01,500\n[SPEAKER_00] Hello\n\n2\n00:00:01,500 --> 25:01:01,001\n[Unknown] bye"
    );
}

#[test]
fn srt_time_beyond_two_digits_of_hours() {
    assert_eq!(srt_time(360_000_000), "100:00:00,000");
    assert_eq!(srt_time(59_999), "00:00:59,999");
    assert_eq!(srt_time(-5), "00:00:00,000");
}
