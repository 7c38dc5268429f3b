use murmur::audio::{
    after_decode, after_packet, assign_speakers, list_speakers, resample_plan, select_track,
    DecodeOutcome, PacketOutcome, ReadStep, TrackInfo,
};
use murmur::clustering::{
    ahc_complete, cluster_sizes, estimate_speakers, farthest_point, join_heights, key_bits, last_max,
    order_key, plan_clusters, remotest_point, smooth, ClusterPlan, KMeans,
};
use murmur::job::Segment;
use murmur::worker::{
    blank_frames, check_found, fallback_target, fixed_windows, group_target, mark_window,
    merge_adjacent, merge_short_turns, pyannote_segments, requested_speakers, run_fixed_window_pipeline,
    run_pyannote_pipeline, sample_time, segmentation_windows, speaker_label, speakers_of_classes,
    speech_segments, uses_segmentation, Turn, WindowScores, WorkerError,
};

fn turn(start: u64, end: u64, speaker: &str) -> Turn {
    Turn { start, end, speaker: speaker.into() }
}

fn shown(turns: &[Turn]) -> Vec<(u64, u64, String)> {
    turns.iter().map(|t| (t.start, t.end, t.speaker.clone())).collect()
}

fn seg(start: i64, end: i64) -> Segment {
    Segment { id: 0, start, end, text: "x".into(), speaker: None, speaker_name: None }
}

// ── Order keys ──────────────────────────────────────────────────────────────

#[test]
fn order_keys_order_floats() {
    let values = [
        f32::NEG_INFINITY, f32::MIN, -1.5, -1.0, -1e-40, -0.0, 0.0, 1e-40, f32::MIN_POSITIVE, 0.5,
        1.0, 1.0000001, 2.0, f32::MAX, f32::INFINITY,
    ];
    for a in values {
        for b in values {
            let (ka, kb) = (order_key(a.to_bits()), order_key(b.to_bits()));
            assert_eq!(a < b, ka < kb, "{} {}", a, b);
            assert_eq!(a == b, ka == kb, "{} {}", a, b);
        }
        assert_eq!(f32::from_bits(key_bits(order_key(a.to_bits()))), a);
    }
}

// ── Clustering ──────────────────────────────────────────────────────────────

fn table(points: &[f32]) -> Vec<Vec<i32>> {
    points
        .iter()
        .map(|a| points.iter().map(|b| order_key((a - b).abs().to_bits())).collect())
        .collect()
}

#[test]
fn close_samples_are_joined() {
    let dist = table(&[0.0, 10.0, 0.5, 10.2, 20.0]);
    assert_eq!(ahc_complete(&dist, 3), vec![0, 1, 0, 1, 2]);
    // Complete linkage: 10 and 20 are closer to each other than 0 and 20.
    assert_eq!(ahc_complete(&dist, 2), vec![0, 1, 0, 1, 1]);
    assert_eq!(ahc_complete(&dist, 1), vec![0, 0, 0, 0, 0]);
    assert_eq!(ahc_complete(&dist, 5), vec![0, 1, 2, 3, 4]);
    assert_eq!(ahc_complete(&dist, 9), vec![0, 1, 2, 3, 4]);
    assert_eq!(ahc_complete(&vec![], 1), Vec::<usize>::new());
}

#[test]
fn fewer_groups_only_join() {
    let dist = table(&[0.0, 7.0, 0.5, 3.0, 7.5, 20.0, 3.25, 11.0]);
    for more in 1..10 {
        let fine = ahc_complete(&dist, more);
        for fewer in 1..more + 1 {
            let coarse = ahc_complete(&dist, fewer);
            for i in 0..8 {
                for j in 0..8 {
                    assert!(fine[i] != fine[j] || coarse[i] == coarse[j]);
                }
            }
        }
    }
}

#[test]
fn joins_have_heights() {
    let dist = table(&[0.0, 1.0, 5.0, 5.5]);
    let heights: Vec<f32> = join_heights(&dist).iter().map(|k| f32::from_bits(key_bits(*k))).collect();
    assert_eq!(heights, vec![0.5, 1.0, 5.5]);
    assert!(heights.windows(2).all(|w| w[0] <= w[1]));
    assert!(join_heights(&table(&[1.0])).is_empty());
}

#[test]
fn speakers_are_estimated_by_the_largest_rise() {
    let gaps = |h: &[f32]| -> Vec<i32> { h.windows(2).map(|w| order_key((w[1] - w[0]).to_bits())).collect() };
    assert_eq!(estimate_speakers(4, &gaps(&[0.5, 1.0, 5.5]), 8), 2);
    assert_eq!(estimate_speakers(5, &gaps(&[0.1, 0.2, 3.0, 3.1]), 8), 3);
    assert_eq!(estimate_speakers(5, &gaps(&[0.1, 0.2, 3.0, 3.1]), 2), 2);
    // Of equal rises the earlier one counts: more speakers.
    assert_eq!(estimate_speakers(4, &gaps(&[0.0, 1.0, 2.0]), 8), 3);
    assert_eq!(estimate_speakers(2, &vec![], 8), 2);
    assert_eq!(estimate_speakers(1, &vec![], 8), 1);
    assert_eq!(estimate_speakers(0, &vec![], 8), 0);
}

#[test]
fn means_move_until_nothing_changes() {
    assert_eq!(last_max(&vec![1, 3, 3, 2]), 2);
    assert_eq!(farthest_point(&vec![vec![1, 5], vec![5, 2], vec![0, 0]]), 1);
    assert_eq!(farthest_point(&vec![vec![1, 5], vec![3, 3]]), 0);
    assert_eq!(remotest_point(&vec![vec![1, 5], vec![3, 3]]), 1);
    assert_eq!(remotest_point(&vec![vec![4, 2], vec![2, 9], vec![1, 9]]), 1);
    assert_eq!(remotest_point(&vec![vec![-7]]), 0);
    let mut k = KMeans::new(3);
    assert!(k.assign(&vec![vec![1, 2], vec![2, 1], vec![0, 0]]));
    assert_eq!(k.labels, vec![1, 0, 1]);
    assert!(!k.assign(&vec![vec![1, 2], vec![2, 1], vec![0, 1]]));
    assert_eq!(cluster_sizes(&k.labels, 3), vec![1, 2, 0]);
    let mut n = 0;
    let mut k = KMeans::new(1);
    loop {
        n += 1;
        if !k.assign(&vec![if n % 2 == 1 { vec![0, 1] } else { vec![1, 0] }]) {
            break;
        }
    }
    assert_eq!(n, 150);
}

#[test]
fn clusters_are_planned() {
    assert!(matches!(plan_clusters(3, 4), ClusterPlan::Known(l) if l == vec![0, 1, 2]));
    assert!(matches!(plan_clusters(3, 1), ClusterPlan::Known(l) if l == vec![0, 0, 0]));
    assert!(matches!(plan_clusters(800, 2), ClusterPlan::Join));
    assert!(matches!(plan_clusters(801, 2), ClusterPlan::Means));
}

#[test]
fn labels_are_smoothed() {
    assert_eq!(smooth(&vec![1, 1, 0, 1, 1], 3), vec![1, 1, 1, 1, 1]);
    assert_eq!(smooth(&vec![2, 2, 2], 1), vec![2, 2, 2]);
    let out = smooth(&vec![0, 1], 3);
    assert!(out.iter().all(|l| *l < 2));
    assert!(smooth(&vec![], 3).is_empty());
}

// ── Turns ───────────────────────────────────────────────────────────────────

#[test]
fn turns_of_one_speaker_are_merged() {
    let out = merge_adjacent(vec![
        turn(0, 1000, "A"),
        turn(2000, 3000, "A"),
        turn(4001, 5000, "A"),
        turn(5000, 6000, "B"),
        turn(5500, 5600, "B"),
    ]);
    assert_eq!(
        shown(&out),
        vec![(0, 3000, "A".into()), (4001, 5000, "A".into()), (5000, 5600, "B".into())]
    );
    let once = shown(&out);
    assert_eq!(shown(&merge_adjacent(out)), once);
    assert!(merge_adjacent(vec![]).is_empty());
}

#[test]
fn short_turns_go_to_the_longer_neighbour() {
    let out = merge_short_turns(
        vec![turn(0, 2000, "A"), turn(2000, 3000, "B"), turn(3000, 6000, "C")],
        1500,
    );
    assert_eq!(shown(&out), vec![(0, 2000, "A".into()), (2000, 6000, "C".into())]);
    let out = merge_short_turns(
        vec![turn(0, 2000, "A"), turn(2000, 3000, "B"), turn(3000, 5000, "C")],
        1500,
    );
    assert_eq!(shown(&out), vec![(0, 3000, "A".into()), (3000, 5000, "C".into())]);
    let out = merge_short_turns(vec![turn(0, 10, "A"), turn(10, 30, "B")], 1500);
    assert_eq!(shown(&out), vec![(0, 30, "B".into())]);
    assert_eq!(shown(&merge_short_turns(vec![turn(0, 1, "A")], 1500)), vec![(0, 1, "A".into())]);
}

#[test]
fn labels_and_times_are_written() {
    assert_eq!(speaker_label(0), "SPEAKER_00");
    assert_eq!(speaker_label(12), "SPEAKER_12");
    assert_eq!(speaker_label(123), "SPEAKER_123");
    assert_eq!(sample_time(16_000), 1000);
    assert_eq!(sample_time(7), 0);
    assert_eq!(sample_time(8), 1);
    assert_eq!(sample_time(270), 17);
}

// ── Segmentation ────────────────────────────────────────────────────────────

#[test]
fn windows_cover_the_recording() {
    assert!(segmentation_windows(0).is_empty());
    assert_eq!(segmentation_windows(1), vec![(0, 1)]);
    assert_eq!(segmentation_windows(160_000), vec![(0, 160_000)]);
    assert_eq!(segmentation_windows(160_001), vec![(0, 160_000), (80_000, 160_001)]);
    assert_eq!(
        segmentation_windows(300_000),
        vec![(0, 160_000), (80_000, 240_000), (160_000, 300_000)]
    );
}

#[test]
fn classes_are_sets_of_speakers() {
    assert_eq!(speakers_of_classes(0), 0);
    assert_eq!(speakers_of_classes(1), 0);
    for n in 1..200usize {
        assert_eq!(speakers_of_classes(1 + n * (n + 1) / 2), n);
    }
    for c in 2..2000usize {
        let exact = ((-1.0 + (1.0 + 8.0 * (c - 1) as f64).sqrt()) / 2.0).round() as usize;
        assert_eq!(speakers_of_classes(c), exact);
    }
}

#[test]
fn frames_with_one_speaker_are_marked() {
    let mut marks = blank_frames(540);
    assert_eq!(marks.len(), 2 + 593);
    // Three frames of four classes: silence, first speaker, both, first speaker twice.
    let keys = vec![9, 0, 0, 0, 0, 5, 1, 1, 0, 0, 0, 7, 1];
    mark_window(&mut marks, 270, &keys, 4, 4, 2);
    assert_eq!(&marks[0..6], &[false, false, true, false, false, false]);
    // Of equal classes the last counts.
    mark_window(&mut marks, 0, &vec![1, 1, 1, 0], 1, 4, 2);
    assert!(marks[0]);
    mark_window(&mut marks, 270 * 594, &vec![0, 1, 0, 1], 2, 2, 1);
    assert!(marks[594]);
}

#[test]
fn runs_of_marked_frames_are_segments() {
    let mut marks = vec![false; 40];
    for f in 2..14 {
        marks[f] = true;
    }
    for f in 20..22 {
        marks[f] = true;
    }
    // Twelve frames last 3240 samples, two do not last long enough.
    assert_eq!(speech_segments(&marks, 40 * 270), vec![(540, 3780)]);
    for f in 26..40 {
        marks[f] = true;
    }
    assert_eq!(speech_segments(&marks, 40 * 270), vec![(540, 3780), (7020, 10_800)]);
    assert_eq!(speech_segments(&marks, 10_700), vec![(540, 3780), (7020, 10_700)]);
    assert!(speech_segments(&vec![], 5000).is_empty());
}

#[test]
fn scores_become_segments() {
    // Two windows of ten seconds, five seconds apart; silence, or one speaker of one.
    let n = 240_000;
    assert_eq!(segmentation_windows(n).len(), 2);
    let window = |from: usize, to: usize| WindowScores {
        keys: (0..593).flat_map(|f| if f >= from && f < to { [0, 1] } else { [1, 0] }).collect(),
        frames: 593,
        classes: 2,
    };
    let windows = vec![window(10, 300), window(100, 110)];
    // The second window starts in frame 296.
    assert_eq!(pyannote_segments(n, &windows), vec![(2700, 81_000)]);
    let windows = vec![window(10, 300), window(0, 593)];
    assert_eq!(pyannote_segments(n, &windows), vec![(2700, 240_000)]);
    assert!(pyannote_segments(0, &vec![]).is_empty());
}

#[test]
fn segments_become_turns() {
    assert_eq!(check_found(0), Err(WorkerError::NoSpeech));
    assert_eq!(check_found(1), Ok(()));
    for asked in [None, Some(1)] {
        assert!(matches!(
            run_pyannote_pipeline(&vec![], &vec![], asked, &vec![]),
            Err(e) if e == WorkerError::NoUsableSpeech
        ));
    }
    let segments = vec![(0, 16_000), (24_000, 40_000), (40_000, 48_000)];
    let dist = table(&[0.0, 0.25, 3.0]);
    let two = vec![(0, 2500, "SPEAKER_00".to_string()), (2500, 3000, "SPEAKER_01".to_string())];
    let out = run_pyannote_pipeline(&segments, &dist, Some(2), &vec![]);
    assert_eq!(shown(&out.ok().unwrap()), two);
    // Without a number, one rise: two speakers.
    let out = run_pyannote_pipeline(&segments, &dist, None, &vec![1]);
    assert_eq!(shown(&out.ok().unwrap()), two);
    assert_eq!(WorkerError::NoSpeech.message(), "no speech detected");
    assert_eq!(WorkerError::NoUsableSpeech.message(), "no usable speech segments");
}

#[test]
fn as_many_speakers_as_asked_for() {
    let segments: Vec<(usize, usize)> = (0..6).map(|i| (i * 32_000, i * 32_000 + 16_000)).collect();
    let dist = table(&[0.0, 0.5, 4.0, 4.25, 9.0, 9.125]);
    for asked in 1..9 {
        let turns = run_pyannote_pipeline(&segments, &dist, Some(asked), &vec![]).ok().unwrap();
        let mut speakers: Vec<&str> = turns.iter().map(|t| t.speaker.as_str()).collect();
        speakers.sort();
        speakers.dedup();
        assert_eq!(speakers.len(), asked.min(6));
    }
}

#[test]
fn windows_become_turns() {
    assert_eq!(fixed_windows(39_999), Vec::<usize>::new());
    assert_eq!(fixed_windows(40_000), vec![0]);
    assert_eq!(fixed_windows(80_000), vec![0, 20_000, 40_000]);
    assert!(matches!(run_fixed_window_pipeline(&vec![], &vec![]), Err(e) if e == WorkerError::NoSpeech));
    let starts = vec![0, 20_000, 40_000, 200_000, 220_000, 240_000];
    let out = run_fixed_window_pipeline(&starts, &vec![0, 0, 0, 1, 1, 1]).ok().unwrap();
    assert_eq!(
        shown(&out),
        vec![(0, 5000, "SPEAKER_00".into()), (12_500, 17_500, "SPEAKER_01".into())]
    );
}

#[test]
fn numbers_of_speakers() {
    assert_eq!(requested_speakers(None), None);
    assert_eq!(requested_speakers(Some(-4)), Some(1));
    assert_eq!(requested_speakers(Some(3)), Some(3));
    assert_eq!(group_target(Some(3), 2), Some(2));
    assert_eq!(group_target(None, 2), None);
    assert_eq!(fallback_target(None, 5), 2);
    assert_eq!(fallback_target(None, 1), 1);
    assert_eq!(fallback_target(Some(4), 5), 4);
    assert!(uses_segmentation("m.onnx", true));
    assert!(!uses_segmentation("m.onnx", false));
    assert!(!uses_segmentation("", true));
}

// ── Recordings ──────────────────────────────────────────────────────────────

#[test]
fn the_first_audio_track_is_read() {
    let track = |id: u32, has_codec: bool, sample_rate: Option<u32>, channels: Option<usize>| TrackInfo {
        id,
        has_codec,
        sample_rate,
        channels,
    };
    let t = select_track(&[
        track(1, false, Some(8000), None),
        track(2, true, Some(44_100), None),
        track(3, true, Some(16_000), Some(2)),
    ])
    .ok()
    .unwrap();
    assert_eq!((t.id, t.sample_rate, t.channels), (2, 44_100, 1));
    let e = select_track(&[track(1, false, None, None)]).err().unwrap();
    assert_eq!(e.message(), "no audio track found");
    assert_eq!(e.worker_message(), "no audio track");
    let e = select_track(&[track(1, true, None, None), track(2, true, Some(1), None)]).err().unwrap();
    assert_eq!(e.message(), "unknown sample rate");
    assert_eq!(e.worker_message(), "audio track has no sample rate");
}

#[test]
fn packets_are_read_to_the_end() {
    assert_eq!(after_packet(&PacketOutcome::Packet { track: 2 }, 2), ReadStep::Take);
    assert_eq!(after_packet(&PacketOutcome::Packet { track: 1 }, 2), ReadStep::Skip);
    assert_eq!(after_packet(&PacketOutcome::EndOfFile, 2), ReadStep::Finish);
    assert_eq!(after_packet(&PacketOutcome::ResetRequired, 2), ReadStep::Skip);
    assert_eq!(after_packet(&PacketOutcome::Failed, 2), ReadStep::Fail);
    assert_eq!(after_decode(&DecodeOutcome::Decoded), ReadStep::Take);
    assert_eq!(after_decode(&DecodeOutcome::Malformed), ReadStep::Skip);
    assert_eq!(after_decode(&DecodeOutcome::Failed), ReadStep::Fail);
}

#[test]
fn resampling_goes_chunk_by_chunk() {
    assert_eq!(resample_plan(5000, 16_000), None);
    assert_eq!(resample_plan(0, 44_100), Some(vec![]));
    assert_eq!(resample_plan(2100, 44_100), Some(vec![(0, 1024), (1024, 2048), (2048, 2100)]));
    assert_eq!(resample_plan(1024, 8000), Some(vec![(0, 1024)]));
}

#[test]
fn segments_get_the_speaker_with_the_most_overlap() {
    let turns = vec![turn(0, 1000, "A"), turn(1000, 3000, "B"), turn(3000, 5000, "C")];
    let mut given = seg(500, 1200);
    given.speaker = Some("old".into());
    let out = assign_speakers(
        &[given, seg(900, 2000), seg(2000, 4000), seg(6000, 7000), seg(5, 5)],
        &turns,
    );
    let speakers: Vec<Option<&str>> = out.iter().map(|s| s.speaker.as_deref()).collect();
    assert_eq!(speakers, vec![Some("A"), Some("B"), Some("B"), None, None]);
    assert_eq!(out[1].text, "x");
    assert_eq!(list_speakers(&out), vec!["A", "B"]);
    let again: Vec<Option<String>> =
        assign_speakers(&out, &turns).into_iter().map(|s| s.speaker).collect();
    assert_eq!(again, out.iter().map(|s| s.speaker.clone()).collect::<Vec<_>>());
    assert!(list_speakers(&[]).is_empty());
    // The overlaps of all turns of a speaker count together.
    let turns = vec![turn(0, 3000, "A"), turn(3000, 7000, "B"), turn(7000, 10_000, "A")];
    assert_eq!(assign_speakers(&[seg(0, 10_000)], &turns)[0].speaker.as_deref(), Some("A"));
    // Of speakers with as much overlap the first counts.
    let turns = vec![turn(0, 3000, "B"), turn(3000, 5000, "A"), turn(5000, 6000, "A")];
    assert_eq!(assign_speakers(&[seg(0, 6000)], &turns)[0].speaker.as_deref(), Some("B"));
    assert_eq!(assign_speakers(&[seg(-500, 100)], &turns)[0].speaker.as_deref(), Some("B"));
    assert_eq!(assign_speakers(&[seg(-500, -100)], &turns)[0].speaker, None);
}
