use murmur::job::{
    DiarizeStatus, Job, JobStatus, JobStore, Segment, SegmentEvent, SummaryStatus, MAX_JOBS,
};

#[test]
fn insert_and_get_roundtrip() {
    let mut store = JobStore::new();
    let id = store.insert("a.mp3".into(), "small".into());

    let retrieved = store.get(&id).expect("job should exist");
    assert_eq!(retrieved.job_id, id);
}

#[test]
fn get_missing_returns_none() {
    let store = JobStore::new();
    assert!(store.get("nonexistent").is_none());
}

#[test]
fn status_defaults_to_uploaded() {
    let mut store = JobStore::new();
    let id = store.insert("b.mp3".into(), "small".into());
    assert_eq!(store.get(&id).unwrap().status, JobStatus::Uploaded);
}

#[test]
fn diarize_status_defaults_to_idle() {
    let mut store = JobStore::new();
    let id = store.insert("c.mp3".into(), "small".into());
    assert_eq!(store.get(&id).unwrap().diarize_status, DiarizeStatus::Idle);
}

#[test]
fn broadcast_sender_survives_no_receivers() {
    let mut store = JobStore::new();
    let id = store.insert("d.mp3".into(), "small".into());
    let tx = store.get(&id).unwrap().tx.clone();
    // sending with no receivers should not panic
    let _ = tx.send(SegmentEvent::Done { total_segments: 0 });
}

#[test]
fn identifiers_are_plain_uuids() {
    let mut store = JobStore::new();
    let a = store.insert("a.mp3".into(), "small".into());
    let b = store.insert("a.mp3".into(), "small".into());
    assert_ne!(a, b);
    assert_eq!(a.len(), 32);
    assert!(a.chars().all(|c| c.is_ascii_digit() || ('a'..='f').contains(&c)));
    assert_eq!(store.get(&a).unwrap().filename, "a.mp3");
    assert_eq!(store.get(&a).unwrap().model_name, "small");
}

#[test]
fn the_oldest_job_makes_room() {
    let mut store = JobStore::new();
    let mut ids = Vec::new();
    for i in 0..MAX_JOBS {
        ids.push(store.insert(format!("{}.mp3", i), "small".into()));
    }
    assert_eq!(MAX_JOBS, 20);
    assert!(store.get(&ids[0]).is_some());
    let next = store.insert("next.mp3".into(), "small".into());
    assert!(store.get(&ids[0]).is_none());
    assert!(store.get(&ids[1]).is_some());
    assert!(store.get(&next).is_some());
    store.insert("last.mp3".into(), "small".into());
    assert!(store.get(&ids[1]).is_none());
    assert!(store.get(&ids[2]).is_some());
}

#[test]
fn the_newest_jobs_are_held() {
    let mut store = JobStore::new();
    let name = |i: usize| format!("job-{}", i);
    for n in 0..45 {
        store.insert_with_id(name(n), format!("{}.mp3", n), "small".into());
        if let Some(job) = store.get_mut(&name(n / 2)) {
            job.model_name = format!("changed-{}", n);
        }
        for i in 0..n + 1 {
            assert_eq!(store.get(&name(i)).is_some(), i + MAX_JOBS > n);
        }
    }
    for i in 25..45 {
        let job = store.get(&name(i)).unwrap();
        assert_eq!((job.job_id.as_str(), job.filename.as_str()), (name(i).as_str(), format!("{}.mp3", i).as_str()));
        assert_eq!(job.model_name, "small");
    }
    store.get_mut(&name(30)).unwrap().model_name = "other".into();
    store.insert_with_id(name(45), "45.mp3".into(), "small".into());
    assert_eq!(store.get(&name(30)).unwrap().model_name, "other");
    assert!(store.get(&name(25)).is_none());
}

#[test]
fn jobs_change_in_place() {
    let mut store = JobStore::new();
    let a = store.insert("a.mp3".into(), "small".into());
    let b = store.insert("b.mp3".into(), "small".into());
    store.get_mut(&a).unwrap().status = JobStatus::Done;
    assert_eq!(store.get(&a).unwrap().status, JobStatus::Done);
    assert_eq!(store.get(&b).unwrap().status, JobStatus::Uploaded);
    assert!(store.get_mut("none").is_none());
}

#[test]
fn inserting_under_a_known_identifier_replaces_the_job() {
    let mut store = JobStore::new();
    store.insert_with_id("x".into(), "a.mp3".into(), "small".into());
    store.insert_with_id("x".into(), "b.mp3".into(), "tiny".into());
    assert_eq!(store.get("x").unwrap().filename, "b.mp3");
}

#[test]
fn reset_keeps_the_recording() {
    let mut job = Job::new("id".into(), "a.mp3".into(), "small".into());
    job.audio_data = vec![1, 2, 3];
    job.audio_ext = ".mp3".into();
    job.status = JobStatus::Error;
    job.error = Some("bad".into());
    job.segments = vec![Segment {
        id: 0,
        start: 0,
        end: 1,
        text: "x".into(),
        speaker: None,
        speaker_name: None,
    }];
    job.diarize_status = DiarizeStatus::Done;
    job.diarize_speakers = vec!["SPEAKER_00".into()];
    job.diarize_progress = 100;
    job.diarize_start = Some(5);
    job.summary_status = SummaryStatus::Done;
    job.summary = Some("s".into());
    let mut old = job.tx.subscribe();
    job.reset();
    assert_eq!(job.audio_data, vec![1, 2, 3]);
    assert_eq!(job.audio_ext, ".mp3");
    assert_eq!(job.filename, "a.mp3");
    assert_eq!(job.status, JobStatus::Uploaded);
    assert_eq!(job.error, None);
    assert!(job.segments.is_empty());
    assert_eq!(job.diarize_status, DiarizeStatus::Idle);
    assert!(job.diarize_speakers.is_empty());
    assert_eq!(job.diarize_progress, 0);
    assert_eq!(job.diarize_start, None);
    assert_eq!(job.summary_status, SummaryStatus::Idle);
    assert_eq!(job.summary, None);
    // The channel is a new one: the old listener hears that it was closed.
    assert!(job.tx.send(SegmentEvent::Done { total_segments: 0 }).is_err());
    assert!(matches!(
        old.try_recv(),
        Err(tokio::sync::broadcast::error::TryRecvError::Closed)
    ));
}

#[test]
fn new_channels_are_other_channels() {
    let mut job = Job::new("id".into(), "a.mp3".into(), "small".into());
    let (tx, summary_tx) = (job.tx.clone(), job.summary_tx.clone());
    job.reset();
    assert!(!job.tx.same_channel(&tx));
    assert!(job.summary_tx.same_channel(&summary_tx));
    let tx = job.tx.clone();
    job.renew_summary_channel();
    assert!(!job.summary_tx.same_channel(&summary_tx));
    assert!(job.tx.same_channel(&tx));
}

#[test]
fn the_channel_keeps_a_backlog() {
    let job = Job::new("id".into(), "a.mp3".into(), "small".into());
    let mut rx = job.tx.subscribe();
    for i in 0..256usize {
        assert!(job.tx.send(SegmentEvent::Done { total_segments: i }).is_ok());
    }
    assert!(matches!(rx.try_recv(), Ok(SegmentEvent::Done { total_segments: 0 })));
    let mut late = job.summary_tx.subscribe();
    for _ in 0..513usize {
        let _ = job.summary_tx.send(murmur::job::SummaryEvent::Done);
    }
    assert!(matches!(
        late.try_recv(),
        Err(tokio::sync::broadcast::error::TryRecvError::Lagged(1))
    ));
}
