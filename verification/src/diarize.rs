//! Telling the speakers of a recording apart: the models it needs, what the worker
//! process is asked and answers, and what becomes of the job.

use vstd::prelude::*;

use crate::audio;
use crate::job::{self, DiarizeStatus, Job, JobView, Segment};
use crate::models_dir::ModelsDir;
use crate::worker::{self, Turn, TurnView};

verus! {

// ── Model files ─────────────────────────────────────────────────────────────

/// The file of the embedding model: the best one that is there, else the last choice.
pub open spec fn emb_model_name(models: &ModelsDir) -> Seq<char> {
    if models.holds("3dspeaker_speech_eres2netv2_sv_zh-cn_16k-common.onnx"@) {
        "3dspeaker_speech_eres2netv2_sv_zh-cn_16k-common.onnx"@
    } else if models.holds("3dspeaker_speech_eres2net_large_sv_zh-cn_3dspeaker_16k.onnx"@) {
        "3dspeaker_speech_eres2net_large_sv_zh-cn_3dspeaker_16k.onnx"@
    } else if models.holds("3dspeaker_speech_eres2net_sv_en_voxceleb_16k.onnx"@) {
        "3dspeaker_speech_eres2net_sv_en_voxceleb_16k.onnx"@
    } else {
        "sherpa-onnx-wespeaker-emb.onnx"@
    }
}

/// The path of the embedding model. Preference order: ERes2NetV2, ERes2Net large,
/// ERes2Net English, WeSpeaker ResNet34.
pub fn emb_model_path(models_dir: &ModelsDir) -> (path: String)
    ensures
        path@ == models_dir.path_of(emb_model_name(models_dir)),
{
    if models_dir.has("3dspeaker_speech_eres2netv2_sv_zh-cn_16k-common.onnx") {
        models_dir.join("3dspeaker_speech_eres2netv2_sv_zh-cn_16k-common.onnx")
    } else if models_dir.has("3dspeaker_speech_eres2net_large_sv_zh-cn_3dspeaker_16k.onnx") {
        models_dir.join("3dspeaker_speech_eres2net_large_sv_zh-cn_3dspeaker_16k.onnx")
    } else if models_dir.has("3dspeaker_speech_eres2net_sv_en_voxceleb_16k.onnx") {
        models_dir.join("3dspeaker_speech_eres2net_sv_en_voxceleb_16k.onnx")
    } else {
        models_dir.join("sherpa-onnx-wespeaker-emb.onnx")
    }
}

/// The path of the segmentation model.
pub fn seg_model_path(models_dir: &ModelsDir) -> (path: String)
    ensures
        path@ == models_dir.path_of("sherpa-onnx-pyannote-seg.onnx"@),
{
    models_dir.join("sherpa-onnx-pyannote-seg.onnx")
}

/// Whether the models that diarization needs are there.
pub open spec fn can_diarize(models: &ModelsDir) -> bool {
    models.holds("sherpa-onnx-pyannote-seg.onnx"@) && models.holds(emb_model_name(models))
}

/// Whether the models that diarization needs are there: the segmentation model and one
/// of the embedding models.
pub fn models_available(models_dir: &ModelsDir) -> (yes: bool)
    ensures
        yes == can_diarize(models_dir),
{
    models_dir.has("sherpa-onnx-pyannote-seg.onnx") && (models_dir.has(
        "3dspeaker_speech_eres2netv2_sv_zh-cn_16k-common.onnx",
    ) || models_dir.has("3dspeaker_speech_eres2net_large_sv_zh-cn_3dspeaker_16k.onnx")
        || models_dir.has("3dspeaker_speech_eres2net_sv_en_voxceleb_16k.onnx") || models_dir.has(
        "sherpa-onnx-wespeaker-emb.onnx",
    ))
}

/// Diarization is available exactly if the segmentation model is there and any of the
/// embedding models is.
pub proof fn any_embedding_model_will_do(models: &ModelsDir)
    ensures
        can_diarize(models) <==> {
            &&& models.holds("sherpa-onnx-pyannote-seg.onnx"@)
            &&& {
                ||| models.holds("3dspeaker_speech_eres2netv2_sv_zh-cn_16k-common.onnx"@)
                ||| models.holds("3dspeaker_speech_eres2net_large_sv_zh-cn_3dspeaker_16k.onnx"@)
                ||| models.holds("3dspeaker_speech_eres2net_sv_en_voxceleb_16k.onnx"@)
                ||| models.holds("sherpa-onnx-wespeaker-emb.onnx"@)
            }
        },
{
}

// ── The worker process ──────────────────────────────────────────────────────

/// What the worker process is asked.
pub struct WorkerRequest {
    pub audio_path: String,
    pub emb_model: String,
    pub seg_model: String,
    pub num_speakers: Option<i32>,
}

/// A number of speakers as the worker reads it, in 32 bits with a sign.
pub open spec fn signed_count(n: u32) -> int {
    if n <= i32::MAX {
        n as int
    } else {
        n - 0x1_0000_0000
    }
}

/// What the worker process is asked for the recording in the given file.
pub fn worker_request(audio_path: String, models: &ModelsDir, num_speakers: Option<u32>) -> (out: WorkerRequest)
    ensures
        out.audio_path == audio_path,
        out.emb_model@ == models.path_of(emb_model_name(models)),
        out.seg_model@ == models.path_of("sherpa-onnx-pyannote-seg.onnx"@),
        match num_speakers {
            Some(n) => out.num_speakers matches Some(k) && k == signed_count(n),
            None => out.num_speakers is None,
        },
{
    let count: Option<i32> = match num_speakers {
        Some(n) => {
            let k: i64 = if n <= 0x7fff_ffff { n as i64 } else { n as i64 - 0x1_0000_0000 };
            Some(k as i32)
        },
        None => None,
    };
    WorkerRequest {
        audio_path,
        emb_model: emb_model_path(models),
        seg_model: seg_model_path(models),
        num_speakers: count,
    }
}

/// What the worker process answers.
pub struct WorkerResponse {
    pub ok: bool,
    pub turns: Option<Vec<Turn>>,
    pub error: Option<String>,
}

/// How a run of the worker process ended.
pub enum WorkerRun {
    /// The file for the recording or the process could not be made ready.
    NotReady(String),
    /// The process could not be run.
    NotRun(String),
    /// The process ended with a failure.
    Exited { status: String, stderr: String },
    /// The answer could not be read.
    BadReply { cause: String, raw: String },
    /// The process answered.
    Reply(WorkerResponse),
    /// The task that ran the process panicked.
    Panicked(String),
}

/// The turns that a run of the worker gives, or the error.
pub open spec fn turns_or_error(run: WorkerRun) -> Result<Seq<TurnView>, Seq<char>> {
    match run {
        WorkerRun::NotReady(cause) => Err(cause@),
        WorkerRun::NotRun(cause) => Err("failed to run diarize-worker: "@ + cause@),
        WorkerRun::Exited { status, stderr } => Err(
            "diarize-worker exited with "@ + status@ + ": "@ + stderr@,
        ),
        WorkerRun::BadReply { cause, raw } => Err(
            "bad worker response: "@ + cause@ + "\nraw: "@ + raw@,
        ),
        WorkerRun::Reply(reply) => if reply.ok {
            Ok(
                match reply.turns {
                    Some(turns) => worker::turn_views(turns@),
                    None => Seq::empty(),
                },
            )
        } else {
            Err(
                match reply.error {
                    Some(message) => message@,
                    None => "unknown diarization error"@,
                },
            )
        },
        WorkerRun::Panicked(cause) => Err("task panicked: "@ + cause@),
    }
}

/// The turns that a run of the worker gives, or the error.
pub fn worker_turns(run: WorkerRun) -> (out: Result<Vec<Turn>, String>)
    ensures
        match out {
            Ok(turns) => turns_or_error(run) == Ok::<Seq<TurnView>, Seq<char>>(
                worker::turn_views(turns@),
            ),
            Err(message) => turns_or_error(run) == Err::<Seq<TurnView>, Seq<char>>(message@),
        },
{
    match run {
        WorkerRun::NotReady(cause) => Err(cause),
        WorkerRun::NotRun(cause) => {
            let mut message = "failed to run diarize-worker: ".to_owned();
            message.append(cause.as_str());
            Err(message)
        },
        WorkerRun::Exited { status, stderr } => {
            let mut message = "diarize-worker exited with ".to_owned();
            message.append(status.as_str());
            message.append(": ");
            message.append(stderr.as_str());
            Err(message)
        },
        WorkerRun::BadReply { cause, raw } => {
            let mut message = "bad worker response: ".to_owned();
            message.append(cause.as_str());
            message.append("\nraw: ");
            message.append(raw.as_str());
            Err(message)
        },
        WorkerRun::Reply(reply) => {
            if reply.ok {
                match reply.turns {
                    Some(turns) => Ok(turns),
                    None => {
                        let none: Vec<Turn> = Vec::new();
                        assert(worker::turn_views(none@) =~= Seq::empty());
                        Ok(none)
                    },
                }
            } else {
                match reply.error {
                    Some(message) => Err(message),
                    None => Err("unknown diarization error".to_owned()),
                }
            }
        },
        WorkerRun::Panicked(cause) => {
            let mut message = "task panicked: ".to_owned();
            message.append(cause.as_str());
            Err(message)
        },
    }
}

// ── The job ─────────────────────────────────────────────────────────────────

/// What diarization reads of a job.
pub struct Recording {
    pub audio_data: Vec<u8>,
    pub audio_ext: String,
    pub segments: Vec<Segment>,
}

impl JobView {
    /// The job while its speakers are being told apart. It keeps the recording.
    pub open spec fn diarizing(self, now: u64) -> JobView {
        JobView {
            diarize_status: DiarizeStatus::Running,
            diarize_stage: "Identifying speakers…"@,
            diarize_start: Some(now),
            ..self
        }
    }

    /// The job after the worker gave these turns for these segments.
    pub open spec fn diarized(self, segments: Seq<job::SegmentView>, turns: Seq<TurnView>) -> JobView {
        let updated = audio::with_speakers(segments, turns);
        JobView {
            segments: updated,
            diarize_speakers: audio::speakers_heard(updated),
            diarize_status: DiarizeStatus::Done,
            diarize_stage: "Done"@,
            diarize_progress: 100,
            ..self
        }
    }

    /// The job after a run of the worker on these segments.
    pub open spec fn after_worker(self, segments: Seq<job::SegmentView>, run: WorkerRun) -> JobView {
        match turns_or_error(run) {
            Ok(turns) => self.diarized(segments, turns),
            Err(message) => JobView {
                diarize_status: DiarizeStatus::Error,
                diarize_error: Some(message),
                ..self
            },
        }
    }
}

impl Job {
    /// Starts diarization: hands out a copy of the recording.
    pub fn begin_diarization(&mut self, now: u64) -> (out: Recording)
        ensures
            final(self)@ == old(self)@.diarizing(now),
            out.audio_data@ == old(self)@.audio_data,
            out.audio_ext@ == old(self)@.audio_ext,
            job::segment_views(out.segments@) == old(self)@.segments,
    {
        let ghost before = self@;
        self.diarize_status = DiarizeStatus::Running;
        self.diarize_stage = "Identifying speakers…".to_owned();
        self.diarize_start = Some(now);
        let audio_data = job::copy_bytes(&self.audio_data, 0, self.audio_data.len());
        assert(audio_data@ =~= self.audio_data@);
        assert(self@ =~= before.diarizing(now));
        Recording {
            audio_data,
            audio_ext: self.audio_ext.clone(),
            segments: job::clone_segments(&self.segments),
        }
    }

    /// Takes over what a run of the worker gave for these segments.
    pub fn end_diarization(&mut self, segments: &[Segment], run: WorkerRun)
        ensures
            final(self)@ == old(self)@.after_worker(job::segment_views(segments@), run),
    {
        let ghost before = self@;
        match worker_turns(run) {
            Ok(turns) => {
                let updated = audio::assign_speakers(segments, turns.as_slice());
                self.diarize_speakers = audio::list_speakers(updated.as_slice());
                self.segments = updated;
                self.diarize_status = DiarizeStatus::Done;
                self.diarize_stage = "Done".to_owned();
                self.diarize_progress = 100;
            },
            Err(message) => {
                self.diarize_status = DiarizeStatus::Error;
                self.diarize_error = Some(message);
            },
        }
        assert(self@ =~= before.after_worker(job::segment_views(segments@), run));
    }
}

/// The number of speakers that was asked for reaches the worker as it is.
pub proof fn counts_reach_the_worker(n: u32)
    ensures
        n <= 0x7fff_ffff ==> signed_count(n) == n,
        n > 0x7fff_ffff ==> signed_count(n) < 0,
{
}

/// The better model is used where it is there, and the one that is used is there if any is.
pub proof fn the_model_used_is_there(models: &ModelsDir)
    ensures
        models.holds("3dspeaker_speech_eres2netv2_sv_zh-cn_16k-common.onnx"@) ==> emb_model_name(models)
            == "3dspeaker_speech_eres2netv2_sv_zh-cn_16k-common.onnx"@,
        models.holds("3dspeaker_speech_eres2netv2_sv_zh-cn_16k-common.onnx"@) || models.holds(
            "3dspeaker_speech_eres2net_large_sv_zh-cn_3dspeaker_16k.onnx"@,
        ) || models.holds("3dspeaker_speech_eres2net_sv_en_voxceleb_16k.onnx"@) || models.holds(
            "sherpa-onnx-wespeaker-emb.onnx"@,
        ) ==> models.holds(emb_model_name(models)),
        !models.holds("3dspeaker_speech_eres2netv2_sv_zh-cn_16k-common.onnx"@) && models.holds(
            "3dspeaker_speech_eres2net_large_sv_zh-cn_3dspeaker_16k.onnx"@,
        ) ==> emb_model_name(models) == "3dspeaker_speech_eres2net_large_sv_zh-cn_3dspeaker_16k.onnx"@,
{
}

/// Turns come only from a reply that says so, and they are the turns of the reply; all else
/// is an error that holds the cause.
pub proof fn turns_come_from_good_replies(run: WorkerRun)
    ensures
        turns_or_error(run) matches Ok(turns) ==> {
            &&& run matches WorkerRun::Reply(reply) && reply.ok
            &&& run matches WorkerRun::Reply(reply) && (reply.turns matches Some(t) ==> turns
                == worker::turn_views(t@))
            &&& run matches WorkerRun::Reply(reply) && (reply.turns is None ==> turns.len() == 0)
        },
        run matches WorkerRun::Reply(reply) ==> (reply.ok ==> turns_or_error(run) is Ok),
        run matches WorkerRun::Reply(reply) ==> (!reply.ok ==> (reply.error matches Some(e)
            ==> turns_or_error(run) == Err::<Seq<TurnView>, Seq<char>>(e@))),
        run matches WorkerRun::NotReady(cause) ==> turns_or_error(run) == Err::<
            Seq<TurnView>,
            Seq<char>,
        >(cause@),
{
}

/// How diarization ends: the segments have the speakers that the turns give them, and
/// nothing else of them is changed; or there is an error, and the segments stay as they are.
pub proof fn diarization_ends_with_speakers_or_an_error(
    before: JobView,
    segments: Seq<job::SegmentView>,
    run: WorkerRun,
    i: int,
)
    ensures
        ({
            let after = before.after_worker(segments, run);
            match turns_or_error(run) {
                Ok(turns) => {
                    &&& after.diarize_status == DiarizeStatus::Done
                    &&& after.diarize_progress == 100
                    &&& after.segments.len() == segments.len()
                    &&& 0 <= i < segments.len() ==> {
                        &&& after.segments[i].speaker == audio::matched_speaker(segments[i], turns)
                        &&& after.segments[i].id == segments[i].id
                        &&& after.segments[i].start == segments[i].start
                        &&& after.segments[i].end == segments[i].end
                        &&& after.segments[i].text == segments[i].text
                        &&& after.segments[i].speaker_name == segments[i].speaker_name
                    }
                    &&& after.diarize_speakers == audio::speakers_heard(after.segments)
                },
                Err(message) => {
                    &&& after.diarize_status == DiarizeStatus::Error
                    &&& after.diarize_error == Some(message)
                    &&& after.segments == before.segments
                    &&& after.diarize_speakers == before.diarize_speakers
                },
            }
        }),
        before.after_worker(segments, run).status == before.status,
        before.after_worker(segments, run).summary == before.summary,
{
}

/// While the speakers are being told apart, the job says so and since when, and keeps its
/// transcript.
pub proof fn diarization_is_under_way(before: JobView, now: u64)
    ensures
        before.diarizing(now).diarize_status == DiarizeStatus::Running,
        before.diarizing(now).diarize_start == Some(now),
        before.diarizing(now).segments == before.segments,
        before.diarizing(now).status == before.status,
        before.diarizing(now).summary == before.summary,
        before.diarizing(now).filename == before.filename,
        before.diarizing(now).job_id == before.job_id,
{
}

} // verus!
