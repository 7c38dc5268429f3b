//! The state of the service.

use vstd::prelude::*;

use crate::auth::{AuthConfig, AuthView};
use crate::job::{JobStore, JobStoreView, JobView};
use crate::slot::Slot;

verus! {

/// The state of the service.
pub struct AppState {
    pub jobs: JobStore,
    /// Held by the transcription that runs: only one runs at a time.
    pub transcribe_slot: Slot,
    /// How many tokens a summary may have at most.
    pub summary_tokens: u32,
    /// The port of the server with the language model, if it was started.
    pub llama_port: Option<u16>,
    pub auth: AuthConfig,
}

/// The values of the state.
#[verifier::ext_equal]
pub struct AppView {
    pub jobs: JobStoreView,
    pub slot_free: bool,
    pub summary_tokens: u32,
    pub llama_port: Option<u16>,
    pub auth: AuthView,
}

impl View for AppState {
    type V = AppView;

    open spec fn view(&self) -> AppView {
        AppView {
            jobs: self.jobs@,
            slot_free: self.transcribe_slot.is_free(),
            summary_tokens: self.summary_tokens,
            llama_port: self.llama_port,
            auth: self.auth@,
        }
    }
}

impl AppState {
    /// Its parts are well-formed.
    pub open spec fn wf(&self) -> bool {
        self.jobs.wf() && self.transcribe_slot.wf()
    }

    /// The state at the start: no jobs, the slot free.
    pub fn new(auth: AuthConfig, summary_tokens: u32, llama_port: Option<u16>) -> (state: AppState)
        ensures
            state.wf(),
            state@ == (AppView {
                jobs: JobStoreView::none(),
                slot_free: true,
                summary_tokens,
                llama_port,
                auth: auth@,
            }),
    {
        AppState {
            jobs: JobStore::new(),
            transcribe_slot: Slot::new(),
            summary_tokens,
            llama_port,
            auth,
        }
    }
}

impl AppView {
    /// There is a job with the given identifier.
    pub open spec fn has_job(self, id: Seq<char>) -> bool {
        self.jobs.jobs.dom().contains(id)
    }

    /// The state with one job replaced.
    pub open spec fn with_job(self, id: Seq<char>, job: JobView) -> AppView {
        AppView { jobs: self.jobs.updated(id, job), ..self }
    }
}

} // verus!
