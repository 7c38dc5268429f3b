//! The requests that the service answers.

use vstd::prelude::*;

use crate::auth::{self, AuthConfig, AuthReply};

pub mod audio;
pub mod config;
pub mod diarize;
pub mod export;
pub mod progress;
pub mod status;
pub mod summarize;
pub mod transcribe;
pub mod upload;

verus! {

// ── Errors ──────────────────────────────────────────────────────────────────

/// The answer to a request that was refused.
#[derive(Debug)]
pub struct ApiError {
    pub status: u16,
    pub message: String,
}

/// The values of a refusal.
#[verifier::ext_equal]
pub struct ApiErrorView {
    pub status: u16,
    pub message: Seq<char>,
}

impl View for ApiError {
    type V = ApiErrorView;

    open spec fn view(&self) -> ApiErrorView {
        ApiErrorView { status: self.status, message: self.message@ }
    }
}

/// A refusal with the given status and message.
pub open spec fn refusal(status: u16, message: Seq<char>) -> ApiErrorView {
    ApiErrorView { status, message }
}

/// The refusal of a request for a job that there is not.
pub open spec fn no_such_job() -> ApiErrorView {
    refusal(404, "Job not found"@)
}

/// The request was answered with the given refusal.
pub open spec fn is_refused<T>(out: Result<T, ApiError>, error: ApiErrorView) -> bool {
    match out {
        Ok(_) => false,
        Err(e) => e@ == error,
    }
}

/// A refusal with the given status and message.
pub fn api_error(status: u16, message: &str) -> (error: ApiError)
    ensures
        error@ == refusal(status, message@),
{
    ApiError { status, message: message.to_owned() }
}

// ── Endpoints ───────────────────────────────────────────────────────────────

/// How much of a request to upload a recording is read, in bytes.
pub const UPLOAD_LIMIT: u64 = 2_147_483_648;

/// What a request can ask for.
#[derive(Debug, Clone, Copy, PartialEq, Eq, Structural)]
pub enum Endpoint {
    Index,
    IndexFile,
    Login,
    Logout,
    AuthCheck,
    Config,
    Upload,
    Transcribe,
    Progress,
    Diarize,
    DiarizeStatus,
    Export,
    Status,
    Summarize,
    SummarizeStream,
}

impl Endpoint {
    /// Whether a session is needed.
    pub open spec fn needs_session(self) -> bool {
        match self {
            Endpoint::Index
            | Endpoint::IndexFile
            | Endpoint::Login
            | Endpoint::Logout
            | Endpoint::AuthCheck => false,
            _ => true,
        }
    }

    /// Whether a session is needed: for everything but the page, logging in and out,
    /// and asking whether there is a session.
    pub fn is_protected(self) -> (yes: bool)
        ensures
            yes == self.needs_session(),
    {
        match self {
            Endpoint::Index
            | Endpoint::IndexFile
            | Endpoint::Login
            | Endpoint::Logout
            | Endpoint::AuthCheck => false,
            _ => true,
        }
    }

    /// The pattern of the path.
    pub open spec fn pattern(self) -> Seq<char> {
        match self {
            Endpoint::Index => "/"@,
            Endpoint::IndexFile => "/static/index.html"@,
            Endpoint::Login => "/login"@,
            Endpoint::Logout => "/logout"@,
            Endpoint::AuthCheck => "/auth/check"@,
            Endpoint::Config => "/config"@,
            Endpoint::Upload => "/upload"@,
            Endpoint::Transcribe => "/transcribe/:job_id"@,
            Endpoint::Progress => "/progress/:job_id"@,
            Endpoint::Diarize => "/diarize/:job_id"@,
            Endpoint::DiarizeStatus => "/diarize-status/:job_id"@,
            Endpoint::Export => "/export/:job_id/:fmt"@,
            Endpoint::Status => "/status/:job_id"@,
            Endpoint::Summarize => "/summarize/:job_id"@,
            Endpoint::SummarizeStream => "/summarize-stream/:job_id"@,
        }
    }

    /// The pattern of the path.
    pub fn path(self) -> (path: &'static str)
        ensures
            path@ == self.pattern(),
    {
        match self {
            Endpoint::Index => "/",
            Endpoint::IndexFile => "/static/index.html",
            Endpoint::Login => "/login",
            Endpoint::Logout => "/logout",
            Endpoint::AuthCheck => "/auth/check",
            Endpoint::Config => "/config",
            Endpoint::Upload => "/upload",
            Endpoint::Transcribe => "/transcribe/:job_id",
            Endpoint::Progress => "/progress/:job_id",
            Endpoint::Diarize => "/diarize/:job_id",
            Endpoint::DiarizeStatus => "/diarize-status/:job_id",
            Endpoint::Export => "/export/:job_id/:fmt",
            Endpoint::Status => "/status/:job_id",
            Endpoint::Summarize => "/summarize/:job_id",
            Endpoint::SummarizeStream => "/summarize-stream/:job_id",
        }
    }
}

/// The guard before a request: `None` lets it pass, otherwise it is answered with the
/// given refusal.
pub fn guard(endpoint: Endpoint, auth: &AuthConfig, cookie: Option<&str>) -> (refusal: Option<AuthReply>)
    ensures
        match refusal {
            Some(reply) => {
                &&& endpoint.needs_session()
                &&& !auth::is_authorized(auth@, auth::opt_header(cookie))
                &&& reply@ == auth::refused("unauthorized"@)
            },
            None => !endpoint.needs_session() || auth::is_authorized(
                auth@,
                auth::opt_header(cookie),
            ),
        },
{
    if endpoint.is_protected() {
        auth::require_auth(auth, cookie)
    } else {
        None
    }
}

} // verus!
