//! Speech transcription and speaker diarization: the rules of the service.

pub mod audio;
pub mod auth;
pub mod calendar;
pub mod clustering;
pub mod diarize;
pub mod export;
pub mod ids;
pub mod job;
pub mod laws;
pub mod llama_server;
pub mod model_download;
pub mod models;
pub mod models_dir;
pub mod path;
pub mod routes;
pub mod slot;
pub mod startup;
pub mod state;
pub mod summarize;
pub mod text;
pub mod transcribe;
pub mod worker;
