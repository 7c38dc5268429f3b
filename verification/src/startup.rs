//! What the program does when it is started.

use vstd::prelude::*;

use crate::model_download;
use crate::models_dir::ModelsDir;
use crate::text;

verus! {

/// What the program does.
#[derive(Debug, Clone, Copy, PartialEq, Eq, Structural)]
pub enum Mode {
    /// Tells speakers apart for another process.
    Worker,
    /// Fetches the models.
    DownloadModels,
    /// Serves requests.
    Serve,
}

/// What the program does by its first argument.
pub fn startup_mode(first_arg: Option<&str>) -> (mode: Mode)
    ensures
        mode == match first_arg {
            Some(arg) => if arg@ == "--worker"@ {
                Mode::Worker
            } else if arg@ == "--download-models"@ {
                Mode::DownloadModels
            } else {
                Mode::Serve
            },
            None => Mode::Serve,
        },
{
    match first_arg {
        Some(arg) => {
            if text::same_text(arg, "--worker") {
                Mode::Worker
            } else if text::same_text(arg, "--download-models") {
                Mode::DownloadModels
            } else {
                Mode::Serve
            }
        },
        None => Mode::Serve,
    }
}

/// How many tokens a summary may have at most: what is set, or 2048.
pub open spec fn tokens_set(setting: Option<Seq<char>>) -> nat {
    match setting {
        Some(s) => match text::unsigned_value(s) {
            Some(n) if n <= u32::MAX => n,
            _ => 2048,
        },
        None => 2048,
    }
}

/// How many tokens a summary may have at most: what is set, or 2048.
pub fn summary_tokens(setting: Option<&str>) -> (tokens: u32)
    ensures
        tokens == tokens_set(
            match setting {
                Some(s) => Some(s@),
                None => None,
            },
        ),
{
    match setting {
        Some(s) => match text::parse_unsigned(&text::chars_of(s), u32::MAX as u64) {
            Some(n) => n as u32,
            None => 2048,
        },
        None => 2048,
    }
}

/// Whether the service is launched for the first time here, so that its models are
/// fetched before it starts: the ONNX Runtime library is not there.
pub fn first_launch(models: &ModelsDir) -> (yes: bool)
    ensures
        yes == !models.holds(model_download::dylib_name(models.platform)),
{
    !models.has(model_download::dylib_file(models.platform))
}

/// Whether the service can start: its models are there. Otherwise the error.
pub fn check_models(models: &ModelsDir) -> (out: Result<(), String>)
    ensures
        if models.holds(model_download::dylib_name(models.platform)) {
            out is Ok
        } else {
            out matches Err(message) && message@ == "Models not found at "@ + models.path@
                + ".\nRun:  murmur --download-models"@
        },
{
    if models.has(model_download::dylib_file(models.platform)) {
        Ok(())
    } else {
        let mut message = "Models not found at ".to_owned();
        message.append(models.path.as_str());
        message.append(".\nRun:  murmur --download-models");
        Err(message)
    }
}

/// What is fetched at the first launch lets the service start: the library that it looks
/// for is among the files that are fetched.
pub proof fn the_first_launch_fetches_the_library(models: &ModelsDir)
    requires
        !models.holds(model_download::dylib_name(models.platform)),
    ensures
        model_download::missing(
            models,
            model_download::required_files(models),
        ).contains(model_download::runtime_library(models)),
        model_download::runtime_library(models).name == model_download::dylib_name(models.platform),
{
    let list = model_download::required_files(models);
    let d = model_download::runtime_library(models);
    assert(list[3] == d);
    model_download::what_is_there_is_not_fetched(models, d);
}

/// A number that is set counts, if it fits; what is no number counts as not set.
pub proof fn a_set_number_counts(n: nat, digits: Seq<char>)
    ensures
        n <= u32::MAX ==> tokens_set(Some(text::decimal(n))) == n,
        n > u32::MAX ==> tokens_set(Some(text::decimal(n))) == 2048,
        text::unsigned_value(digits) is None ==> tokens_set(Some(digits)) == 2048,
        tokens_set(None) == 2048,
{
    text::decimal_reads_back(n);
}

} // verus!
