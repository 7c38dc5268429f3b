//! The server process with the language model: how it is started and watched.

use vstd::prelude::*;

use crate::model_download;
use crate::models_dir::{ModelsDir, Platform};
use crate::text;

verus! {

/// A command: the program and its arguments.
pub struct ServerCommand {
    pub program: String,
    pub args: Vec<String>,
}

/// The arguments of the server.
pub open spec fn server_args(port: u16) -> Seq<Seq<char>> {
    seq![
        "--server"@,
        "--host"@,
        "127.0.0.1"@,
        "--port"@,
        text::decimal(port as nat),
        "-c"@,
        "8192"@,
        "-t"@,
        "8"@,
    ]
}

/// The command that starts the server. On Linux it is run by the shell.
pub fn server_command(models_dir: &ModelsDir, port: u16) -> (out: ServerCommand)
    ensures
        ({
            let cli = models_dir.path_of("llamafile"@);
            match models_dir.platform {
                Platform::Linux => {
                    &&& out.program@ == "sh"@
                    &&& text::texts(out.args@) == seq![cli] + server_args(port)
                },
                _ => {
                    &&& out.program@ == cli
                    &&& text::texts(out.args@) == server_args(port)
                },
            }
        }),
{
    let cli = model_download::llamafile_path(models_dir);
    let mut args: Vec<String> = Vec::new();
    let program: String = match models_dir.platform {
        Platform::Linux => {
            args.push(cli.clone());
            "sh".to_owned()
        },
        _ => cli.clone(),
    };
    args.push("--server".to_owned());
    args.push("--host".to_owned());
    args.push("127.0.0.1".to_owned());
    args.push("--port".to_owned());
    args.push(text::decimal_text(port as u64));
    args.push("-c".to_owned());
    args.push("8192".to_owned());
    args.push("-t".to_owned());
    args.push("8".to_owned());
    assert(match models_dir.platform {
        Platform::Linux => text::texts(args@) =~= seq![cli@] + server_args(port),
        _ => text::texts(args@) =~= server_args(port),
    });
    ServerCommand { program, args }
}

/// The directories in which the server looks for libraries, before those that are set.
pub open spec fn library_dirs(arch: Seq<char>) -> Seq<char> {
    "/usr/local/cuda/lib64:/usr/local/nvidia/lib64:/lib/"@ + arch + "-linux-gnu:/usr/lib/"@ + arch
        + "-linux-gnu"@
}

/// The directories in which the server looks for libraries: those of the graphics
/// drivers, then those that are set.
pub fn library_path(arch: &str, existing: &str) -> (out: String)
    ensures
        out@ == if existing@.len() == 0 {
            library_dirs(arch@)
        } else {
            library_dirs(arch@) + ":"@ + existing@
        },
{
    let mut out = "/usr/local/cuda/lib64:/usr/local/nvidia/lib64:/lib/".to_owned();
    out.append(arch);
    out.append("-linux-gnu:/usr/lib/");
    out.append(arch);
    out.append("-linux-gnu");
    if text::chars_of(existing).len() > 0 {
        out.append(":");
        out.append(existing);
    }
    out
}

/// What a look at the server process shows.
#[derive(Debug, Clone, Copy, PartialEq, Eq, Structural)]
pub enum ServerLook {
    Running,
    Exited,
    /// The look failed.
    Unknown,
}

/// What the watch over the server does after a look.
#[derive(Debug, Clone, Copy, PartialEq, Eq, Structural)]
pub struct WatchStep {
    /// The watch goes on.
    pub again: bool,
    /// The server counts as alive.
    pub alive: bool,
}

/// The watch goes on while the server runs. The server counts as dead once it was seen
/// to have exited; a failed look ends the watch and leaves the server as it was.
pub fn after_look(look: ServerLook, alive: bool) -> (step: WatchStep)
    ensures
        step.again == (look == ServerLook::Running),
        step.alive == (alive && look != ServerLook::Exited),
{
    match look {
        ServerLook::Running => WatchStep { again: true, alive },
        ServerLook::Exited => WatchStep { again: false, alive: false },
        ServerLook::Unknown => WatchStep { again: false, alive },
    }
}

/// The error for a server that could not be started.
pub fn spawn_error(cause: &str) -> (message: String)
    ensures
        message@ == "failed to spawn llamafile: "@ + cause@,
{
    let mut message = "failed to spawn llamafile: ".to_owned();
    message.append(cause);
    message
}

/// The server listens on the port that it is given, on this machine only.
pub proof fn the_server_listens_on_its_port(port: u16)
    ensures
        server_args(port).len() == 9,
        server_args(port)[0] == "--server"@,
        server_args(port)[1] == "--host"@ && server_args(port)[2] == "127.0.0.1"@,
        server_args(port)[3] == "--port"@,
        text::unsigned_value(server_args(port)[4]) == Some(port as nat),
{
    text::decimal_reads_back(port as nat);
}

} // verus!
