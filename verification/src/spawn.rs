//! How the remote shell's bash comes to run: from its file, or from a file in memory where the
//! file may not be run.
use vstd::prelude::*;

use crate::command::{bash_args, create_rpty_command, RptyCommand, RptyCommandConfig};
use crate::download::RptyBash;

verus! {

/// The name of the file in memory.
pub const MEMFD_NAME: &'static str = "bash-rpty";

/// The flag of `memfd_create` that asks for a file that may be run.
pub const MFD_EXEC: u32 = 0x10;

/// The flag of `execveat` that runs the file behind the descriptor itself.
pub const AT_EMPTY_PATH: i32 = 0x1000;

/// The permissions of the file in memory.
pub const MEMFD_MODE: u32 = 0o700;

/// The permissions of the file on disk.
pub const ARTIFACT_MODE: u32 = 0o744;

/// How to run a bash that was downloaded.
pub enum SpawnStep<F> {
    /// Start this command.
    Command(RptyCommand),
    /// Run the file in memory.
    Memory(F),
}

/// How to run `bash`, as `config` says.
pub fn spawn_rpty_bash<F>(bash: RptyBash<F>, config: &RptyCommandConfig) -> (r: SpawnStep<F>)
    ensures
        match bash {
            RptyBash::Path(path) => r matches SpawnStep::Command(c) && c.program@ == path@
                && c.args_text() == bash_args() && c.env_text() == config.variables()
                && c.args@.len() == 2 && c.args@[0]@ == "--noprofile"@ && c.args@[1]@ == "--norc"@
                && c.env@.len() == 3 && c.env@[0].0@ == "RPTY_TRANSPORT"@ && c.env@[0].1@ == "unix:"@
                + config.sock_path@ && c.env@[1].0@ == "TERM"@ && c.env@[1].1@ == config.term@
                && c.env@[2].0@ == "PS1"@ && c.env@[2].1@ == config.ps1@,
            RptyBash::Memfd(memfd) => r == SpawnStep::<F>::Memory(memfd),
        },
{
    match bash {
        RptyBash::Path(path) => SpawnStep::Command(create_rpty_command(path.as_str(), config)),
        RptyBash::Memfd(memfd) => SpawnStep::Memory(memfd),
    }
}

/// What came of starting the command.
#[derive(Clone, Copy, Debug, PartialEq, Eq, Structural)]
pub enum SpawnOutcome {
    Started,
    PermissionDenied,
    Failed,
}

/// Why no bash runs.
#[derive(Clone, Copy, Debug, PartialEq, Eq, Structural)]
pub enum SpawnError {
    /// Its file could not be started.
    Start,
    /// A copy of its file in memory could not be run.
    ThroughMemory,
    /// The file in memory that was downloaded could not be run.
    ThroughDownloadedMemory,
}

impl SpawnError {
    /// What is told of the failure.
    pub open spec fn text(self) -> Seq<char> {
        match self {
            SpawnError::Start => "Failed to start shell"@,
            SpawnError::ThroughMemory => "Failed to start shell through memfd"@,
            SpawnError::ThroughDownloadedMemory =>
                "Failed to start shell through downloaded memfd"@,
        }
    }

    /// What is told of the failure.
    pub fn message(self) -> (s: &'static str)
        ensures
            s@ == self.text(),
    {
        match self {
            SpawnError::Start => "Failed to start shell",
            SpawnError::ThroughMemory => "Failed to start shell through memfd",
            SpawnError::ThroughDownloadedMemory =>
                "Failed to start shell through downloaded memfd",
        }
    }
}

/// What follows an attempt to start the command.
#[derive(Clone, Copy, Debug, PartialEq, Eq, Structural)]
pub enum AfterCommand {
    /// Bash runs.
    Running,
    /// Copy the command's program into memory and run it from there.
    CopyToMemory,
    /// Give up.
    GiveUp(SpawnError),
}

/// What follows an attempt to start the command: a file that may not be run is run from memory,
/// and any other failure is final.
pub fn after_command(outcome: SpawnOutcome) -> (r: AfterCommand)
    ensures
        r == match outcome {
            SpawnOutcome::Started => AfterCommand::Running,
            SpawnOutcome::PermissionDenied => AfterCommand::CopyToMemory,
            SpawnOutcome::Failed => AfterCommand::GiveUp(SpawnError::Start),
        },
{
    match outcome {
        SpawnOutcome::Started => AfterCommand::Running,
        SpawnOutcome::PermissionDenied => AfterCommand::CopyToMemory,
        SpawnOutcome::Failed => AfterCommand::GiveUp(SpawnError::Start),
    }
}

/// What follows an attempt to run bash from memory, where `copied` tells a copy of its file from
/// one that was downloaded there.
pub fn after_memory(copied: bool, started: bool) -> (r: Result<(), SpawnError>)
    ensures
        r == if started {
            Ok::<(), SpawnError>(())
        } else if copied {
            Err(SpawnError::ThroughMemory)
        } else {
            Err(SpawnError::ThroughDownloadedMemory)
        },
{
    if started {
        Ok(())
    } else if copied {
        Err(SpawnError::ThroughMemory)
    } else {
        Err(SpawnError::ThroughDownloadedMemory)
    }
}

/// `libc::EINVAL`, the error number of an argument that the kernel does not know. It is 22 on
/// Linux.
#[verifier::external_body]
fn einval() -> (n: i32)
    ensures
        n == 22,
{
    libc::EINVAL
}

/// Which file in memory is asked for.
#[derive(Clone, Copy, Debug, PartialEq, Eq, Structural)]
pub enum MemfdAttempt {
    /// One that is marked as a program, which older kernels do not know.
    Executable,
    /// One without marks.
    Plain,
}

impl MemfdAttempt {
    /// The flags to ask with.
    pub fn flags(self) -> (n: u32)
        ensures
            n == match self {
                MemfdAttempt::Executable => 0x10u32,
                MemfdAttempt::Plain => 0u32,
            },
    {
        match self {
            MemfdAttempt::Executable => MFD_EXEC,
            MemfdAttempt::Plain => 0,
        }
    }
}

/// What follows an attempt to make a file in memory.
#[derive(Clone, Copy, Debug, PartialEq, Eq, Structural)]
pub enum MemfdStep {
    /// The file stands behind this descriptor.
    Created(i32),
    /// Ask again, in this way.
    Again(MemfdAttempt),
    /// Give up, with the error of the attempt.
    GiveUp,
}

/// What follows an attempt to make a file in memory that returned `fd`, with the error number
/// `errno`: a kernel that does not know the mark is asked again without it.
pub open spec fn memfd_step(attempt: MemfdAttempt, fd: i64, errno: Option<i32>) -> MemfdStep {
    if fd != -1 {
        MemfdStep::Created(fd as i32)
    } else if attempt is Executable && errno == Some(22i32) {
        MemfdStep::Again(MemfdAttempt::Plain)
    } else {
        MemfdStep::GiveUp
    }
}

/// A descriptor is taken as it comes, whatever it is and whatever was asked for. Without one, only a
/// kernel that does not know the mark is asked again, without the mark.
pub proof fn law_memfd_descriptor_is_taken(attempt: MemfdAttempt, fd: i32, errno: Option<i32>)
    ensures
        fd != -1 ==> memfd_step(attempt, fd as i64, errno) == MemfdStep::Created(fd),
        memfd_step(attempt, -1 as i64, errno) !is Created,
        memfd_step(attempt, -1 as i64, errno) is Again <==> attempt is Executable && errno == Some(22i32),
        memfd_step(attempt, -1 as i64, errno) matches MemfdStep::Again(next) ==> next is Plain,
{
}

/// A file in memory is asked for twice at most.
pub proof fn law_memfd_asked_twice_at_most(
    attempt: MemfdAttempt,
    fd: i64,
    errno: Option<i32>,
    second_fd: i64,
    second_errno: Option<i32>,
)
    ensures
        memfd_step(attempt, fd, errno) matches MemfdStep::Again(second) ==> memfd_step(
            second,
            second_fd,
            second_errno,
        ) !is Again,
{
}

/// What follows an attempt to make a file in memory that returned `fd`, with the error number
/// `errno`.
pub fn after_memfd(attempt: MemfdAttempt, fd: i64, errno: Option<i32>) -> (r: MemfdStep)
    ensures
        r == memfd_step(attempt, fd, errno),
        fd != -1 ==> r == MemfdStep::Created(fd as i32),
        fd == -1 && attempt is Executable && errno == Some(22i32) ==> r == MemfdStep::Again(
            MemfdAttempt::Plain,
        ),
        fd == -1 && (attempt is Plain || errno != Some(22i32)) ==> r == MemfdStep::GiveUp,
{
    if fd != -1 {
        return MemfdStep::Created(fd as i32);
    }
    let unknown = match errno {
        Some(n) => n == einval(),
        None => false,
    };
    match attempt {
        MemfdAttempt::Executable => {
            if unknown {
                MemfdStep::Again(MemfdAttempt::Plain)
            } else {
                MemfdStep::GiveUp
            }
        },
        MemfdAttempt::Plain => MemfdStep::GiveUp,
    }
}

} // verus!
