use tunshell::command::RptyCommandConfig;
use tunshell::download::RptyBash;
use tunshell::spawn::{
    after_command, after_memfd, after_memory, spawn_rpty_bash, AfterCommand, MemfdAttempt, MemfdStep,
    SpawnError, SpawnOutcome, SpawnStep, ARTIFACT_MODE, AT_EMPTY_PATH, MEMFD_MODE, MEMFD_NAME, MFD_EXEC,
};

fn config() -> RptyCommandConfig {
    RptyCommandConfig::new("/tmp/tunshell-test.sock".to_string(), "xterm", false)
}

#[test]
fn bash_runs_from_its_file_or_from_memory() {
    match spawn_rpty_bash::<u8>(RptyBash::Path("/bin/true".to_string()), &config()) {
        SpawnStep::Command(c) => {
            assert_eq!(c.program, "/bin/true");
            assert_eq!(c.args.len(), 2);
            assert_eq!(c.env[2].1, "[rpty] \\u@\\H:\\w\\$ ");
        }
        SpawnStep::Memory(_) => panic!(),
    }
    match spawn_rpty_bash(RptyBash::Memfd(3u8), &config()) {
        SpawnStep::Memory(f) => assert_eq!(f, 3),
        SpawnStep::Command(_) => panic!(),
    }
}

#[test]
fn only_a_refused_permission_leads_to_memory() {
    assert_eq!(after_command(SpawnOutcome::Started), AfterCommand::Running);
    assert_eq!(after_command(SpawnOutcome::PermissionDenied), AfterCommand::CopyToMemory);
    assert_eq!(after_command(SpawnOutcome::Failed), AfterCommand::GiveUp(SpawnError::Start));
    assert_eq!(after_memory(true, true), Ok(()));
    assert_eq!(after_memory(true, false), Err(SpawnError::ThroughMemory));
    assert_eq!(after_memory(false, false), Err(SpawnError::ThroughDownloadedMemory));
    assert_eq!(SpawnError::Start.message(), "Failed to start shell");
    assert_eq!(SpawnError::ThroughMemory.message(), "Failed to start shell through memfd");
    assert_eq!(
        SpawnError::ThroughDownloadedMemory.message(),
        "Failed to start shell through downloaded memfd"
    );
}

#[test]
fn older_kernels_are_asked_again() {
    assert_eq!(after_memfd(MemfdAttempt::Executable, 5, None), MemfdStep::Created(5));
    assert_eq!(
        after_memfd(MemfdAttempt::Executable, -1, Some(libc::EINVAL)),
        MemfdStep::Again(MemfdAttempt::Plain)
    );
    assert_eq!(after_memfd(MemfdAttempt::Plain, -1, Some(libc::EINVAL)), MemfdStep::GiveUp);
    assert_eq!(after_memfd(MemfdAttempt::Executable, -1, Some(libc::ENOSYS)), MemfdStep::GiveUp);
    assert_eq!(after_memfd(MemfdAttempt::Executable, -1, None), MemfdStep::GiveUp);
    assert_eq!(after_memfd(MemfdAttempt::Plain, 6, Some(libc::EINVAL)), MemfdStep::Created(6));
    assert_eq!(MemfdAttempt::Executable.flags(), 0x10);
    assert_eq!(MemfdAttempt::Plain.flags(), 0);
    assert_eq!(MFD_EXEC, 0x10);
    assert_eq!(AT_EMPTY_PATH, 0x1000);
    assert_eq!(MEMFD_MODE, 0o700);
    assert_eq!(ARTIFACT_MODE, 0o744);
    assert_eq!(MEMFD_NAME, "bash-rpty");
}
