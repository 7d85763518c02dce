//! Outcome of one run: exit-code convention, diagnostics, the assembled
//! result, and the run's state machine.

use crate::digest::{dec_bytes, spec_dec_bytes, Digest, DigestModel};
use crate::outputs::{
    capture_outputs, spec_capture, CapturedDir, CapturedFile, CapturedFileModel,
};
use vstd::prelude::*;

verus! {

/// An identifier of the executing host platform. Which variant applies is
/// decided by the host layer; this core only carries it into the result.
#[derive(Debug, Clone, Copy, PartialEq, Eq, Structural)]
pub enum Platform {
    Linux,
    Macos,
}

/// Resolve the exit code of a finished process. A normal exit keeps its
/// status; termination by signal N is encoded as -N; an exit with neither a
/// status nor a signal resolves to -1.
pub fn resolve_exit_code(exit_status: Option<i32>, signal: Option<i32>) -> (r: i32)
    requires
        signal matches Some(s) ==> s >= 0,
    ensures
        exit_status matches Some(c) ==> r == c,
        exit_status is None ==> ((signal matches Some(s) && r == -s) || (signal is None && r
            == -1)),
{
    match exit_status {
        Some(c) => c,
        None => match signal {
            Some(s) => -s,
            None => -1,
        },
    }
}

/// The diagnostic injected into captured stdout when a run times out: the
/// exceeded-timeout phrase, the configured timeout, and the run's
/// description.
pub open spec fn spec_timeout_message(timeout_millis: u64, description: Seq<char>) -> Seq<u8> {
    vstd::utf8::encode_utf8("Exceeded timeout of "@) + spec_dec_bytes(timeout_millis as nat)
        + vstd::utf8::encode_utf8(" milliseconds for local process execution of "@)
        + vstd::utf8::encode_utf8(description) + seq![10u8]
}

/// Render the timeout diagnostic.
pub fn timeout_message(timeout_millis: u64, description: &str) -> (r: Vec<u8>)
    ensures
        r@ == spec_timeout_message(timeout_millis, description@),
{
    let mut out: Vec<u8> = Vec::new();
    crate::outputs::push_bytes(&mut out, "Exceeded timeout of ".as_bytes());
    let digits = dec_bytes(timeout_millis);
    crate::outputs::push_bytes(&mut out, digits.as_slice());
    crate::outputs::push_bytes(
        &mut out,
        " milliseconds for local process execution of ".as_bytes(),
    );
    crate::outputs::push_bytes(&mut out, description.as_bytes());
    out.push(10);
    proof {
        assert(out@ =~= spec_timeout_message(timeout_millis, description@));
    }
    out
}

/// Captured stdout for a timed-out run: the diagnostic, then whatever the
/// process itself wrote before it was terminated.
pub fn stdout_with_timeout_banner(timeout_millis: u64, description: &str, stdout: &[u8]) -> (r:
    Vec<u8>)
    ensures
        r@ == spec_timeout_message(timeout_millis, description@) + stdout@,
{
    let mut out = timeout_message(timeout_millis, description);
    crate::outputs::push_bytes(&mut out, stdout);
    out
}

/// A timed-out run's captured stdout carries the diagnostic: it begins with
/// the literal exceeded-timeout phrase, and the run's description appears in
/// it, whatever the process itself wrote.
pub proof fn lemma_timeout_banner_shows_description(
    timeout_millis: u64,
    description: Seq<char>,
    stdout: Seq<u8>,
)
    ensures
        ({
            let banner = spec_timeout_message(timeout_millis, description) + stdout;
            let phrase = vstd::utf8::encode_utf8("Exceeded timeout of "@);
            let db = vstd::utf8::encode_utf8(description);
            banner.len() >= phrase.len() && banner.subrange(0, phrase.len() as int) == phrase
                && exists|i: int|
                0 <= i && i + db.len() <= banner.len() && #[trigger] banner.subrange(
                    i,
                    i + db.len() as int,
                ) == db
        }),
{
    let banner = spec_timeout_message(timeout_millis, description) + stdout;
    let phrase = vstd::utf8::encode_utf8("Exceeded timeout of "@);
    let mid = vstd::utf8::encode_utf8(" milliseconds for local process execution of "@);
    let db = vstd::utf8::encode_utf8(description);
    assert(banner.subrange(0, phrase.len() as int) =~= phrase);
    let w: int = phrase.len() + spec_dec_bytes(timeout_millis as nat).len() + mid.len() as int;
    assert(banner.subrange(w, w + db.len() as int) =~= db);
    assert(0 <= w && w + db.len() <= banner.len() && banner.subrange(w, w + db.len() as int)
        == db);
}

/// The error reported when the executable cannot be started at all. Distinct
/// from a run that started and failed: it names the executable and says that
/// execution never began.
pub fn spawn_failure_message(executable: &str) -> (r: String)
    ensures
        r@ == "Failed to execute: "@ + executable@,
{
    "Failed to execute: ".to_owned().concat(executable)
}

/// Model of a run result.
pub struct RunResultModel {
    pub stdout_digest: DigestModel,
    pub stderr_digest: DigestModel,
    pub exit_code: int,
    pub output_directory: DigestModel,
    pub platform: Platform,
}

/// The immutable result of a run that actually started: exit code, digests
/// of the captured streams, the assembled output-directory digest, and the
/// executing platform.
#[derive(Debug, Clone, PartialEq, Eq)]
pub struct FallibleProcessResultWithPlatform {
    pub stdout_digest: Digest,
    pub stderr_digest: Digest,
    pub exit_code: i32,
    pub output_directory: Digest,
    pub platform: Platform,
}

impl View for FallibleProcessResultWithPlatform {
    type V = RunResultModel;

    open spec fn view(&self) -> RunResultModel {
        RunResultModel {
            stdout_digest: self.stdout_digest@,
            stderr_digest: self.stderr_digest@,
            exit_code: self.exit_code as int,
            output_directory: self.output_directory@,
            platform: self.platform,
        }
    }
}

/// The result that a finished run assembles to, as a function of what was
/// observed: the bytes each stream carried, the resolved exit code, the
/// captured output entries, and the platform.
pub open spec fn spec_run_outcome(
    stdout: Seq<u8>,
    stderr: Seq<u8>,
    exit_code: int,
    fs: Seq<CapturedFileModel>,
    ds: Seq<Seq<Seq<char>>>,
    platform: Platform,
) -> RunResultModel {
    RunResultModel {
        stdout_digest: Digest::spec_of_bytes(stdout),
        stderr_digest: Digest::spec_of_bytes(stderr),
        exit_code,
        output_directory: spec_capture(fs, ds),
        platform,
    }
}

/// Assemble the run result: digest both streams exactly as captured, merge
/// and digest the captured outputs, and record the exit code and platform.
pub fn assemble_result(
    stdout: &[u8],
    stderr: &[u8],
    exit_code: i32,
    found_files: &Vec<CapturedFile>,
    found_dirs: &Vec<CapturedDir>,
    platform: Platform,
) -> (r: FallibleProcessResultWithPlatform)
    requires
        stdout@.len() <= u64::MAX,
        stderr@.len() <= u64::MAX,
    ensures
        r@ == spec_run_outcome(
            stdout@,
            stderr@,
            exit_code as int,
            found_files.deep_view(),
            found_dirs.deep_view(),
            platform,
        ),
{
    let stdout_digest = Digest::of_bytes(stdout);
    let stderr_digest = Digest::of_bytes(stderr);
    let output_directory = capture_outputs(found_files, found_dirs);
    FallibleProcessResultWithPlatform {
        stdout_digest,
        stderr_digest,
        exit_code,
        output_directory,
        platform,
    }
}

/// Determinism: two runs with the same observed behaviour — same stream
/// bytes, same exit code, same captured entries, same platform — assemble
/// equal results, however they were scheduled.
pub proof fn lemma_outcome_deterministic(
    stdout1: Seq<u8>,
    stderr1: Seq<u8>,
    exit1: int,
    fs1: Seq<CapturedFileModel>,
    ds1: Seq<Seq<Seq<char>>>,
    p1: Platform,
    stdout2: Seq<u8>,
    stderr2: Seq<u8>,
    exit2: int,
    fs2: Seq<CapturedFileModel>,
    ds2: Seq<Seq<Seq<char>>>,
    p2: Platform,
)
    requires
        stdout1 == stdout2,
        stderr1 == stderr2,
        exit1 == exit2,
        fs1 == fs2,
        ds1 == ds2,
        p1 == p2,
    ensures
        spec_run_outcome(stdout1, stderr1, exit1, fs1, ds1, p1) == spec_run_outcome(
            stdout2,
            stderr2,
            exit2,
            fs2,
            ds2,
            p2,
        ),
{
}

/// The stages of one run.
#[derive(Debug, Clone, Copy, PartialEq, Eq, Structural)]
pub enum RunStage {
    /// The run was submitted; nothing exists yet.
    Created,
    /// The sandbox is built: inputs materialized, parents pre-created,
    /// caches and toolchain mounted.
    SandboxReady,
    /// The process is running, racing the optional timer.
    Running,
    /// The process exited on its own, normally or by signal.
    Exited,
    /// The timer fired first; the process was terminated and waited for.
    TimedOut,
    /// Declared outputs were walked, digested, and assembled.
    OutputsCaptured,
    /// The executable could not be started at all.
    SpawnFailed,
    /// The sandbox was released: deleted, or preserved with its script.
    Finalized,
    /// The result, or the spawn error, was handed to the caller.
    Done,
}

/// What the host layer reports back to the run.
#[derive(Debug, Clone, Copy, PartialEq, Eq, Structural)]
pub enum RunEvent {
    SandboxBuilt,
    Spawned,
    SpawnRefused,
    ProcessExited,
    TimerFired,
    Captured,
    SandboxReleased,
    Reported,
}

/// The run's transitions. `None` is an event that the stage does not admit.
pub open spec fn spec_step(s: RunStage, e: RunEvent) -> Option<RunStage> {
    match (s, e) {
        (RunStage::Created, RunEvent::SandboxBuilt) => Some(RunStage::SandboxReady),
        (RunStage::SandboxReady, RunEvent::Spawned) => Some(RunStage::Running),
        (RunStage::SandboxReady, RunEvent::SpawnRefused) => Some(RunStage::SpawnFailed),
        (RunStage::Running, RunEvent::ProcessExited) => Some(RunStage::Exited),
        (RunStage::Running, RunEvent::TimerFired) => Some(RunStage::TimedOut),
        (RunStage::Exited, RunEvent::Captured) => Some(RunStage::OutputsCaptured),
        (RunStage::TimedOut, RunEvent::Captured) => Some(RunStage::OutputsCaptured),
        (RunStage::OutputsCaptured, RunEvent::SandboxReleased) => Some(RunStage::Finalized),
        (RunStage::SpawnFailed, RunEvent::SandboxReleased) => Some(RunStage::Finalized),
        (RunStage::Finalized, RunEvent::Reported) => Some(RunStage::Done),
        _ => None,
    }
}

/// Advance the run by one observed event.
pub fn step(s: RunStage, e: RunEvent) -> (r: Option<RunStage>)
    ensures
        r == spec_step(s, e),
{
    match (s, e) {
        (RunStage::Created, RunEvent::SandboxBuilt) => Some(RunStage::SandboxReady),
        (RunStage::SandboxReady, RunEvent::Spawned) => Some(RunStage::Running),
        (RunStage::SandboxReady, RunEvent::SpawnRefused) => Some(RunStage::SpawnFailed),
        (RunStage::Running, RunEvent::ProcessExited) => Some(RunStage::Exited),
        (RunStage::Running, RunEvent::TimerFired) => Some(RunStage::TimedOut),
        (RunStage::Exited, RunEvent::Captured) => Some(RunStage::OutputsCaptured),
        (RunStage::TimedOut, RunEvent::Captured) => Some(RunStage::OutputsCaptured),
        (RunStage::OutputsCaptured, RunEvent::SandboxReleased) => Some(RunStage::Finalized),
        (RunStage::SpawnFailed, RunEvent::SandboxReleased) => Some(RunStage::Finalized),
        (RunStage::Finalized, RunEvent::Reported) => Some(RunStage::Done),
        _ => None,
    }
}

/// A spawn failure skips capture: after it, only releasing the sandbox
/// advances the run, never a capture.
pub proof fn lemma_spawn_failure_skips_capture()
    ensures
        spec_step(RunStage::SpawnFailed, RunEvent::Captured) is None,
        spec_step(RunStage::SpawnFailed, RunEvent::SandboxReleased) == Some(RunStage::Finalized),
{
}

/// The run reaches its caller only after the sandbox has been released, on
/// the success path and on the spawn-failure path alike.
pub proof fn lemma_release_before_done(s: RunStage)
    ensures
        spec_step(s, RunEvent::Reported) == Some(RunStage::Done) ==> s == RunStage::Finalized,
{
}

} // verus!
