use local_exec::digest::Digest;
use local_exec::one_second;
use local_exec::run::{
    assemble_result, resolve_exit_code, spawn_failure_message, step, stdout_with_timeout_banner,
    timeout_message, Platform, RunEvent, RunStage,
};

#[test]
fn normal_exit_keeps_status() {
    assert_eq!(resolve_exit_code(Some(0), None), 0);
    assert_eq!(resolve_exit_code(Some(1), None), 1);
}

#[test]
fn signal_death_negates_signal_number() {
    // A process killed by the terminate signal reports -15.
    assert_eq!(resolve_exit_code(None, Some(15)), -15);
    assert_eq!(resolve_exit_code(None, Some(9)), -9);
}

#[test]
fn no_status_and_no_signal_resolves_negative_one() {
    assert_eq!(resolve_exit_code(None, None), -1);
}

#[test]
fn timeout_message_names_phrase_timeout_and_description() {
    let msg = String::from_utf8(timeout_message(100, "sleepy-cat")).unwrap();
    assert!(msg.contains("Exceeded timeout"));
    assert!(msg.contains("100"));
    assert!(msg.contains("sleepy-cat"));
}

#[test]
fn timeout_message_renders_the_timeout_in_decimal() {
    let msg = String::from_utf8(timeout_message(12045, "big-cat")).unwrap();
    assert!(msg.contains("12045 milliseconds"));
    let msg0 = String::from_utf8(timeout_message(0, "zero-cat")).unwrap();
    assert!(msg0.contains("0 milliseconds"));
}

#[test]
fn timeout_banner_prepends_diagnostic_to_stdout() {
    let banner = stdout_with_timeout_banner(100, "sleepy-cat", b"European Burmese");
    let text = String::from_utf8(banner).unwrap();
    assert!(text.contains("Exceeded timeout"));
    assert!(text.contains("sleepy-cat"));
    assert!(text.ends_with("European Burmese"));
}

#[test]
fn spawn_failure_names_executable_and_says_it_never_ran() {
    let msg = spawn_failure_message("echo");
    assert!(msg.contains("Failed to execute"));
    assert!(msg.contains("echo"));
}

#[test]
fn run_stages_follow_the_happy_path() {
    let s = step(RunStage::Created, RunEvent::SandboxBuilt).unwrap();
    assert_eq!(s, RunStage::SandboxReady);
    let s = step(s, RunEvent::Spawned).unwrap();
    assert_eq!(s, RunStage::Running);
    let s = step(s, RunEvent::ProcessExited).unwrap();
    assert_eq!(s, RunStage::Exited);
    let s = step(s, RunEvent::Captured).unwrap();
    assert_eq!(s, RunStage::OutputsCaptured);
    let s = step(s, RunEvent::SandboxReleased).unwrap();
    assert_eq!(s, RunStage::Finalized);
    let s = step(s, RunEvent::Reported).unwrap();
    assert_eq!(s, RunStage::Done);
}

#[test]
fn spawn_failure_skips_capture_but_still_releases_sandbox() {
    let s = step(RunStage::SandboxReady, RunEvent::SpawnRefused).unwrap();
    assert_eq!(s, RunStage::SpawnFailed);
    assert!(step(s, RunEvent::Captured).is_none());
    let s = step(s, RunEvent::SandboxReleased).unwrap();
    assert_eq!(s, RunStage::Finalized);
}

#[test]
fn timed_out_run_still_captures_and_finalizes() {
    let s = step(RunStage::Running, RunEvent::TimerFired).unwrap();
    assert_eq!(s, RunStage::TimedOut);
    let s = step(s, RunEvent::Captured).unwrap();
    assert_eq!(s, RunStage::OutputsCaptured);
}

#[test]
fn result_carries_stream_digests_exit_code_and_platform() {
    // The echo scenario: stdout "foo", stderr empty, exit 0, no outputs.
    let r = assemble_result(b"foo", b"", 0, &Vec::new(), &Vec::new(), Platform::Linux);
    assert_eq!(r.exit_code, 0);
    assert_eq!(r.platform, Platform::Linux);
    assert_eq!(r.stdout_digest, Digest::of_bytes(b"foo"));
    assert_eq!(r.stderr_digest, Digest::of_bytes(b""));
    assert_eq!(
        r.output_directory,
        local_exec::outputs::empty_tree_digest()
    );
}

#[test]
fn identical_observations_assemble_identical_results() {
    let a = assemble_result(b"foo", b"bar", 1, &Vec::new(), &Vec::new(), Platform::Linux);
    let b = assemble_result(b"foo", b"bar", 1, &Vec::new(), &Vec::new(), Platform::Linux);
    assert_eq!(a, b);
}

#[test]
fn different_streams_give_different_digests() {
    let a = assemble_result(b"foo", b"", 0, &Vec::new(), &Vec::new(), Platform::Linux);
    let b = assemble_result(b"bar", b"", 0, &Vec::new(), &Vec::new(), Platform::Linux);
    assert_ne!(a.stdout_digest, b.stdout_digest);
}

#[test]
fn failing_run_still_captures_its_declared_output() {
    // A script writes "R" to roland.ext and exits 1: the result keeps exit
    // code 1 and an output digest holding exactly that one file.
    let roland = local_exec::outputs::CapturedFile {
        path: local_exec::paths::RelativePath::new("roland.ext".to_owned()).unwrap(),
        digest: Digest::of_bytes(b"R"),
        is_executable: false,
    };
    let r = assemble_result(b"", b"", 1, &vec![roland], &Vec::new(), Platform::Linux);
    assert_eq!(r.exit_code, 1);
    let expected = local_exec::outputs::capture_outputs(
        &vec![local_exec::outputs::CapturedFile {
            path: local_exec::paths::RelativePath::new("roland.ext".to_owned()).unwrap(),
            digest: Digest::of_bytes(b"R"),
            is_executable: false,
        }],
        &Vec::new(),
    );
    assert_eq!(r.output_directory, expected);
    assert_ne!(r.output_directory, local_exec::outputs::empty_tree_digest());
}

#[test]
fn one_second_is_a_thousand_milliseconds() {
    assert_eq!(one_second(), Some(1000));
}
