use monitor_app::cmd::{
    append_capped, exited_output, poll_step, timed_out_output, CmdOutput, PollStep, WaitState,
    MAX_OUTPUT_BYTES,
};

#[test]
fn to_result_reports_failures_and_decodes_output() {
    let ok = CmdOutput { status_success: true, stdout: b"hello\n".to_vec(), timed_out: false };
    assert_eq!(ok.to_result(), Ok("hello\n".to_string()));
    let bad = CmdOutput { status_success: false, stdout: b"x".to_vec(), timed_out: false };
    assert_eq!(bad.to_result(), Err("command exited non-zero".to_string()));
    let late = CmdOutput { status_success: false, stdout: Vec::new(), timed_out: true };
    assert_eq!(late.to_result(), Err("command timed out".to_string()));
    let lossy = CmdOutput { status_success: true, stdout: vec![0x61, 0xff, 0x62], timed_out: false };
    assert_eq!(lossy.to_result(), Ok("a\u{fffd}b".to_string()));
}

#[test]
fn capture_is_capped() {
    let mut buf = Vec::new();
    append_capped(&mut buf, b"abc");
    assert_eq!(buf, b"abc");
    let big = vec![b'y'; MAX_OUTPUT_BYTES];
    append_capped(&mut buf, &big);
    assert_eq!(buf.len(), MAX_OUTPUT_BYTES);
    assert_eq!(&buf[..4], b"abcy");
    append_capped(&mut buf, b"more");
    assert_eq!(buf.len(), MAX_OUTPUT_BYTES);
}

#[test]
fn poll_decisions() {
    assert!(poll_step(WaitState::Exited { success: true }, true, false) == PollStep::Finish { success: true });
    assert!(poll_step(WaitState::Running, true, false) == PollStep::KillTimedOut);
    assert!(poll_step(WaitState::Running, false, true) == PollStep::Nap);
    assert!(poll_step(WaitState::Running, false, false) == PollStep::AwaitChunk);
    assert!(poll_step(WaitState::WaitFailed, false, false) == PollStep::KillFailed);
    let t = timed_out_output(b"partial".to_vec());
    assert!(t.timed_out && !t.status_success);
    let e = exited_output(b"done".to_vec(), true);
    assert!(!e.timed_out && e.status_success);
}
