use jev_quantum::maze::{MazeContext, StopReason};
use jev_quantum::pace::{wait_slice, Pace, WaitAbort};
use jev_quantum::runner::{
    check_resume_context, run_deadline_ns, context_for, drops_distance, frees_strategy, sends_history, uses_rules, is_retryable_remote_status, navigates, plans_locally, remote_retry_delay,
    retry_wait_step, sends_memory, should_retry, stop_from_wait, warmup_count, RetryWait,
};
use std::time::Duration;

#[test]
fn remote_retries_back_off_and_cap() {
    assert_eq!(Duration::from_millis(remote_retry_delay(1_000, 1)), Duration::from_secs(1));
    assert_eq!(Duration::from_millis(remote_retry_delay(1_000, 4)), Duration::from_secs(8));
    assert_eq!(Duration::from_millis(remote_retry_delay(20_000, 6)), Duration::from_secs(60));
}

#[test]
fn retry_delays_double_up_to_sixty_four_times() {
    assert_eq!(remote_retry_delay(100, 0), 100);
    assert_eq!(remote_retry_delay(100, 7), 6_400);
    assert_eq!(remote_retry_delay(100, 40), 6_400);
    assert_eq!(remote_retry_delay(u64::MAX, 3), 60_000);
}

#[test]
fn retryable_statuses() {
    assert!(is_retryable_remote_status(429));
    assert!(is_retryable_remote_status(503));
    assert!(!is_retryable_remote_status(600));
    assert!(!is_retryable_remote_status(404));
    assert!(should_retry(true, 502, 0, 1));
    assert!(!should_retry(true, 502, 1, 1));
    assert!(!should_retry(false, 502, 0, 1));
}

#[test]
fn waits_end_walks() {
    assert_eq!(stop_from_wait(WaitAbort::Cancelled), StopReason::Interrupted);
    assert_eq!(stop_from_wait(WaitAbort::Deadline), StopReason::MaxRuntime);
}

#[test]
fn retry_wait_rounds() {
    assert_eq!(retry_wait_step(true, 0, 10, 5), RetryWait::Abort(WaitAbort::Cancelled));
    assert_eq!(retry_wait_step(false, 10, 10, 50), RetryWait::Abort(WaitAbort::Deadline));
    assert_eq!(retry_wait_step(false, 6, 100, 5), RetryWait::Done);
    assert_eq!(retry_wait_step(false, 0, 1_000_000_000, 200_000_000), RetryWait::Sleep(50_000_000));
    assert_eq!(retry_wait_step(false, 0, 7, 200_000_000), RetryWait::Sleep(7));
}

#[test]
fn paced_waits() {
    let mut pace = Pace::starting(100, 1_000);
    assert_eq!(pace.wait_time(900), 100);
    assert_eq!(pace.wait_time(2_000), 0);
    assert_eq!(pace.wait_until_start(true, 0, 10), Err(WaitAbort::Cancelled));
    assert_eq!(pace.wait_until_start(false, 10, 10), Err(WaitAbort::Deadline));
    assert_eq!(pace.wait_until_start(false, 900, 950), Ok(50));
    assert_eq!(pace.wait_until_finish(false, 1_000, 5_000), Ok(()));
    assert_eq!(pace.next_ok_ns, 1_100);
    assert_eq!(pace.wait_until_finish(false, 5_000, 5_000), Err(WaitAbort::Deadline));
    assert_eq!(pace.next_ok_ns, 1_100);
    pace.granted(u64::MAX - 1);
    assert_eq!(pace.next_ok_ns, u64::MAX);
    assert_eq!(wait_slice(200_000_000, false, 0, 1_000_000_000), Ok(50_000_000));
    assert_eq!(wait_slice(10, false, 0, 1_000), Ok(10));
    assert_eq!(wait_slice(0, false, 0, 1_000), Err(WaitAbort::Deadline));
    assert_eq!(wait_slice(10, true, 0, 1_000), Err(WaitAbort::Cancelled));
}

#[test]
fn strategies_pick_their_context() {
    assert!(sends_memory("jev-memory"));
    assert!(sends_memory("jev-flood-fill"));
    assert!(!sends_memory("flood-fill"));
    assert!(navigates("flood-fill"));
    assert!(!navigates("local"));
    assert!(plans_locally("flood-fill"));
    assert_eq!(context_for("jev-memory", MazeContext::Minimal), MazeContext::Features);
    assert_eq!(context_for("local", MazeContext::Minimal), MazeContext::Minimal);
    assert_eq!(warmup_count("flood-fill", 10), 0);
    assert_eq!(warmup_count("jev", 10), 10);
}

#[test]
fn resume_needs_the_current_strategy_version() {
    assert!(check_resume_context("jev-memory", "spatial-v2: 24 observed cells").is_ok());
    assert_eq!(
        check_resume_context("jev-memory", "spatial-v1: older"),
        Err("resume strategy version mismatch for jev-memory; start a fresh comparison run".to_string())
    );
    assert!(check_resume_context("jev-flood-fill", "flood-v1: spatial memory").is_ok());
    assert!(check_resume_context("jev-flood-fill", "").is_err());
    assert!(check_resume_context("jev", "").is_ok());
    assert!(check_resume_context("flood-fill", "anything").is_ok());
}

#[test]
fn history_and_rules_strategies_are_told_apart() {
    assert!(plans_locally("memory-rules") && plans_locally("flood-fill") && !plans_locally("jev"));
    assert!(uses_rules("memory-rules") && !uses_rules("flood-fill"));
    assert!(navigates("memory-rules"));
    assert!(sends_history("jev-memory-v1-long") && sends_history("jev-memory-no-distance") && !sends_history("jev-memory"));
    assert!(frees_strategy("jev-memory-v1-free") && frees_strategy("jev-memory-no-distance") && !frees_strategy("jev-memory-v1-long"));
    assert!(drops_distance("jev-memory-no-distance") && !drops_distance("jev-memory-v1-free"));
    assert_eq!(context_for("jev-memory-v1-long", MazeContext::Minimal), MazeContext::Features);
    assert_eq!(warmup_count("memory-rules", 5), 0);
}

#[test]
fn a_zero_runtime_cap_puts_the_deadline_a_century_off() {
    assert_eq!(run_deadline_ns(5, 2), 2_000_000_005);
    assert_eq!(run_deadline_ns(0, 0), 3_153_600_000_000_000_000);
    assert_eq!(run_deadline_ns(u64::MAX - 1, 1), u64::MAX);
    assert_eq!(run_deadline_ns(0, u64::MAX), u64::MAX);
}
