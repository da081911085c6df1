use orsiktop::app::{
    is_due, key_action, process_refresh_interval_ms, DashboardKey, KeyAction, KeyKind,
    SENSOR_REFRESH_MS, SYSTEM_REFRESH_MS,
};
use std::sync::atomic::{AtomicU64, Ordering};
use std::time::Duration;

use orsiktop::app::{
    change_refresh, cpu_times_fit_exec, io_wait_fraction, is_hard_llm_failure, llm_sample_action,
    next_cycle_target, parse_cpu_times, CpuTimes, LlmSampleAction, ProcessCache,
};
use orsiktop::domain::{ProcessIdentity, MAX_REFRESH_MS, MIN_LLM_POLL_MS, MIN_REFRESH_MS};
use orsiktop::system::FixtureSys;

#[test]
fn cache_reuses_stable_metadata_for_same_identity() {
    let sys = FixtureSys::default();
    let mut cache = ProcessCache::default();
    let identity = ProcessIdentity::new(0, 1234);
    let first = cache.stable(&sys, identity, "app", "/bin/app");
    let second = cache.stable(&sys, identity, "app", "/bin/app");
    assert_eq!(first, second);
    assert_eq!(cache.len(), 1);
}

#[test]
fn cache_treats_reused_pid_with_new_start_time_as_new_process() {
    let sys = FixtureSys::default();
    let mut cache = ProcessCache::default();
    let old = ProcessIdentity::new(4242, 1000);
    let new = ProcessIdentity::new(4242, 2000);
    cache.stable(&sys, old, "old-prog", "/bin/old");
    let (_, command, _) = cache.stable(&sys, new, "new-prog", "/bin/new");
    assert_eq!(command, "/bin/new");
    assert_eq!(cache.len(), 2);
}

#[test]
fn cache_retain_drops_exited_processes() {
    let sys = FixtureSys::default();
    let mut cache = ProcessCache::default();
    let alive = ProcessIdentity::new(0, 1);
    let gone = ProcessIdentity::new(0, 2);
    cache.stable(&sys, alive, "a", "a");
    cache.stable(&sys, gone, "b", "b");
    cache.retain(&[alive]);
    assert_eq!(cache.len(), 1);
}

#[test]
fn refresh_change_is_clamped() {
    let shared = AtomicU64::new(MIN_REFRESH_MS);
    let mut value = MIN_REFRESH_MS;
    shared.store(change_refresh(&mut value, false), Ordering::Relaxed);
    assert_eq!(value, MIN_REFRESH_MS);

    value = MAX_REFRESH_MS;
    shared.store(change_refresh(&mut value, true), Ordering::Relaxed);
    assert_eq!(value, MAX_REFRESH_MS);
}

#[test]
fn refresh_change_updates_shared_value() {
    let shared = AtomicU64::new(1000);
    let mut value = 1000;
    shared.store(change_refresh(&mut value, false), Ordering::Relaxed);
    assert_eq!(value, 900);
    assert_eq!(shared.load(Ordering::Relaxed), 900);
}

#[test]
fn cycle_target_clamps_to_worker_floor() {
    let fast = AtomicU64::new(100);
    assert_eq!(
        Duration::from_millis(next_cycle_target(fast.load(Ordering::Relaxed), MIN_LLM_POLL_MS)),
        Duration::from_millis(250)
    );
    assert_eq!(
        Duration::from_millis(next_cycle_target(fast.load(Ordering::Relaxed), MIN_REFRESH_MS)),
        Duration::from_millis(100)
    );

    let slow = AtomicU64::new(5000);
    assert_eq!(
        Duration::from_millis(next_cycle_target(slow.load(Ordering::Relaxed), MIN_LLM_POLL_MS)),
        Duration::from_millis(5000)
    );
    assert_eq!(
        Duration::from_millis(next_cycle_target(slow.load(Ordering::Relaxed), MIN_REFRESH_MS)),
        Duration::from_millis(5000)
    );

    let unbounded = AtomicU64::new(60_000);
    assert_eq!(
        Duration::from_millis(next_cycle_target(unbounded.load(Ordering::Relaxed), MIN_LLM_POLL_MS)),
        Duration::from_millis(MAX_REFRESH_MS)
    );
}

#[test]
fn parses_linux_cpu_times() {
    let previous = parse_cpu_times("cpu  100 0 50 800 20 0 10 0 0 0\n").unwrap();
    let current = parse_cpu_times("cpu  120 0 60 850 25 0 15 0 0 0\n").unwrap();
    assert_eq!(previous.io_wait, 20);
    assert_eq!(current.io_wait, 25);
    assert_eq!(previous.total, 980);
    assert_eq!(current.total, 1070);
}

#[test]
fn cpu_times_need_five_counters_and_the_aggregate_line() {
    assert_eq!(parse_cpu_times("cpu0 1 2 3 4 5\n"), None);
    assert_eq!(parse_cpu_times("cpu  1 2 3 4\n"), None);
    assert_eq!(parse_cpu_times("cpu  1 2 x 4 5\n"), None);
    assert!(cpu_times_fit_exec("cpu  1 2 3 4 5\n"));
    assert!(!cpu_times_fit_exec("cpu  18446744073709551615 1 0 0 0\n"));
}

#[test]
fn thread_count_comes_from_the_status_file() {
    let mut sys = FixtureSys::default();
    sys.file("/proc/77/status", "Name:\tx\nThreads:\tlots\nThreads:\t12\n");
    let mut cache = ProcessCache::default();
    let (_, _, threads) = cache.stable(&sys, ProcessIdentity::new(77, 5), "x", "/bin/x");
    assert_eq!(threads, 12);
    let (_, _, unknown) = cache.stable(&sys, ProcessIdentity::new(78, 5), "y", "/bin/y");
    assert_eq!(unknown, 1);
}

#[test]
fn parses_linux_cpu_times_and_iowait_delta() {
    let previous = parse_cpu_times(
        "cpu  100 0 50 800 20 0 10 0 0 0
",
    )
    .unwrap();
    let current = parse_cpu_times(
        "cpu  120 0 60 850 25 0 15 0 0 0
",
    )
    .unwrap();
    assert_eq!(previous.io_wait, 20);
    assert_eq!(current.io_wait, 25);
    let (busy, total) = io_wait_fraction(previous, current).unwrap();
    assert_eq!((busy, total), (5, 90));
    let io_wait = busy as f64 / total as f64 * 100.0;
    assert!((io_wait - 5.555555556).abs() < 0.001);
}

#[test]
fn io_wait_is_none_when_no_time_passed() {
    let t = CpuTimes { total: 10, io_wait: 2 };
    assert_eq!(io_wait_fraction(t, t), None);
    let earlier = CpuTimes { total: 20, io_wait: 1 };
    assert_eq!(io_wait_fraction(earlier, t), None);
}

#[test]
fn transient_llm_failure_keeps_last_sample_and_marks_reconnecting() {
    let now_ms = 1_000_000;
    assert_eq!(llm_sample_action(true, "", None, now_ms, 2500), LlmSampleAction::Fresh);
    assert_eq!(
        llm_sample_action(
            false,
            "cannot reach llama.cpp: timeout",
            Some(now_ms),
            now_ms + 500,
            2500
        ),
        LlmSampleAction::Hold
    );
}

#[test]
fn llm_failure_after_grace_or_hard_failure_is_shown() {
    let at = Some(1_000);
    assert_eq!(llm_sample_action(false, "timeout", at, 3_501, 2500), LlmSampleAction::Pass);
    assert_eq!(llm_sample_action(false, "timeout", at, 3_500, 2500), LlmSampleAction::Hold);
    assert_eq!(llm_sample_action(false, "timeout", None, 1_000, 2500), LlmSampleAction::Pass);
    assert_eq!(
        llm_sample_action(false, "HTTP 501: Metrics Disabled", at, 1_100, 2500),
        LlmSampleAction::Pass
    );
    assert!(is_hard_llm_failure("server started without --metrics"));
    assert!(is_hard_llm_failure("Failed to initialize HTTP client"));
    assert!(!is_hard_llm_failure("connection refused"));
}

#[test]
fn key_bindings_follow_help_and_repeat_rules() {
    assert_eq!(key_action(DashboardKey::Esc, KeyKind::Press, false), KeyAction::Quit);
    assert_eq!(key_action(DashboardKey::Esc, KeyKind::Press, true), KeyAction::CloseHelp);
    assert_eq!(key_action(DashboardKey::Char('h'), KeyKind::Press, true), KeyAction::ToggleHelp);
    assert_eq!(key_action(DashboardKey::Char('j'), KeyKind::Press, true), KeyAction::Nothing);
    assert_eq!(key_action(DashboardKey::Char('['), KeyKind::Press, false), KeyAction::StepRefresh(false));
    assert_eq!(key_action(DashboardKey::Char('='), KeyKind::Press, false), KeyAction::StepRefresh(true));
    assert_eq!(key_action(DashboardKey::Char('k'), KeyKind::Press, false), KeyAction::MoveSelection(-1));
    assert_eq!(key_action(DashboardKey::PageDown, KeyKind::Repeat, false), KeyAction::MoveSelection(10));
    assert_eq!(key_action(DashboardKey::PageUp, KeyKind::Repeat, true), KeyAction::Nothing);
    assert_eq!(key_action(DashboardKey::Home, KeyKind::Repeat, false), KeyAction::Nothing);
    assert_eq!(key_action(DashboardKey::End, KeyKind::Press, false), KeyAction::ProcessEnd);
    assert_eq!(key_action(DashboardKey::Esc, KeyKind::Release, false), KeyAction::Nothing);
    assert_eq!(key_action(DashboardKey::Other, KeyKind::Press, false), KeyAction::Nothing);
}

#[test]
fn cadence_is_due_after_its_interval_or_when_never_run() {
    assert!(is_due(None, 0, SENSOR_REFRESH_MS));
    assert!(!is_due(Some(1_000), 250_000_999, SYSTEM_REFRESH_MS));
    assert!(is_due(Some(1_000), 250_001_000, SYSTEM_REFRESH_MS));
    assert!(!is_due(Some(5_000), 1_000, 1));
    assert!(is_due(Some(5_000), 1_000, 0));
    assert_eq!(process_refresh_interval_ms(5), 100);
    assert_eq!(process_refresh_interval_ms(2_000), 2_000);
    assert_eq!(process_refresh_interval_ms(u64::MAX), 60_000);
}
