use gget::parallel::{
    summarize, DownloadError, DownloadQueue, DownloadTask, ParallelDownloadOptions, RetryConfig,
    RetryState, RetryStep,
};
use std::time::Duration;

fn task(id: &str, priority: u8) -> DownloadTask {
    DownloadTask {
        package_id: id.to_string(),
        package_path: format!("gno.land/p/demo/{}", id),
        target_dir: format!("/tmp/{}", id),
        priority,
        retry_config: RetryConfig::default(),
    }
}

fn drain(queue: &mut DownloadQueue) -> Vec<String> {
    let mut out = Vec::new();
    while let Some(t) = queue.pop_next() {
        out.push(t.package_id);
    }
    out
}

#[test]
fn queue_runs_highest_priority_first() {
    let mut queue = DownloadQueue::new();
    for (name, priority) in [("low", 1), ("high", 10), ("medium", 5), ("critical", 20)] {
        queue.queue_download(task(name, priority));
    }
    assert_eq!(queue.len(), 4);
    assert_eq!(drain(&mut queue), vec!["critical", "high", "medium", "low"]);
    assert_eq!(queue.len(), 0);
    assert!(queue.pop_next().is_none());
}

#[test]
fn equal_priorities_keep_arrival_order() {
    let mut queue = DownloadQueue::new();
    queue.queue_download(task("a", 0));
    queue.queue_download(task("b", 3));
    queue.queue_download(task("c", 0));
    queue.queue_download(task("d", 3));
    queue.queue_download(task("e", 0));
    assert_eq!(drain(&mut queue), vec!["b", "d", "a", "c", "e"]);
}

#[test]
fn retry_defaults() {
    let c = RetryConfig::default();
    assert_eq!((c.max_attempts, c.initial_backoff_ms, c.max_backoff_ms, c.multiplier_percent), (3, 1000, 30000, 200));
    let o = ParallelDownloadOptions::default();
    assert_eq!(o.max_concurrent, 4);
    assert!(o.show_progress);
    assert_eq!(o.timeout_ms, 300000);
}

#[test]
fn backoff_grows_and_attempts_run_out() {
    let config = RetryConfig { max_attempts: 3, initial_backoff_ms: 10, max_backoff_ms: 100, multiplier_percent: 200 };
    let s1 = RetryState::first(&config);
    assert_eq!(s1, RetryState { attempts: 1, backoff_ms: 10 });
    let s2 = match s1.after_failure(&config) {
        RetryStep::Retry { wait_ms, next } => {
            assert_eq!(wait_ms, 10);
            next
        }
        RetryStep::GiveUp => panic!("gave up too early"),
    };
    assert_eq!(s2, RetryState { attempts: 2, backoff_ms: 20 });
    let s3 = match s2.after_failure(&config) {
        RetryStep::Retry { wait_ms, next } => {
            assert_eq!(wait_ms, 20);
            next
        }
        RetryStep::GiveUp => panic!("gave up too early"),
    };
    assert_eq!(s3, RetryState { attempts: 3, backoff_ms: 40 });
    assert_eq!(s3.after_failure(&config), RetryStep::GiveUp);
}

#[test]
fn backoff_is_capped() {
    let config = RetryConfig { max_attempts: 9, initial_backoff_ms: 80, max_backoff_ms: 100, multiplier_percent: 200 };
    let s = RetryState::first(&config);
    assert_eq!(
        s.after_failure(&config),
        RetryStep::Retry { wait_ms: 80, next: RetryState { attempts: 2, backoff_ms: 100 } }
    );
    let gentle = RetryConfig { max_attempts: 9, initial_backoff_ms: 10, max_backoff_ms: 100, multiplier_percent: 150 };
    assert_eq!(
        RetryState::first(&gentle).after_failure(&gentle),
        RetryStep::Retry { wait_ms: 10, next: RetryState { attempts: 2, backoff_ms: 15 } }
    );
    let huge = RetryState { attempts: 1, backoff_ms: u64::MAX };
    assert_eq!(
        huge.after_failure(&config),
        RetryStep::Retry { wait_ms: u64::MAX, next: RetryState { attempts: 2, backoff_ms: 100 } }
    );
}

fn run(config: &RetryConfig, outcomes: &[bool]) -> (bool, usize) {
    let mut state = RetryState::first(config);
    let mut calls = 0;
    loop {
        let ok = outcomes[calls];
        calls += 1;
        if ok {
            return (true, calls);
        }
        match state.after_failure(config) {
            RetryStep::GiveUp => return (false, calls),
            RetryStep::Retry { next, .. } => state = next,
        }
    }
}

#[test]
fn failing_twice_then_succeeding_takes_three_attempts() {
    let config = RetryConfig { max_attempts: 3, initial_backoff_ms: 10, max_backoff_ms: 100, multiplier_percent: 200 };
    assert_eq!(run(&config, &[false, false, true]), (true, 3));
    assert_eq!(run(&config, &[false, false, false, true]), (false, 3));
    let once = RetryConfig { max_attempts: 1, ..config };
    assert_eq!(run(&once, &[false, true]), (false, 1));
}

#[test]
fn summary_counts_successes_and_lists_failures() {
    let outcomes = vec![
        ("a".to_string(), Ok(())),
        ("b".to_string(), Err(DownloadError::Network("Simulated failure".to_string()))),
        ("c".to_string(), Ok(())),
        ("d".to_string(), Err(DownloadError::MaxRetriesExceeded)),
    ];
    let summary = summarize(outcomes, Duration::from_millis(5));
    assert_eq!(summary.total_packages, 4);
    assert_eq!(summary.successful, 2);
    assert_eq!(summary.failed.len(), 2);
    assert_eq!(summary.failed[0].package, "b");
    assert!(matches!(&summary.failed[0].error, DownloadError::Network(m) if m == "Simulated failure"));
    assert_eq!(summary.failed[1].package, "d");
    assert!(matches!(summary.failed[1].error, DownloadError::MaxRetriesExceeded));
    assert_eq!(summary.failed[1].retry_count, 0);
    assert_eq!(summary.duration, Duration::from_millis(5));
}

#[test]
fn empty_batch_summary() {
    let summary = summarize(Vec::new(), Duration::from_millis(0));
    assert_eq!(summary.total_packages, 0);
    assert_eq!(summary.successful, 0);
    assert!(summary.failed.is_empty());
}

use gget::commit::{first_commit_step, next_commit_step, CommitStep, StepReport};

fn report(ok: bool, target_exists: bool, parent_exists: bool) -> StepReport {
    StepReport { ok, target_exists, parent_exists }
}

fn steps(reports: &[StepReport]) -> Vec<CommitStep> {
    let mut step = first_commit_step();
    let mut seen = vec![step];
    for r in reports {
        if let CommitStep::Finished { .. } = step {
            break;
        }
        step = next_commit_step(step, *r);
        seen.push(step);
    }
    seen
}

#[test]
fn failed_download_never_touches_the_target() {
    let seen = steps(&[report(false, true, true), report(true, true, true), report(true, true, true)]);
    assert_eq!(
        seen,
        vec![
            CommitStep::Download,
            CommitStep::CleanUp { succeeded: false },
            CommitStep::Finished { succeeded: false }
        ]
    );
}

#[test]
fn failed_validation_never_touches_the_target() {
    let seen = steps(&[report(true, false, true), report(false, false, true), report(true, false, true), report(true, false, true)]);
    assert_eq!(
        seen,
        vec![
            CommitStep::Download,
            CommitStep::Validate,
            CommitStep::CleanUp { succeeded: false },
            CommitStep::Finished { succeeded: false }
        ]
    );
}

#[test]
fn valid_download_replaces_an_existing_target() {
    let seen = steps(&[
        report(true, true, true),
        report(true, true, true),
        report(true, false, true),
        report(true, true, true),
        report(true, true, true),
    ]);
    assert_eq!(
        seen,
        vec![
            CommitStep::Download,
            CommitStep::Validate,
            CommitStep::RemoveTarget,
            CommitStep::Rename,
            CommitStep::CleanUp { succeeded: true },
            CommitStep::Finished { succeeded: true }
        ]
    );
}

#[test]
fn missing_parent_is_created_before_the_rename() {
    let seen = steps(&[
        report(true, false, false),
        report(true, false, false),
        report(true, false, true),
        report(false, false, true),
        report(true, false, true),
    ]);
    assert_eq!(
        seen,
        vec![
            CommitStep::Download,
            CommitStep::Validate,
            CommitStep::CreateParent,
            CommitStep::Rename,
            CommitStep::CleanUp { succeeded: false },
            CommitStep::Finished { succeeded: false }
        ]
    );
}
