//! Runs that are tried again.

use fkst_framework::config::RetryDecl;
use fkst_framework::delivery_types::RetryPolicy;
use fkst_framework::duration::Duration;
use fkst_framework::event::Event;
use fkst_framework::json::parse_json;
use fkst_framework::retry_state::{
    complete, error_excerpt, event_dedup_key, has_empty_segment, is_due, marker_text,
    policy_from_decl, reliable_key, renew_lease, start_decision, sweep_decision, Completion,
    CompletionStatus, Renewal, RetryRecord, StartDecision, SweepAction, RETRY_EXCERPT_LIMIT,
};

fn event() -> Event {
    Event {
        queue: "input".to_string(),
        payload: parse_json(br#"{"dedup_key": "jobs/one"}"#).unwrap(),
        ts: 5,
    }
}

fn started(existing: &Option<RetryRecord>, now_ms: u64, lease: Duration) -> RetryRecord {
    match start_decision(&event(), "worker", "jobs/one", false, existing, now_ms, lease) {
        StartDecision::Run { record } => record,
        _ => panic!("expected run"),
    }
}

fn retry_record(queue: &str, due_at: u64) -> RetryRecord {
    let mut record = started(&None, 0, Duration::from_secs(1));
    record.queue = queue.to_string();
    record.due_at = due_at;
    record
}

fn retry_policy(max_attempts: u64) -> RetryPolicy {
    RetryPolicy {
        max_attempts,
        base: Duration::from_secs(60),
        cap: Duration::from_secs(60),
    }
}

fn failed(current: &Option<RetryRecord>, generation: u64, policy: &RetryPolicy) -> Completion {
    complete(
        policy,
        "worker",
        &event(),
        "jobs/one",
        generation,
        &CompletionStatus::Failure {
            error: "current failure".to_string(),
        },
        current,
        1_000,
        "2026-01-01T00:00:00Z",
    )
}

/// Whether a key is made of short pieces of safe characters.
fn runtime_safe(key: &str) -> bool {
    key.split('/').all(|piece| {
        !piece.is_empty()
            && piece.len() <= 255
            && piece != "."
            && piece != ".."
            && piece
                .bytes()
                .all(|b| b.is_ascii_alphanumeric() || b == b'_' || b == b'-' || b == b'.')
    })
}

#[test]
fn reliable_key_sanitizes_dept_and_dedup_key() {
    let key = reliable_key("review/dept", "owner/repo#pr#4@2026-06-04").ok().unwrap();

    assert_eq!(key.as_str(), "review-dept/owner/repo-pr-4-2026-06-04");
    assert!(runtime_safe(key.as_str()));
}

#[test]
fn lossy_dedup_key_sanitization_warns() {
    let key = reliable_key("worker", "owner/repo#pr#4@2026").ok().unwrap();
    assert_eq!(key.as_str(), "worker/owner/repo-pr-4-2026");
    assert!(key.lossy);
    assert!(!reliable_key("worker", "owner/repo").ok().unwrap().lossy);
}

#[test]
fn retry_state_error_excerpt_truncates_on_utf8_boundary() {
    let excerpt = error_excerpt(&"é".repeat(300));

    assert!(excerpt.len() <= RETRY_EXCERPT_LIMIT);
    assert!(excerpt.is_char_boundary(excerpt.len()));
}

#[test]
fn start_decision_skips_pending_without_refreshing_record() {
    let first = started(&None, 1_000, Duration::from_secs(60));

    let second = start_decision(
        &event(),
        "worker",
        "jobs/one",
        false,
        &Some(first),
        2_000,
        Duration::from_secs(120),
    );

    assert!(matches!(second, StartDecision::SkipPending));
}

#[test]
fn start_decision_writes_lease_record_with_attempt_zero() {
    let record = started(&None, 1_000, Duration::from_secs(60));

    assert_eq!(record.queue, "input");
    assert_eq!(record.dept, "worker");
    assert_eq!(record.attempt, 0);
    assert_eq!(record.due_at, 61_000);
}

#[test]
fn a_marked_run_is_not_started() {
    let marked = start_decision(
        &event(),
        "worker",
        "jobs/one",
        true,
        &None,
        1_000,
        Duration::from_secs(1),
    );
    assert!(matches!(marked, StartDecision::SkipMarked));
    assert_eq!(event_dedup_key(&event()), Some("jobs/one".to_string()));
}

#[test]
fn renew_lease_extends_due_at_without_changing_attempt_or_generation() {
    let before = started(&None, 1_000, Duration::from_millis(1));
    let (attempt, generation, due_at) = (before.attempt, before.generation, before.due_at);

    match renew_lease(false, &Some(before), generation, 1_000, Duration::from_secs(60)) {
        Renewal::Write { record } => {
            assert_eq!(record.attempt, attempt);
            assert_eq!(record.generation, generation);
            assert!(record.due_at > due_at);
        }
        _ => panic!("expected the record to be written"),
    }
}

#[test]
fn stale_failure_completion_does_not_increment_or_dead_letter() {
    let first = started(&None, 1_000, Duration::from_millis(0));
    let first_generation = first.generation;
    let second = Some(started(&Some(first), 1_000, Duration::from_secs(60)));
    let second_generation = second.as_ref().unwrap().generation;

    assert!(matches!(
        failed(&second, first_generation, &retry_policy(2)),
        Completion::Nothing
    ));
    match failed(&second, second_generation, &retry_policy(2)) {
        Completion::Retry { record } => {
            assert_eq!(record.attempt, 1);
            assert_eq!(record.generation, second_generation);
            assert_eq!(record.last_error_excerpt, "current failure");
        }
        _ => panic!("expected another try"),
    }
}

#[test]
fn a_run_that_failed_too_often_is_buried() {
    let current = Some(started(&None, 1_000, Duration::from_secs(60)));
    let generation = current.as_ref().unwrap().generation;

    match failed(&current, generation, &retry_policy(1)) {
        Completion::Bury { dead, letter } => {
            assert_eq!(dead.attempts, 1);
            assert_eq!(dead.original_queue, "input");
            assert!(letter.is_some());
        }
        _ => panic!("expected the run to be buried"),
    }
}

#[test]
fn retry_sweeper_reinjects_due_record_to_original_queue() {
    let record = started(&None, 1_000, Duration::from_secs(1));

    match sweep_decision(false, &Some(record), 2_000) {
        SweepAction::Send { event } => assert_eq!(event.queue, "input"),
        _ => panic!("expected the event to be sent"),
    }
}

#[test]
fn retry_sweeper_deletes_record_when_marker_exists() {
    let record = started(&None, 1_000, Duration::from_secs(1));

    assert!(matches!(
        sweep_decision(true, &Some(record), 0),
        SweepAction::Remove
    ));
}

#[test]
fn retry_sweeper_skips_record_before_due_at() {
    let record = started(&None, 1_000, Duration::from_secs(1));

    assert!(!is_due(&record, 1_999));
    assert!(is_due(&record, 2_000));
    assert!(matches!(
        sweep_decision(false, &Some(record), 1_999),
        SweepAction::Leave
    ));
}

#[test]
fn retry_policies_are_read_from_their_declaration() {
    let decl = RetryDecl {
        max_attempts: 4,
        base: "5s".to_string(),
        cap: "2m".to_string(),
    };
    let policy = policy_from_decl(&decl).ok().unwrap();

    assert_eq!(policy.max_attempts, 4);
    assert_eq!(policy.base, Duration::from_secs(5));
    assert_eq!(policy.cap, Duration::from_secs(120));
}

#[test]
fn a_marker_names_its_run() {
    let text = marker_text("worker/jobs/one", "2026-01-01T00:00:00Z");
    assert!(text.contains("worker/jobs/one"), "{text}");
    assert!(text.contains("2026-01-01T00:00:00Z"), "{text}");
}

#[test]
fn retry_sweeper_rechecks_due_at_after_lock() {
    let first = retry_record("input", 0);
    assert!(is_due(&first, 1_000));
    let second = retry_record("input", 61_000);
    assert!(matches!(
        sweep_decision(false, &Some(second), 1_000),
        SweepAction::Leave
    ));
}

#[test]
fn retry_sweeper_keeps_attempt_unchanged_after_reinject() {
    let mut record = retry_record("input", 0);
    record.attempt = 2;
    let persisted = Some(record);
    assert!(matches!(
        sweep_decision(false, &persisted, 1_000),
        SweepAction::Send { .. }
    ));
    assert_eq!(persisted.unwrap().attempt, 2);
}

#[test]
fn a_key_without_a_segment_is_refused() {
    for dedup_key in ["", "/", "//"] {
        let refused = reliable_key("worker", dedup_key).err().unwrap().refused;
        assert_eq!(refused.as_str(), "worker/");
        assert!(has_empty_segment(refused.as_str()));
    }
    let key = reliable_key("worker", "/a//b/").ok().unwrap();
    assert_eq!(key.as_str(), "worker/a/b");
    assert!(key.lossy && !has_empty_segment(key.as_str()));
}
