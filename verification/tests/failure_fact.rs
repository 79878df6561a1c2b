//! Failure facts and the liveness of queues.

use fkst_framework::delivery_types::{DeliveryRecord, SourceKind, SourceRef};
use fkst_framework::event::Event;
use fkst_framework::failure_fact::{
    classify_delivery_error, dead_letter_payload, delivery_failure_fact, fingerprint,
    schema_validation_failure_fact, store_watchdog_failure_fact, watchdog_warning, ErrorClass,
    STORE_OP_WARN_AFTER_MS,
};
use fkst_framework::json::{parse_json, Json};
use fkst_framework::queue_starvation::canonicalize_event;

fn json(text: &str) -> Json {
    parse_json(text.as_bytes()).unwrap()
}

fn at(value: &Json, path: &[&str]) -> Json {
    let mut found = value.copy();
    for key in path {
        found = found.get(key).unwrap().copy();
    }
    found
}

fn text_at(value: &Json, path: &[&str]) -> String {
    at(value, path).as_text().unwrap().clone()
}

fn number_at(value: &Json, path: &[&str]) -> u64 {
    at(value, path).as_unsigned().unwrap()
}

fn record(id: &str, queue: &str, dept: &str, payload: Json, source: SourceRef) -> DeliveryRecord {
    DeliveryRecord {
        delivery_id: id.to_string(),
        queue: queue.to_string(),
        dept: dept.to_string(),
        payload,
        source: Some(source),
        cron_payload: None,
        observed_at_ms: 10,
        attempt: 2,
        redrive_count: 0,
        collapse_by_dedup_id: false,
        pending_dirty: false,
        subscriber_absent_since_ms: None,
        lease_generation: 1,
        lease_until_ms: Some(20),
        not_before_ms: 0,
        last_error_excerpt: None,
    }
}

#[test]
fn fingerprint_ignores_timestamps_and_shas() {
    let left = fingerprint(
        ErrorClass::FrameworkChildNonzero,
        "exit=1 at 2026-06-11T09:52:37Z commit abcdef1234567890",
    );
    let right = fingerprint(
        ErrorClass::FrameworkChildNonzero,
        "exit=1 at 2027-01-01T00:00:00Z commit ffffff1234567890",
    );

    assert_eq!(left, right);
}

#[test]
fn fingerprint_tells_errors_and_classes_apart() {
    let one = fingerprint(ErrorClass::FrameworkChildNonzero, "exit=1");
    assert_ne!(one, fingerprint(ErrorClass::FrameworkChildNonzero, "exit=2"));
    assert_ne!(one, fingerprint(ErrorClass::SpawnArgs, "exit=1"));
}

#[test]
fn dead_letter_payload_carries_stable_failure_fields() {
    let record = record(
        "delivery/v1/source/cron/queue/jobs/dept/worker/ref/tick",
        "jobs",
        "worker",
        json(r#"{"n": 1}"#),
        SourceRef {
            kind: SourceKind::Cron,
            reference: "tick".to_string(),
        },
    );

    let payload = dead_letter_payload(&record, "exit=7 stderr=bad", 1_000);

    assert_eq!(text_at(&payload, &["error_class"]), "framework_child_nonzero");
    assert_eq!(number_at(&payload, &["attempt"]), 3);
    assert_eq!(text_at(&payload, &["origin_queue"]), "jobs");
    assert_eq!(text_at(&payload, &["origin_dept"]), "worker");
    assert_eq!(text_at(&payload, &["dedup_id"]), record.delivery_id);
    assert_eq!(text_at(&payload, &["source_ref", "kind"]), "cron");
    assert!(text_at(&payload, &["fingerprint"]).starts_with("framework_child_nonzero:"));
}

#[test]
fn delivery_failure_fact_carries_authoritative_queue_liveness_fields() {
    let mut record = record(
        "delivery/v3/raised/queue/merge-ready/dept/pkg.implementer/dedup/issue-70-pr-82",
        "merge-ready",
        "pkg.implementer",
        json(
            r#"{
                "queue_liveness": {
                    "item_id": "github-devloop/issue/ChronoAIProject/fkst-substrate/70",
                    "linked_item_id": "github-devloop/pr/ChronoAIProject/fkst-substrate/82",
                    "owner": "github-devloop",
                    "state": "merge-ready",
                    "order": 1,
                    "age_seconds": 233880,
                    "slo_seconds": 3600,
                    "breached": true,
                    "next_action": "route through normal intake consensus implementation review pipeline"
                }
            }"#,
        ),
        SourceRef {
            kind: SourceKind::External,
            reference: "observability-sample/queue-starvation".to_string(),
        },
    );
    record.observed_at_ms = 1;
    record.collapse_by_dedup_id = true;
    record.lease_generation = 3;
    record.lease_until_ms = Some(2);
    record.not_before_ms = 70;

    let event = delivery_failure_fact(&record, "exit=13 stderr=permission denied", 1_000);

    let liveness = at(&event.payload, &["queue_liveness"]);
    assert_eq!(
        text_at(&liveness, &["item_id"]),
        "github-devloop/issue/ChronoAIProject/fkst-substrate/70"
    );
    assert_eq!(
        text_at(&liveness, &["linked_item_id"]),
        "github-devloop/pr/ChronoAIProject/fkst-substrate/82"
    );
    assert_eq!(text_at(&liveness, &["queue"]), "merge-ready");
    assert_eq!(text_at(&liveness, &["owner"]), "github-devloop");
    assert_eq!(text_at(&liveness, &["state"]), "merge-ready");
    assert_eq!(number_at(&liveness, &["order"]), 1);
    assert_eq!(number_at(&liveness, &["age_seconds"]), 3898_u64 * 60);
    assert_eq!(number_at(&liveness, &["slo_seconds"]), 60_u64 * 60);
    assert_eq!(at(&liveness, &["breached"]).as_bool(), Some(true));
    assert_eq!(
        text_at(&liveness, &["next_action"]),
        "route through normal intake consensus implementation review pipeline"
    );
    assert_eq!(text_at(&event.payload, &["origin_queue"]), "merge-ready");
    assert_eq!(text_at(&event.payload, &["origin_dept"]), "pkg.implementer");
    assert_eq!(
        text_at(&event.payload, &["source_ref", "reference"]),
        "observability-sample/queue-starvation"
    );
}

#[test]
fn errors_are_classified_by_how_they_start() {
    assert_eq!(
        classify_delivery_error("exit=1 stderr="),
        ErrorClass::FrameworkChildNonzero
    );
    assert_eq!(
        classify_delivery_error("spawn error: missing binary"),
        ErrorClass::FrameworkChildSpawn
    );
    assert_eq!(
        classify_delivery_error("something else"),
        ErrorClass::DeliveryFailure
    );
}

#[test]
fn watchdog_warns_past_threshold_with_op_and_dept() {
    let started = 5_000_000_u128;
    let now = started + (STORE_OP_WARN_AFTER_MS as u128 + 1) * 1_000_000;

    assert_eq!(
        watchdog_warning(started, now),
        Some(STORE_OP_WARN_AFTER_MS + 1)
    );
    let fact = store_watchdog_failure_fact("lease", "worker", STORE_OP_WARN_AFTER_MS + 1, 1_000);
    assert_eq!(text_at(&fact.payload, &["origin_dept"]), "worker");
    let told = format!("{:?}", fact.payload);
    assert!(told.contains("lease"), "{told}");
    assert!(watchdog_warning(started, started).is_none());
}

#[test]
fn schema_failures_are_facts() {
    let fact = schema_validation_failure_fact("queue `x` is not declared", 9);

    assert_eq!(fact.queue, "fkst.failure_fact");
    assert_eq!(fact.ts, 9);
    assert_eq!(text_at(&fact.payload, &["error_class"]), "schema_validation");
}

fn queue_starvation_source_ref() -> Option<SourceRef> {
    Some(SourceRef {
        kind: SourceKind::External,
        reference: "observability-sample/queue-starvation/ChronoAIProject/fkst-substrate/merge-ready/pr/82/proposal/github-devloop/issue/ChronoAIProject/fkst-substrate/70/version/ready-consensus-github-devloo-0129659072".to_string(),
    })
}

#[test]
fn queue_starvation_source_owns_canonical_liveness_contract() {
    let mut event = Event {
        queue: "merge-ready".to_string(),
        payload: json(
            r#"{
                "queue_head_age_minutes": 3898,
                "threshold_minutes": 60,
                "queue_order": 1,
                "queue_liveness": {
                    "item_id": "caller-supplied",
                    "linked_item_id": "caller-supplied",
                    "owner": "caller-supplied",
                    "state": "caller-supplied",
                    "order": 99,
                    "age_seconds": 1,
                    "slo_seconds": 9,
                    "breached": false,
                    "next_action": "caller-supplied"
                }
            }"#,
        ),
        ts: 0,
    };

    canonicalize_event(&mut event, &queue_starvation_source_ref());

    let liveness = at(&event.payload, &["queue_liveness"]);
    assert_eq!(
        text_at(&liveness, &["item_id"]),
        "github-devloop/issue/ChronoAIProject/fkst-substrate/70"
    );
    assert_eq!(
        text_at(&liveness, &["linked_item_id"]),
        "github-devloop/pr/ChronoAIProject/fkst-substrate/82"
    );
    assert_eq!(text_at(&liveness, &["queue"]), "merge-ready");
    assert_eq!(text_at(&liveness, &["owner"]), "github-devloop");
    assert_eq!(text_at(&liveness, &["state"]), "merge-ready");
    assert_eq!(number_at(&liveness, &["order"]), 1);
    assert_eq!(number_at(&liveness, &["age_seconds"]), 3898_u64 * 60);
    assert_eq!(number_at(&liveness, &["slo_seconds"]), 60_u64 * 60);
    assert_eq!(at(&liveness, &["breached"]).as_bool(), Some(true));
    assert_eq!(
        text_at(&liveness, &["next_action"]),
        "route through normal intake consensus implementation review pipeline"
    );
}

#[test]
fn non_queue_starvation_source_does_not_accept_caller_liveness() {
    let mut event = Event {
        queue: "merge-ready".to_string(),
        payload: json(r#"{"queue_liveness": {"item_id": "caller-supplied"}}"#),
        ts: 0,
    };
    let source = Some(SourceRef {
        kind: SourceKind::External,
        reference: "observability-sample/not-queue-starvation".to_string(),
    });

    canonicalize_event(&mut event, &source);

    assert_eq!(
        text_at(&event.payload, &["queue_liveness", "item_id"]),
        "caller-supplied"
    );
}
