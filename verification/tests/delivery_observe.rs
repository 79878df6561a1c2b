//! Snapshots of the delivery store.

use fkst_framework::delivery_lineage::observe_store_lineage;
use fkst_framework::delivery_migration::open_store;
use fkst_framework::delivery_observe::{
    dead_in, deliveries_in, observe_lineage, observe_snapshot, scan_dead, scan_deliveries,
    DeadLetterPageOptions, DeadLetterWindow, DeliveryObserveOptions, DeliveryObserveSnapshot,
    ObserveError, QueueSubscriberStatus,
};
use fkst_framework::delivery_reads::{get, get_dead};
use fkst_framework::delivery_scan::StoreError;
use fkst_framework::delivery_store::{
    collect_leaseable_keys, enqueue, lease_collected, retry, RetryFailure,
};
use fkst_framework::delivery_types::{DeliveryRecord, RetryPolicy, SourceKind, SourceRef};
use fkst_framework::duration::Duration;
use fkst_framework::json::{parse_json, Json};
use fkst_framework::observe_server::{
    plan_request, project_snapshot, undecodable_request, LineageRequest, ObserveAction,
    ObserveProjection, ObserveRequest,
};
use fkst_framework::record_codec::encode_delivery;
use fkst_framework::store_model::RetryOutcome;
use fkst_framework::tables::Row;
use redb::Database;
use tempfile::TempDir;

struct Store {
    db: Database,
}

impl Store {
    fn open(temp: &TempDir) -> Store {
        let db = Database::create(temp.path().join("delivery.redb")).unwrap();
        let mut write = db.begin_write().unwrap();
        open_store(&mut write).unwrap();
        write.commit().unwrap();
        Store { db }
    }

    fn enqueue(&self, record: &DeliveryRecord) -> Result<(), StoreError> {
        let mut write = self.db.begin_write().unwrap();
        enqueue(&mut write, record)?;
        write.commit().unwrap();
        Ok(())
    }

    fn lease_excluding(
        &self,
        dept: Option<&str>,
        now_ms: u64,
        limit: usize,
        dur: Duration,
        excluded: &Vec<String>,
    ) -> Vec<DeliveryRecord> {
        let read = self.db.begin_read().unwrap();
        let keys = collect_leaseable_keys(&read, now_ms, limit, dept, excluded).unwrap();
        let mut write = self.db.begin_write().unwrap();
        let batch =
            lease_collected(&mut write, &keys, now_ms, limit, dur, dept, excluded).unwrap();
        write.commit().unwrap();
        batch.leased
    }

    fn lease(&self, now_ms: u64, limit: usize, dur: Duration) -> Vec<DeliveryRecord> {
        self.lease_excluding(None, now_ms, limit, dur, &Vec::new())
    }

    fn retry(
        &self,
        id: &str,
        generation: u64,
        failure: &RetryFailure,
        policy: &RetryPolicy,
        now_ms: u64,
    ) -> Result<RetryOutcome, StoreError> {
        let mut write = self.db.begin_write().unwrap();
        let outcome = retry(&mut write, id, generation, failure, policy, now_ms)?;
        write.commit().unwrap();
        Ok(outcome)
    }

    fn try_observe(
        &self,
        options: &DeliveryObserveOptions,
    ) -> Result<DeliveryObserveSnapshot, ObserveError> {
        let read = self.db.begin_read().unwrap();
        observe_snapshot(&read, "/durable", "/durable/delivery.redb", options)
    }

    fn observe(&self, options: &DeliveryObserveOptions) -> DeliveryObserveSnapshot {
        self.try_observe(options).unwrap()
    }
}

fn json(text: &str) -> Json {
    parse_json(text.as_bytes()).unwrap()
}

fn record(id: &str, not_before_ms: u64) -> DeliveryRecord {
    DeliveryRecord {
        delivery_id: id.to_string(),
        queue: "input".to_string(),
        dept: "worker".to_string(),
        payload: json(r#"{"n": 1}"#),
        source: None,
        cron_payload: None,
        observed_at_ms: 10,
        attempt: 0,
        redrive_count: 0,
        collapse_by_dedup_id: false,
        pending_dirty: false,
        subscriber_absent_since_ms: None,
        lease_generation: 0,
        lease_until_ms: None,
        not_before_ms,
        last_error_excerpt: None,
    }
}

fn policy(max_attempts: u64) -> RetryPolicy {
    RetryPolicy {
        max_attempts,
        base: Duration::from_millis(100),
        cap: Duration::from_millis(1_000),
    }
}

fn failure(message: &str, replayable: bool) -> RetryFailure {
    RetryFailure {
        message: message.to_string(),
        replayable,
    }
}

fn options(limit: usize) -> DeliveryObserveOptions {
    DeliveryObserveOptions {
        now_ms: 400,
        limit,
        since: None,
        dead_letter_page: None,
        dead_letter_window: None,
        current_subscriber_queues: None,
    }
}

#[test]
fn delivery_observe_observe_snapshot_reports_queue_state_without_payload_body() {
    let temp = TempDir::new().unwrap();
    let store = Store::open(&temp);
    let mut pending = record("pending", 100);
    pending.payload = json(
        r#"{"schema": "github.issue", "dedup_key": "issue-81", "body": "secret body must not be emitted"}"#,
    );
    let retrying = record("retrying", 250);
    store.enqueue(&pending).unwrap();
    store.enqueue(&retrying).unwrap();
    store.lease(100, 1, Duration::from_millis(100));

    let snapshot = store.observe(&DeliveryObserveOptions {
            now_ms: 150,
            limit: 10,
            since: None,
            dead_letter_page: None,
            dead_letter_window: None,
            current_subscriber_queues: None,
    });
    let queue = snapshot
        .queues
        .iter()
        .find(|entry| entry.queue == "input")
        .unwrap();

    assert_eq!(queue.depth, 2);
    assert_eq!(queue.pending, 1);
    assert_eq!(queue.in_flight, 1);
    assert_eq!(queue.retrying, 0);
    assert_eq!(queue.oldest_pending_age_ms, Some(0));
    assert_eq!(queue.subscriber_status, QueueSubscriberStatus::Unknown);
    assert_eq!(queue.has_current_subscriber, None);
    let told = format!("{snapshot:?}");
    assert!(told.contains("schema: Some(\"github.issue\")"));
    assert!(told.contains("dedup_key: Some(\"issue-81\")"));
    assert_eq!(queue.subscriber_status.as_str(), "unknown");
    assert!(!told.contains("secret body must not be emitted"));
}

#[test]
fn delivery_observe_observe_snapshot_reports_retrying_and_dead_letters() {
    let temp = TempDir::new().unwrap();
    let store = Store::open(&temp);
    store.enqueue(&record("one", 100)).unwrap();
    let leased = store.lease(100, 1, Duration::from_millis(50)).remove(0);
    store
        .retry(
            &leased.delivery_id,
            leased.lease_generation,
            &failure("temporary", false),
            &policy(3),
            120,
        )
        .unwrap();
    store.enqueue(&record("dead", 100)).unwrap();
    let dead = store.lease(100, 1, Duration::from_millis(50)).remove(0);
    store
        .retry(
            &dead.delivery_id,
            dead.lease_generation,
            &failure("final", false),
            &policy(1),
            130,
        )
        .unwrap();

    let snapshot = store.observe(&DeliveryObserveOptions {
            now_ms: 121,
            limit: 10,
            since: None,
            dead_letter_page: None,
            dead_letter_window: None,
            current_subscriber_queues: None,
    });
    let queue = snapshot
        .queues
        .iter()
        .find(|entry| entry.queue == "input")
        .unwrap();

    assert_eq!(queue.retrying, 1);
    assert_eq!(snapshot.dead_letters.len(), 1);
    assert_eq!(snapshot.dead_letters[0].delivery_id, "dead");
    assert_eq!(snapshot.dead_letters[0].payload.bytes, 4);
}

#[test]
fn observe_snapshot_filters_dead_letters_by_half_open_window_before_limit() {
    let temp = TempDir::new().unwrap();
    let store = Store::open(&temp);
    for (id, dead_at_ms) in [
        ("outside", 100),
        ("inside", 200),
        ("inside-tie", 200),
        ("end", 300),
        ("end-tie", 300),
    ] {
        store.enqueue(&record(id, 100)).unwrap();
        let leased = store.lease(100, 1, Duration::from_millis(50)).remove(0);
        store
            .retry(
                &leased.delivery_id,
                leased.lease_generation,
                &failure("final", false),
                &policy(1),
                dead_at_ms,
            )
            .unwrap();
    }

    let snapshot = store.observe(&DeliveryObserveOptions {
            now_ms: 400,
            limit: 2,
            since: None,
            dead_letter_page: None,
            dead_letter_window: Some(DeadLetterWindow {
                start_ms: 200,
                end_ms: 300,
            }),
            current_subscriber_queues: None,
    });

    assert_eq!(snapshot.dead_letters.len(), 2);
    assert_eq!(snapshot.dead_letters[0].delivery_id, "inside");
    assert_eq!(snapshot.dead_letters[1].delivery_id, "inside-tie");
    assert!(!snapshot.truncated.dead_letters);
    assert_eq!(snapshot.dead_letters_complete, Some(true));
}

#[test]
fn observe_snapshot_reports_in_window_incompleteness_without_old_history() {
    let temp = TempDir::new().unwrap();
    let store = Store::open(&temp);
    for (id, dead_at_ms) in [("outside", 100), ("inside-one", 200), ("inside-two", 210)] {
        store.enqueue(&record(id, 100)).unwrap();
        let leased = store.lease(100, 1, Duration::from_millis(50)).remove(0);
        store
            .retry(
                &leased.delivery_id,
                leased.lease_generation,
                &failure("final", false),
                &policy(1),
                dead_at_ms,
            )
            .unwrap();
    }

    let snapshot = store.observe(&DeliveryObserveOptions {
            now_ms: 400,
            limit: 1,
            since: None,
            dead_letter_page: None,
            dead_letter_window: Some(DeadLetterWindow {
                start_ms: 200,
                end_ms: 300,
            }),
            current_subscriber_queues: None,
    });

    assert_eq!(snapshot.dead_letters.len(), 1);
    assert_eq!(snapshot.dead_letters[0].delivery_id, "inside-one");
    assert!(snapshot.truncated.dead_letters);
    assert_eq!(snapshot.dead_letters_complete, Some(false));
}

#[test]
fn delivery_observe_observe_snapshot_marks_truncation() {
    let temp = TempDir::new().unwrap();
    let store = Store::open(&temp);
    store.enqueue(&record("one", 100)).unwrap();
    store.enqueue(&record("two", 100)).unwrap();

    let snapshot = store.observe(&DeliveryObserveOptions {
            now_ms: 100,
            limit: 1,
            since: None,
            dead_letter_page: None,
            dead_letter_window: None,
            current_subscriber_queues: None,
    });

    assert_eq!(snapshot.deliveries.len(), 1);
    assert!(snapshot.truncated.deliveries);
}

#[test]
fn observe_snapshot_applies_since_before_limit() {
    let temp = TempDir::new().unwrap();
    let store = Store::open(&temp);
    store.enqueue(&record("delivery-001", 100)).unwrap();
    store.enqueue(&record("delivery-002", 100)).unwrap();
    store.enqueue(&record("delivery-003", 100)).unwrap();

    let snapshot = store.observe(&DeliveryObserveOptions {
            now_ms: 100,
            limit: 1,
            since: Some("delivery-001".to_string()),
            dead_letter_page: None,
            dead_letter_window: None,
            current_subscriber_queues: None,
    });

    assert_eq!(snapshot.deliveries.len(), 1);
    assert_eq!(snapshot.deliveries[0].delivery_id, "delivery-002");
    assert!(snapshot.truncated.deliveries);
}

#[test]
fn observe_snapshot_marks_subscriber_status_when_graph_is_available() {
    let temp = TempDir::new().unwrap();
    let store = Store::open(&temp);
    store.enqueue(&record("subscribed", 100)).unwrap();
    let mut orphan = record("orphan", 100);
    orphan.queue = "orphan".to_string();
    orphan.dept = "removed_worker".to_string();
    store.enqueue(&orphan).unwrap();

    let snapshot = store.observe(&DeliveryObserveOptions {
            now_ms: 100,
            limit: 10,
            since: None,
            dead_letter_page: None,
            dead_letter_window: None,
            current_subscriber_queues: Some(vec!["input".to_string()]),
    });

    let input = snapshot
        .queues
        .iter()
        .find(|entry| entry.queue == "input")
        .unwrap();
    let orphan = snapshot
        .queues
        .iter()
        .find(|entry| entry.queue == "orphan")
        .unwrap();
    assert_eq!(input.subscriber_status, QueueSubscriberStatus::Current);
    assert_eq!(orphan.subscriber_status, QueueSubscriberStatus::Absent);
    assert_eq!(input.has_current_subscriber, Some(true));
    assert_eq!(orphan.has_current_subscriber, Some(false));
}

#[test]
fn a_snapshot_says_where_it_comes_from() {
    let temp = TempDir::new().unwrap();
    let snapshot = Store::open(&temp).observe(&options(2));

    assert_eq!(snapshot.schema_version, 1);
    assert_eq!(snapshot.generated_at_ms, 400);
    assert_eq!(snapshot.source.durable_root, "/durable");
    assert_eq!(snapshot.source.database, "/durable/delivery.redb");
    assert_eq!(snapshot.limits.max_deliveries, 2);
    assert_eq!(snapshot.limits.max_dead_letters, 2);
    assert!(!snapshot.truncated.deliveries && !snapshot.truncated.dead_letters);
    assert!(snapshot.page.is_none());
}

#[test]
fn pages_of_dead_letters_go_on_where_the_last_one_ended() {
    let temp = TempDir::new().unwrap();
    let store = Store::open(&temp);
    for (id, dead_at_ms) in [("one", 200), ("two", 210), ("three", 220)] {
        store.enqueue(&record(id, 100)).unwrap();
        let leased = store.lease(100, 1, Duration::from_millis(50)).remove(0);
        store
            .retry(
                &leased.delivery_id,
                leased.lease_generation,
                &failure("final", false),
                &policy(1),
                dead_at_ms,
            )
            .unwrap();
    }

    let mut asked = options(2);
    asked.dead_letter_page = Some(DeadLetterPageOptions { after: None });
    let first = store.observe(&asked);
    let next = first.page.unwrap().next;
    asked.dead_letter_page = Some(DeadLetterPageOptions { after: next });
    let second = store.observe(&asked);

    assert_eq!(first.dead_letters.len(), 2);
    assert_eq!(first.dead_letters[0].delivery_id, "one");
    assert_eq!(first.dead_letters[1].delivery_id, "two");
    assert_eq!(second.dead_letters.len(), 1);
    assert_eq!(second.dead_letters[0].delivery_id, "three");
    assert!(second.page.unwrap().next.is_none());
}

#[test]
fn an_empty_cursor_and_a_page_with_a_cursor_are_refused() {
    let temp = TempDir::new().unwrap();
    let store = Store::open(&temp);

    let mut empty = options(1);
    empty.since = Some(String::new());
    let err = store.try_observe(&empty).unwrap_err();
    assert!(matches!(err, ObserveError::EmptyCursor));
    assert_eq!(err.message(), "observe since cursor must not be empty");

    let mut both = options(1);
    both.since = Some("one".to_string());
    both.dead_letter_page = Some(DeadLetterPageOptions { after: None });
    let err = store.try_observe(&both).unwrap_err();
    assert!(matches!(err, ObserveError::PageWithCursor));
    assert_eq!(err.message(), "fkst.observe page cannot be combined with since");
}

#[test]
fn a_lineage_tells_of_a_live_and_a_dead_delivery() {
    let temp = TempDir::new().unwrap();
    let store = Store::open(&temp);
    store.enqueue(&record("gone", 100)).unwrap();
    let leased = store.lease(100, 1, Duration::from_millis(50)).remove(0);
    store
        .retry(&leased.delivery_id, 1, &failure("final", false), &policy(1), 120)
        .unwrap();
    store.enqueue(&record("live", 100)).unwrap();

    let read = store.db.begin_read().unwrap();
    let told = observe_lineage(
        &get(&read, "live").unwrap(),
        &get_dead(&read, "gone").unwrap(),
        130,
    )
    .unwrap();

    assert_eq!(told.live_delivery.unwrap().fence_token, "live#0");
    assert_eq!(told.terminal_dead_letter.unwrap().dead_at_ms, 120);
}

fn request(limit: usize, lineage: Option<LineageRequest>) -> ObserveRequest {
    ObserveRequest {
        now_ms: 7,
        limit,
        since: None,
        page: None,
        lineage,
        projection: ObserveProjection::default(),
    }
}

#[test]
fn requests_are_answered_with_a_lineage_or_a_bounded_snapshot() {
    let lineage = LineageRequest {
        queue: "jobs".to_string(),
        dept: "worker".to_string(),
        source_ref: SourceRef {
            kind: SourceKind::Cron,
            reference: "tick".to_string(),
        },
    };
    match plan_request(request(5, Some(lineage)), 100, Vec::new()) {
        ObserveAction::Lineage { lineage, now_ms } => {
            assert_eq!(lineage.dept, "worker");
            assert_eq!(now_ms, 7);
        }
        ObserveAction::Snapshot { .. } => panic!("expected a lineage"),
    }

    for (asked, told) in [(0, 1), (5, 5), (500, 100)] {
        match plan_request(request(asked, None), 100, vec!["jobs".to_string()]) {
            ObserveAction::Snapshot { options, .. } => {
                assert_eq!(options.limit, told);
                assert_eq!(
                    options.current_subscriber_queues,
                    Some(vec!["jobs".to_string()])
                );
            }
            ObserveAction::Lineage { .. } => panic!("expected a snapshot"),
        }
    }
    assert_eq!(
        undecodable_request("EOF"),
        "decode observe request: EOF".to_string()
    );
}

#[test]
fn connection_serves_bounded_lineage_result() {
    let temp = TempDir::new().unwrap();
    let store = Store::open(&temp);
    let source_ref = SourceRef {
        kind: SourceKind::External,
        reference: "owner/repo#issue/42".to_string(),
    };
    let mut delivery = record("one", 10);
    delivery.source = Some(source_ref.copy());
    let (queue, dept) = (delivery.queue.clone(), delivery.dept.clone());
    store.enqueue(&delivery).unwrap();
    let mut other = record("another", 10);
    other.source = Some(SourceRef {
        kind: SourceKind::Cron,
        reference: "owner/repo#issue/42".to_string(),
    });
    store.enqueue(&other).unwrap();

    let mut request = request(
        100,
        Some(LineageRequest {
            queue,
            dept,
            source_ref,
        }),
    );
    request.now_ms = 100;
    let ObserveAction::Lineage { lineage, now_ms } = plan_request(request, 100, Vec::new()) else {
        panic!("expected a lineage");
    };
    let read = store.db.begin_read().unwrap();
    let told = observe_store_lineage(
        &read,
        &lineage.queue,
        &lineage.dept,
        &lineage.source_ref,
        now_ms,
    )
    .unwrap();

    assert_eq!(told.live_delivery.unwrap().delivery_id, "one");
    assert!(told.terminal_dead_letter.is_none());
}

#[test]
fn a_lineage_ends_with_a_delivery_that_is_dead_for_good() {
    let temp = TempDir::new().unwrap();
    let store = Store::open(&temp);
    let mut delivery = record("gone", 100);
    let source_ref = SourceRef {
        kind: SourceKind::External,
        reference: "owner/repo#issue/7".to_string(),
    };
    delivery.source = Some(source_ref.copy());
    let (queue, dept) = (delivery.queue.clone(), delivery.dept.clone());
    store.enqueue(&delivery).unwrap();
    let leased = store.lease(100, 1, Duration::from_millis(50)).remove(0);
    store
        .retry(&leased.delivery_id, 1, &failure("final", false), &policy(1), 120)
        .unwrap();

    let read = store.db.begin_read().unwrap();
    let told = observe_store_lineage(&read, &queue, &dept, &source_ref, 130).unwrap();
    assert!(told.live_delivery.is_none());
    assert_eq!(told.terminal_dead_letter.unwrap().delivery_id, "gone");
    let told = observe_store_lineage(&read, &queue, "other", &source_ref, 130).unwrap();
    assert!(told.live_delivery.is_none());
    assert!(told.terminal_dead_letter.is_none());
}

#[test]
fn connection_pushes_event_projection_into_bounded_store_read() {
    let temp = TempDir::new().unwrap();
    let store = Store::open(&temp);
    for index in 0..32 {
        store
            .enqueue(&record(&format!("delivery-{index:02}"), 10))
            .unwrap();
    }
    let mut asked = request(1, None);
    asked.now_ms = 100;
    asked.projection = ObserveProjection {
        queue_aggregates: false,
        deliveries: true,
        dead_letters: false,
    };
    let ObserveAction::Snapshot {
        options,
        projection,
    } = plan_request(asked, 100, vec!["jobs".to_string()])
    else {
        panic!("expected a snapshot");
    };
    let snapshot = project_snapshot(store.try_observe(&options).unwrap(), projection);

    assert!(snapshot.queues.is_empty());
    assert_eq!(snapshot.deliveries.len(), 1);
    assert!(snapshot.truncated.deliveries);
    assert!(snapshot.dead_letters.is_empty());
}

#[test]
fn a_new_store_has_tables_to_read() {
    let temp = TempDir::new().unwrap();
    let store = Store::open(&temp);
    let read = store.db.begin_read().unwrap();
    assert!(scan_deliveries(&read).unwrap().is_empty());
    assert!(scan_dead(&read).unwrap().is_empty());
    for table in [
        "ready_by_dept_due",
        "leased_by_dept_until",
        "dead_by_dept_due",
        "terminal_dead_by_time",
    ] {
        let keys: redb::TableDefinition<&str, ()> = redb::TableDefinition::new(table);
        assert!(read.open_table(keys).is_ok(), "{table}");
    }
    for table in ["terminal_suppression_by_slot", "meta"] {
        let texts: redb::TableDefinition<&str, &str> = redb::TableDefinition::new(table);
        assert!(read.open_table(texts).is_ok(), "{table}");
    }
}

#[test]
fn rows_that_cannot_be_read_are_passed_over() {
    let rows = vec![
        Row {
            key: "bad".to_string(),
            value: b"{not json".to_vec(),
        },
        Row {
            key: "one".to_string(),
            value: encode_delivery(&record("one", 10)),
        },
    ];
    let found = deliveries_in(&rows);
    assert_eq!(found.len(), 1);
    assert_eq!(found[0].delivery_id, "one");
    assert!(dead_in(&rows).is_empty());
}

#[test]
fn queues_are_counted_alike_whatever_is_asked_for() {
    let temp = TempDir::new().unwrap();
    let store = Store::open(&temp);
    for (id, queue) in [("a", "later"), ("b", "early"), ("c", "later"), ("d", "later")] {
        let mut d = record(id, 100);
        d.queue = queue.to_string();
        store.enqueue(&d).unwrap();
    }
    store.lease(100, 1, Duration::from_millis(1_000));
    let mut second = options(3);
    second.since = Some("a".to_string());
    for asked in [options(0), options(1), second] {
        let queues = store.observe(&asked).queues;
        assert_eq!(queues.len(), 2);
        assert_eq!((queues[0].queue.as_str(), queues[0].depth), ("early", 1));
        assert_eq!((queues[1].queue.as_str(), queues[1].depth), ("later", 3));
        assert_eq!(queues[0].in_flight + queues[1].in_flight, 1);
        assert_eq!(queues.iter().map(|q| q.depth).sum::<usize>(), 4);
    }
}
