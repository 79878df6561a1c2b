//! The delivery store on a real database.

use fkst_framework::delivery_index::{make_dead_due_index_key, make_index_key};
use fkst_framework::delivery_migration::open_store;
use fkst_framework::delivery_observe::{observe_store, DeliveryObserveSnapshot};
use fkst_framework::delivery_reads::{get, get_dead, plan_redrive};
use fkst_framework::delivery_retry::{backoff_delay, bounded_jitter, ERROR_EXCERPT_LIMIT};
use fkst_framework::delivery_scan::StoreError;
use fkst_framework::delivery_store::{
    ack, enqueue, lease_collected, plan_lease, redrive_collected, renew_lease, renew_leases, retry,
    scan_budget, suppress_terminal_delivery, terminal_delivery_is_suppressed, RedriveResult,
    RetryFailure,
};
use fkst_framework::delivery_types::{
    copy_source, dead_to_json, same_source, DeadRecord, DeliveryRecord, RedrivePolicy, RetryPolicy,
    SourceKind, SourceRef,
};
use fkst_framework::digest::{fnv1a64, FNV_OFFSET};
use fkst_framework::duration::Duration;
use fkst_framework::json::{same_json, Json, Member};
use fkst_framework::record_codec::{
    decode_dead_record, encode_dead, encode_delivery, read_delivery,
};
use fkst_framework::store_model::{
    RetryOutcome, TERMINAL_DEAD_RETENTION_MS, TERMINAL_SUPPRESSION_SLOTS,
};
use redb::{Database, ReadableTable, ReadableTableMetadata, TableDefinition};
use std::cell::Cell;
use std::path::Path;
use tempfile::TempDir;

const DELIVERY_BY_ID: TableDefinition<&str, &[u8]> = TableDefinition::new("delivery_by_id");
const DEAD_BY_ID: TableDefinition<&str, &[u8]> = TableDefinition::new("dead_by_id");
const READY_BY_DEPT_DUE: TableDefinition<&str, ()> = TableDefinition::new("ready_by_dept_due");
const LEASED_BY_DEPT_UNTIL: TableDefinition<&str, ()> =
    TableDefinition::new("leased_by_dept_until");
const DEAD_BY_DEPT_DUE: TableDefinition<&str, ()> = TableDefinition::new("dead_by_dept_due");
const TERMINAL_DEAD_BY_TIME: TableDefinition<&str, ()> =
    TableDefinition::new("terminal_dead_by_time");
const TERMINAL_SUPPRESSION_BY_SLOT: TableDefinition<&str, &str> =
    TableDefinition::new("terminal_suppression_by_slot");
const META: TableDefinition<&str, &str> = TableDefinition::new("meta");
const OLD_READY_BY_DUE: TableDefinition<(u64, &str), ()> = TableDefinition::new("ready_by_due");

/// A database with the operations of the library, each in a transaction of its own.
struct Store {
    db: Database,
    opened: Cell<usize>,
    committed: Cell<usize>,
}

type Outcome<T> = Result<T, StoreError>;

impl Store {
    fn open(path: &Path) -> Store {
        let db = Database::create(path).unwrap();
        let mut write = db.begin_write().unwrap();
        open_store(&mut write).unwrap();
        write.commit().unwrap();
        Store {
            db,
            opened: Cell::new(0),
            committed: Cell::new(0),
        }
    }

    fn reset_write_counts(&self) {
        self.opened.set(0);
        self.committed.set(0);
    }

    fn write_counts(&self) -> (usize, usize) {
        (self.opened.get(), self.committed.get())
    }

    fn begin(&self) -> redb::WriteTransaction {
        self.opened.set(self.opened.get() + 1);
        self.db.begin_write().unwrap()
    }

    fn commit(&self, write: redb::WriteTransaction) {
        self.committed.set(self.committed.get() + 1);
        write.commit().unwrap();
    }

    fn enqueue(&self, record: &DeliveryRecord) -> Outcome<()> {
        let mut write = self.begin();
        enqueue(&mut write, record)?;
        self.commit(write);
        Ok(())
    }

    fn lease(&self, now_ms: u64, limit: usize, dur: Duration) -> Outcome<Vec<DeliveryRecord>> {
        self.lease_matching(now_ms, limit, dur, None, &Vec::new())
    }

    fn lease_for_dept(
        &self,
        dept: &str,
        now_ms: u64,
        limit: usize,
        dur: Duration,
    ) -> Outcome<Vec<DeliveryRecord>> {
        self.lease_matching(now_ms, limit, dur, Some(dept), &Vec::new())
    }

    fn lease_for_dept_excluding(
        &self,
        dept: &str,
        now_ms: u64,
        limit: usize,
        dur: Duration,
        excluded: &Vec<String>,
    ) -> Outcome<Vec<DeliveryRecord>> {
        self.lease_matching(now_ms, limit, dur, Some(dept), excluded)
    }

    fn lease_matching(
        &self,
        now_ms: u64,
        limit: usize,
        dur: Duration,
        dept: Option<&str>,
        excluded: &Vec<String>,
    ) -> Outcome<Vec<DeliveryRecord>> {
        let read = self.db.begin_read().unwrap();
        let Some(keys) = plan_lease(&read, now_ms, limit, dept, excluded)? else {
            return Ok(Vec::new());
        };
        let mut write = self.begin();
        let batch = lease_collected(&mut write, &keys, now_ms, limit, dur, dept, excluded)?;
        if batch.mutated {
            self.commit(write);
        }
        Ok(batch.leased)
    }

    fn renew_lease(&self, id: &str, generation: u64, until_ms: u64) -> Outcome<bool> {
        let mut write = self.begin();
        let renewed = renew_lease(&mut write, id, generation, until_ms)?;
        self.commit(write);
        Ok(renewed)
    }

    fn ack(&self, id: &str, generation: u64) -> Outcome<bool> {
        let mut write = self.begin();
        let acked = ack(&mut write, id, generation)?;
        self.commit(write);
        Ok(acked)
    }

    fn retry(
        &self,
        id: &str,
        generation: u64,
        failure: &RetryFailure,
        policy: &RetryPolicy,
        now_ms: u64,
    ) -> Outcome<RetryOutcome> {
        let mut write = self.begin();
        let outcome = retry(&mut write, id, generation, failure, policy, now_ms)?;
        self.commit(write);
        Ok(outcome)
    }

    fn redrive_due(
        &self,
        policy: &RedrivePolicy,
        now_ms: u64,
        limit: usize,
    ) -> Outcome<RedriveResult> {
        let read = self.db.begin_read().unwrap();
        let Some(keys) = plan_redrive(&read, policy, now_ms, limit)? else {
            return Ok(RedriveResult {
                redriven: Vec::new(),
                permanent: Vec::new(),
                mutated: false,
            });
        };
        let mut write = self.begin();
        let result = redrive_collected(&mut write, &keys, policy, now_ms)?;
        if result.mutated {
            self.commit(write);
        }
        Ok(result)
    }

    fn get(&self, id: &str) -> Outcome<Option<DeliveryRecord>> {
        get(&self.db.begin_read().unwrap(), id)
    }

    fn get_dead(&self, id: &str) -> Outcome<Option<DeadRecord>> {
        get_dead(&self.db.begin_read().unwrap(), id)
    }

    fn observe_snapshot(&self, now_ms: u64, limit: usize) -> DeliveryObserveSnapshot {
        let read = self.db.begin_read().unwrap();
        observe_store(&read, "/durable", "/durable/delivery.redb", now_ms, limit).unwrap()
    }

    fn keys(&self, table: TableDefinition<&str, ()>) -> Outcome<usize> {
        let read = self.db.begin_read().unwrap();
        Ok(read.open_table(table).unwrap().iter().unwrap().count())
    }

    fn ready_index_len(&self) -> Outcome<usize> {
        self.keys(READY_BY_DEPT_DUE)
    }

    fn leased_index_len(&self) -> Outcome<usize> {
        self.keys(LEASED_BY_DEPT_UNTIL)
    }

    fn dead_due_index_len(&self) -> Outcome<usize> {
        self.keys(DEAD_BY_DEPT_DUE)
    }

    fn terminal_dead_index_len(&self) -> Outcome<usize> {
        self.keys(TERMINAL_DEAD_BY_TIME)
    }

    fn terminal_suppression_slot_len(&self) -> Outcome<usize> {
        let read = self.db.begin_read().unwrap();
        let slots = read.open_table(TERMINAL_SUPPRESSION_BY_SLOT).unwrap();
        Ok(slots.len().unwrap() as usize)
    }

    fn terminal_suppresses(&self, id: &str) -> Outcome<bool> {
        terminal_delivery_is_suppressed(&self.db.begin_write().unwrap(), id)
    }
}

fn store(temp: &TempDir) -> Store {
    Store::open(&temp.path().join("delivery.redb"))
}

fn number_payload(n: u64) -> Json {
    Json::Object(vec![Member {
        key: "n".to_string(),
        value: Json::Unsigned(n),
    }])
}

fn text_payload(members: &[(&str, &str)]) -> Json {
    let mut out = Vec::new();
    for (key, value) in members {
        out.push(Member {
            key: key.to_string(),
            value: Json::Text(value.to_string()),
        });
    }
    Json::Object(out)
}

fn record(id: &str, not_before_ms: u64) -> DeliveryRecord {
    DeliveryRecord {
        delivery_id: id.to_string(),
        queue: "input".to_string(),
        dept: "worker".to_string(),
        payload: number_payload(1),
        source: None,
        cron_payload: None,
        observed_at_ms: 10,
        attempt: 0,
        redrive_count: 0,
        collapse_by_dedup_id: false,
        pending_dirty: false,
        subscriber_absent_since_ms: None,
        lease_generation: 0,
        lease_until_ms: None,
        not_before_ms,
        last_error_excerpt: None,
    }
}

fn policy(max_attempts: u64) -> RetryPolicy {
    RetryPolicy {
        max_attempts,
        base: Duration::from_millis(100),
        cap: Duration::from_millis(1_000),
    }
}

fn failure(message: &str, replayable: bool) -> RetryFailure {
    RetryFailure {
        message: message.to_string(),
        replayable,
    }
}

fn terminal_suppression_hash(id: &str) -> u64 {
    fnv1a64(FNV_OFFSET, id.as_bytes())
}


fn insert_replayable_dead(store: &Store, delivery_id: &str, dead_at_ms: u64) {
    let mut delivery = record(delivery_id, 100);
    delivery.delivery_id = delivery_id.to_string();
    let dead = DeadRecord {
        delivery_id: delivery_id.to_string(),
        queue: delivery.queue.clone(),
        dept: delivery.dept.clone(),
        source: copy_source(&delivery.source),
        observed_at_ms: delivery.observed_at_ms,
        not_before_ms: delivery.not_before_ms,
        dead_at_ms,
        attempts: 1,
        redrive_count: 0,
        replayable: true,
        permanent: false,
        error_excerpt: Some("timeout".to_string()),
        record: Some(delivery),
    };
    let write = store.db.begin_write().unwrap();
    {
        let mut dead_table = write.open_table(DEAD_BY_ID).unwrap();
        dead_table
            .insert(delivery_id, encode_dead(&dead).as_slice())
            .unwrap();
        let mut dead_index = write.open_table(DEAD_BY_DEPT_DUE).unwrap();
        dead_index
            .insert(
                make_dead_due_index_key(&dead.dept, dead.dead_at_ms, delivery_id).as_str(),
                &(),
            )
            .unwrap();
    }
    write.commit().unwrap();
}

fn insert_permanent_dead(store: &Store, delivery_id: &str, dead_at_ms: u64) {
    let dead = DeadRecord {
        delivery_id: delivery_id.to_string(),
        queue: "input".to_string(),
        dept: "worker".to_string(),
        source: None,
        observed_at_ms: 10,
        not_before_ms: 100,
        dead_at_ms,
        attempts: 1,
        redrive_count: 0,
        replayable: false,
        permanent: true,
        error_excerpt: Some("final".to_string()),
        record: None,
    };
    let mut write = store.db.begin_write().unwrap();
    {
        let mut dead_table = write.open_table(DEAD_BY_ID).unwrap();
        dead_table
            .insert(delivery_id, encode_dead(&dead).as_slice())
            .unwrap();
        let mut terminal_index = write.open_table(TERMINAL_DEAD_BY_TIME).unwrap();
        terminal_index
            .insert(
                make_dead_due_index_key(&dead.dept, dead.dead_at_ms, delivery_id).as_str(),
                &(),
            )
            .unwrap();
    }
    suppress_terminal_delivery(&mut write, delivery_id).unwrap();
    write.commit().unwrap();
}

fn colliding_terminal_id(delivery_id: &str) -> String {
    let target_slot = terminal_suppression_hash(delivery_id) % TERMINAL_SUPPRESSION_SLOTS;
    for index in 0..TERMINAL_SUPPRESSION_SLOTS.saturating_mul(2) {
        let candidate = format!("{delivery_id}-slot-collision-{index}");
        if terminal_suppression_hash(&candidate) % TERMINAL_SUPPRESSION_SLOTS == target_slot {
            return candidate;
        }
    }
    panic!("failed to find terminal suppression slot collision");
}

#[test]
fn enqueue_then_lease_returns_due_record() {
    let temp = TempDir::new().unwrap();
    let store = store(&temp);
    store.enqueue(&record("one", 100)).unwrap();

    let leased = store.lease(100, 10, Duration::from_millis(50)).unwrap();

    assert_eq!(leased.len(), 1);
    assert_eq!(leased[0].delivery_id, "one");
}

#[test]
fn duplicate_enqueue_same_content_is_noop() {
    let temp = TempDir::new().unwrap();
    let store = store(&temp);
    let original = record("one", 100);

    store.enqueue(&original).unwrap();
    store.enqueue(&original).unwrap();
    let current = store.get("one").unwrap().unwrap();

    assert_eq!(current.queue, "input");
    assert_eq!(current.not_before_ms, 100);
    assert_eq!(store.ready_index_len().unwrap(), 1);
    assert_eq!(
        store
            .lease(100, 10, Duration::from_millis(50))
            .unwrap()
            .len(),
        1
    );
    assert!(store
        .lease(100, 10, Duration::from_millis(50))
        .unwrap()
        .is_empty());
}

#[test]
fn duplicate_enqueue_allows_new_observation_time_for_same_delivery() {
    let temp = TempDir::new().unwrap();
    let store = store(&temp);
    let original = record("one", 100);
    let mut duplicate = original.copy();
    duplicate.observed_at_ms = original.observed_at_ms + 1;

    store.enqueue(&original).unwrap();
    store.enqueue(&duplicate).unwrap();
    let current = store.get("one").unwrap().unwrap();

    assert_eq!(current.observed_at_ms, original.observed_at_ms);
    assert_eq!(store.ready_index_len().unwrap(), 1);
}

#[test]
fn duplicate_enqueue_conflicting_content_is_rejected_without_overwriting_record() {
    let temp = TempDir::new().unwrap();
    let store = store(&temp);
    store.enqueue(&record("one", 100)).unwrap();
    let mut duplicate = record("one", 50);
    duplicate.queue = "other".to_string();

    let error = store.enqueue(&duplicate).unwrap_err();
    let current = store.get("one").unwrap().unwrap();

    assert!(error.message().contains("conflicting duplicate delivery_id"));
    assert_eq!(current.queue, "input");
    assert_eq!(current.not_before_ms, 100);
    assert_eq!(store.ready_index_len().unwrap(), 1);
}

#[test]
fn duplicate_enqueue_dedup_keyed_record_keeps_existing_record() {
    let temp = TempDir::new().unwrap();
    let store = store(&temp);
    let mut original = record("one", 100);
    original.collapse_by_dedup_id = true;
    let mut duplicate = record("one", 50);
    duplicate.payload = number_payload(2);
    duplicate.source = Some(SourceRef {
        kind: SourceKind::Cron,
        reference: "later-tick".to_string(),
    });

    store.enqueue(&original).unwrap();
    store.enqueue(&duplicate).unwrap();
    let current = store.get("one").unwrap().unwrap();

    assert!(same_json(&current.payload, &number_payload(1)));
    assert!(same_source(&current.source, &original.source));
    assert_eq!(current.not_before_ms, 100);
    assert_eq!(store.ready_index_len().unwrap(), 1);
}

#[test]
fn renew_lease_extends_matching_generation() {
    let temp = TempDir::new().unwrap();
    let store = store(&temp);
    store.enqueue(&record("one", 100)).unwrap();
    store.lease(100, 10, Duration::from_millis(50)).unwrap();

    assert!(store.renew_lease("one", 1, 250).unwrap());

    let current = store.get("one").unwrap().unwrap();
    assert_eq!(current.lease_until_ms, Some(250));
    assert!(store
        .lease(151, 10, Duration::from_millis(50))
        .unwrap()
        .is_empty());
    assert_eq!(
        store
            .lease(251, 10, Duration::from_millis(50))
            .unwrap()
            .len(),
        1
    );
}

#[test]
fn future_record_is_not_leased() {
    let temp = TempDir::new().unwrap();
    let store = store(&temp);
    store.enqueue(&record("one", 200)).unwrap();

    let leased = store.lease(100, 10, Duration::from_millis(50)).unwrap();

    assert!(leased.is_empty());
}

#[test]
fn lease_increments_generation_and_sets_lease_until() {
    let temp = TempDir::new().unwrap();
    let store = store(&temp);
    store.enqueue(&record("one", 100)).unwrap();

    let leased = store.lease(100, 10, Duration::from_millis(50)).unwrap();
    let current = store.get("one").unwrap().unwrap();

    assert_eq!(leased[0].lease_generation, 1);
    assert_eq!(leased[0].lease_until_ms, Some(150));
    assert_eq!(current.lease_generation, 1);
    assert_eq!(current.lease_until_ms, Some(150));
    assert!(store
        .lease(120, 10, Duration::from_millis(50))
        .unwrap()
        .is_empty());
}

#[test]
fn lease_for_dept_excluding_skips_running_delivery() {
    let temp = TempDir::new().unwrap();
    let store = store(&temp);
    store.enqueue(&record("one", 100)).unwrap();

    let first = store
        .lease_for_dept("worker", 100, 10, Duration::from_millis(50))
        .unwrap();
    let excluded = vec![first[0].delivery_id.clone()];
    let second = store
        .lease_for_dept_excluding("worker", 151, 10, Duration::from_millis(50), &excluded)
        .unwrap();

    assert_eq!(first.len(), 1);
    assert!(second.is_empty());
}

#[test]
fn ack_deletes_only_matching_generation() {
    let temp = TempDir::new().unwrap();
    let store = store(&temp);
    store.enqueue(&record("one", 100)).unwrap();
    store.lease(100, 10, Duration::from_millis(50)).unwrap();

    assert!(!store.ack("one", 0).unwrap());
    assert!(store.get("one").unwrap().is_some());
    assert!(store.ack("one", 1).unwrap());
    assert!(store.get("one").unwrap().is_none());
}

#[test]
fn ack_ready_record_is_rejected_without_changing_indexes() {
    let temp = TempDir::new().unwrap();
    let store = store(&temp);
    store.enqueue(&record("one", 100)).unwrap();

    assert!(!store.ack("one", 0).unwrap());

    let current = store.get("one").unwrap().unwrap();
    assert_eq!(current.lease_generation, 0);
    assert_eq!(current.lease_until_ms, None);
    assert_eq!(store.ready_index_len().unwrap(), 1);
    assert_eq!(store.leased_index_len().unwrap(), 0);
    assert_eq!(
        store
            .lease(100, 10, Duration::from_millis(50))
            .unwrap()
            .len(),
        1
    );
}

#[test]
fn retry_matching_generation_returns_to_ready() {
    let temp = TempDir::new().unwrap();
    let store = store(&temp);
    store.enqueue(&record("one", 100)).unwrap();
    store.lease(100, 10, Duration::from_millis(50)).unwrap();
    let expected_not_before = 120
        + backoff_delay(policy(3).base, policy(3).cap, 1).millis()
        + bounded_jitter("one", 1, policy(3).base).millis();

    let outcome = store
        .retry(
            "one",
            1,
            &failure("temporary\nfailure", false),
            &policy(3),
            120,
        )
        .unwrap();
    let current = store.get("one").unwrap().unwrap();

    assert_eq!(outcome, RetryOutcome::Scheduled);
    assert_eq!(current.attempt, 1);
    assert_eq!(current.lease_until_ms, None);
    assert_eq!(current.not_before_ms, expected_not_before);
    assert_eq!(
        current.last_error_excerpt.as_deref(),
        Some("temporary\\nfailure")
    );
    assert_eq!(
        store
            .lease(expected_not_before, 10, Duration::from_millis(50))
            .unwrap()
            .len(),
        1
    );
}

#[test]
fn retry_stale_generation_is_noop() {
    let temp = TempDir::new().unwrap();
    let store = store(&temp);
    store.enqueue(&record("one", 100)).unwrap();
    store.lease(100, 10, Duration::from_millis(50)).unwrap();

    let outcome = store
        .retry("one", 0, &failure("temporary", false), &policy(3), 120)
        .unwrap();
    let current = store.get("one").unwrap().unwrap();

    assert_eq!(outcome, RetryOutcome::Stale);
    assert_eq!(current.attempt, 0);
    assert_eq!(current.lease_until_ms, Some(150));
}

#[test]
fn retry_ready_record_is_rejected_without_changing_indexes() {
    let temp = TempDir::new().unwrap();
    let store = store(&temp);
    store.enqueue(&record("one", 100)).unwrap();

    let outcome = store
        .retry("one", 0, &failure("temporary", false), &policy(3), 120)
        .unwrap();
    let current = store.get("one").unwrap().unwrap();

    assert_eq!(outcome, RetryOutcome::Stale);
    assert_eq!(current.attempt, 0);
    assert_eq!(current.lease_generation, 0);
    assert_eq!(current.lease_until_ms, None);
    assert_eq!(store.ready_index_len().unwrap(), 1);
    assert_eq!(store.leased_index_len().unwrap(), 0);
    assert_eq!(
        store
            .lease(100, 10, Duration::from_millis(50))
            .unwrap()
            .len(),
        1
    );
}

#[test]
fn retry_at_max_moves_to_dead() {
    let temp = TempDir::new().unwrap();
    let store = store(&temp);
    let mut original = record("one", 100);
    original.payload = text_payload(&[("blob", &"x".repeat(10_000))]);
    store.enqueue(&original).unwrap();
    store.lease(100, 10, Duration::from_millis(50)).unwrap();

    let outcome = store
        .retry(
            "one",
            1,
            &failure(&format!("final {}", "x".repeat(800)), true),
            &policy(1),
            120,
        )
        .unwrap();

    assert_eq!(outcome, RetryOutcome::DeadPendingRedrive);
    assert!(store.get("one").unwrap().is_none());
    let dead = store.get_dead("one").unwrap().unwrap();
    assert_eq!(dead.delivery_id, "one");
    assert_eq!(dead.queue, "input");
    assert_eq!(dead.dept, "worker");
    assert!(dead.source.is_none());
    assert_eq!(dead.observed_at_ms, 10);
    assert_eq!(dead.not_before_ms, 100);
    assert_eq!(dead.dead_at_ms, 120);
    assert_eq!(dead.attempts, 1);
    assert_eq!(dead.redrive_count, 0);
    assert!(dead.replayable);
    assert!(!dead.permanent);
    assert!(dead.error_excerpt.as_ref().unwrap().len() <= ERROR_EXCERPT_LIMIT);
    let dead_json = dead_to_json(&dead);
    assert!(dead_json.get("payload").is_none());
    assert!(dead_json.get("record").is_some());
    assert_eq!(store.dead_due_index_len().unwrap(), 1);
}

#[test]
fn acked_record_leaves_no_leaseable_index_entry() {
    let temp = TempDir::new().unwrap();
    let store = store(&temp);
    store.enqueue(&record("one", 100)).unwrap();
    store.lease(100, 10, Duration::from_millis(50)).unwrap();

    assert!(store.ack("one", 1).unwrap());

    assert_eq!(store.ready_index_len().unwrap(), 0);
    assert_eq!(store.leased_index_len().unwrap(), 0);
    assert!(store
        .lease(151, 10, Duration::from_millis(50))
        .unwrap()
        .is_empty());
}

#[test]
fn retried_record_leaves_only_one_ready_index_entry() {
    let temp = TempDir::new().unwrap();
    let store = store(&temp);
    store.enqueue(&record("one", 100)).unwrap();
    store.lease(100, 10, Duration::from_millis(50)).unwrap();
    let outcome = store
        .retry("one", 1, &failure("temporary", false), &policy(3), 120)
        .unwrap();
    let next_due = store.get("one").unwrap().unwrap().not_before_ms;

    assert_eq!(outcome, RetryOutcome::Scheduled);
    assert_eq!(store.ready_index_len().unwrap(), 1);
    assert_eq!(store.leased_index_len().unwrap(), 0);
    assert_eq!(
        store
            .lease(next_due, 10, Duration::from_millis(50))
            .unwrap()
            .len(),
        1
    );
    assert!(store
        .lease(next_due, 10, Duration::from_millis(50))
        .unwrap()
        .is_empty());
}

#[test]
fn dead_record_leaves_no_leaseable_index_entry() {
    let temp = TempDir::new().unwrap();
    let store = store(&temp);
    store.enqueue(&record("one", 100)).unwrap();
    store.lease(100, 10, Duration::from_millis(50)).unwrap();

    let outcome = store
        .retry("one", 1, &failure("final", false), &policy(1), 120)
        .unwrap();

    assert_eq!(outcome, RetryOutcome::PermanentDead);
    assert_eq!(store.ready_index_len().unwrap(), 0);
    assert_eq!(store.leased_index_len().unwrap(), 0);
    assert!(store
        .lease(151, 10, Duration::from_millis(50))
        .unwrap()
        .is_empty());
}

#[test]
fn transient_dead_record_redrives_after_cooldown() {
    let temp = TempDir::new().unwrap();
    let store = store(&temp);
    store.enqueue(&record("one", 100)).unwrap();
    store.lease(100, 10, Duration::from_millis(50)).unwrap();
    assert_eq!(
        store
            .retry(
                "one",
                1,
                &failure("classified upstream timeout", true),
                &policy(1),
                120,
            )
            .unwrap(),
        RetryOutcome::DeadPendingRedrive
    );
    let policy = RedrivePolicy {
        max_redrives: 3,
        cooldown: Duration::from_millis(50),
    };

    let early = store.redrive_due(&policy, 169, 10).unwrap();
    assert!(early.redriven.is_empty());
    assert!(early.permanent.is_empty());
    assert_eq!(store.dead_due_index_len().unwrap(), 1);
    let due = store.redrive_due(&policy, 170, 10).unwrap();

    assert_eq!(due.redriven.len(), 1);
    assert!(due.permanent.is_empty());
    assert!(store.get_dead("one").unwrap().is_none());
    let current = store.get("one").unwrap().unwrap();
    assert_eq!(current.delivery_id, "one");
    assert_eq!(current.attempt, 0);
    assert_eq!(current.redrive_count, 1);
    assert_eq!(current.lease_until_ms, None);
    assert_eq!(current.not_before_ms, 170);
    assert_eq!(current.last_error_excerpt, None);
    let leased = store
        .lease_for_dept("worker", 170, 1, Duration::from_millis(50))
        .unwrap();
    assert_eq!(leased.len(), 1);
    assert_eq!(leased[0].redrive_count, 1);
    assert_eq!(store.dead_due_index_len().unwrap(), 0);
}

#[test]
fn redrive_due_does_not_redrive_zero_dead_at_before_cooldown() {
    let temp = TempDir::new().unwrap();
    let store = store(&temp);
    insert_replayable_dead(&store, "zero", 0);
    let policy = RedrivePolicy {
        max_redrives: 3,
        cooldown: Duration::from_millis(600),
    };
    store.reset_write_counts();

    let early = store.redrive_due(&policy, 0, 10).unwrap();

    assert!(early.redriven.is_empty());
    assert!(early.permanent.is_empty());
    assert!(store.get("zero").unwrap().is_none());
    assert!(store.get_dead("zero").unwrap().is_some());
    assert_eq!(store.dead_due_index_len().unwrap(), 1);
    assert_eq!(store.write_counts(), (0, 0));

    let due = store.redrive_due(&policy, 600, 10).unwrap();

    assert_eq!(due.redriven.len(), 1);
    assert_eq!(due.redriven[0].delivery_id, "zero");
    assert!(store.get_dead("zero").unwrap().is_none());
    assert_eq!(store.dead_due_index_len().unwrap(), 0);
}

#[test]
fn redrive_due_handles_near_u64_max_saturating_cooldown() {
    let temp = TempDir::new().unwrap();
    let store = store(&temp);
    insert_replayable_dead(&store, "near-max", u64::MAX - 40);

    let result = store
        .redrive_due(
            &RedrivePolicy {
                max_redrives: 3,
                cooldown: Duration::from_millis(50),
            },
            u64::MAX,
            10,
        )
        .unwrap();

    assert_eq!(result.redriven.len(), 1);
    assert_eq!(result.redriven[0].delivery_id, "near-max");
    assert_eq!(result.redriven[0].not_before_ms, u64::MAX);
    assert!(store.get_dead("near-max").unwrap().is_none());
    assert_eq!(store.dead_due_index_len().unwrap(), 0);
}

#[test]
fn redrive_due_skips_cooldown_window_row_until_elapsed() {
    let temp = TempDir::new().unwrap();
    let store = store(&temp);
    insert_replayable_dead(&store, "window", 80);
    let policy = RedrivePolicy {
        max_redrives: 3,
        cooldown: Duration::from_millis(50),
    };
    store.reset_write_counts();

    let early = store.redrive_due(&policy, 100, 10).unwrap();

    assert!(early.redriven.is_empty());
    assert!(early.permanent.is_empty());
    assert!(store.get("window").unwrap().is_none());
    assert!(store.get_dead("window").unwrap().is_some());
    assert_eq!(store.dead_due_index_len().unwrap(), 1);
    assert_eq!(store.write_counts(), (0, 0));

    let due = store.redrive_due(&policy, 130, 10).unwrap();

    assert_eq!(due.redriven.len(), 1);
    assert_eq!(due.redriven[0].delivery_id, "window");
    assert!(store.get_dead("window").unwrap().is_none());
    assert_eq!(store.dead_due_index_len().unwrap(), 0);
}

#[test]
fn redrive_due_no_due_records_does_not_open_write_transaction() {
    let temp = TempDir::new().unwrap();
    let store = store(&temp);
    store.enqueue(&record("one", 100)).unwrap();
    store.lease(100, 10, Duration::from_millis(50)).unwrap();
    store
        .retry("one", 1, &failure("timeout", true), &policy(1), 120)
        .unwrap();
    store.reset_write_counts();

    let result = store
        .redrive_due(
            &RedrivePolicy {
                max_redrives: 3,
                cooldown: Duration::from_millis(50),
            },
            169,
            10,
        )
        .unwrap();

    assert!(result.redriven.is_empty());
    assert!(result.permanent.is_empty());
    assert_eq!(store.write_counts(), (0, 0));
}

#[test]
fn global_redrive_due_is_ordered_by_dead_at_across_depts() {
    let temp = TempDir::new().unwrap();
    let store = store(&temp);
    for index in 0..8 {
        let mut next = record(&format!("aaa-{index}"), 100);
        next.dept = "aaa".to_string();
        store.enqueue(&next).unwrap();
        store
            .lease_for_dept("aaa", 100, 1, Duration::from_millis(50))
            .unwrap();
        store
            .retry(
                &next.delivery_id,
                1,
                &failure("aaa timeout", true),
                &policy(1),
                200 + index,
            )
            .unwrap();
    }
    let mut zzz = record("zzz-oldest", 100);
    zzz.dept = "zzz".to_string();
    store.enqueue(&zzz).unwrap();
    store
        .lease_for_dept("zzz", 100, 1, Duration::from_millis(50))
        .unwrap();
    store
        .retry(
            "zzz-oldest",
            1,
            &failure("zzz timeout", true),
            &policy(1),
            150,
        )
        .unwrap();

    let due = store
        .redrive_due(
            &RedrivePolicy {
                max_redrives: 3,
                cooldown: Duration::from_millis(0),
            },
            300,
            2,
        )
        .unwrap();

    let ids = due
        .redriven
        .iter()
        .map(|record| record.delivery_id.as_str())
        .collect::<Vec<_>>();
    assert_eq!(ids, vec!["zzz-oldest", "aaa-0"]);
}

#[test]
fn redrive_due_removes_stale_dead_index_entry() {
    let temp = TempDir::new().unwrap();
    let store = store(&temp);
    {
        let write = store.db.begin_write().unwrap();
        {
            let mut dead_index = write.open_table(DEAD_BY_DEPT_DUE).unwrap();
            dead_index
                .insert(
                    make_dead_due_index_key("worker", 10, "missing").as_str(),
                    &(),
                )
                .unwrap();
        }
        write.commit().unwrap();
    }

    let result = store
        .redrive_due(
            &RedrivePolicy {
                max_redrives: 3,
                cooldown: Duration::from_millis(0),
            },
            10,
            10,
        )
        .unwrap();

    assert!(result.redriven.is_empty());
    assert!(result.permanent.is_empty());
    assert_eq!(store.dead_due_index_len().unwrap(), 0);
}

#[test]
fn redrive_due_marks_live_collision_permanent_and_removes_index() {
    let temp = TempDir::new().unwrap();
    let store = store(&temp);
    let mut dead_record = record("one", 100);
    store.enqueue(&record("one", 100)).unwrap();
    dead_record.delivery_id = "dead-copy".to_string();
    let dead = DeadRecord {
        delivery_id: "one".to_string(),
        queue: dead_record.queue.clone(),
        dept: dead_record.dept.clone(),
        source: copy_source(&dead_record.source),
        observed_at_ms: dead_record.observed_at_ms,
        not_before_ms: dead_record.not_before_ms,
        dead_at_ms: 10,
        attempts: 1,
        redrive_count: 0,
        replayable: true,
        permanent: false,
        error_excerpt: None,
        record: Some(dead_record),
    };
    {
        let write = store.db.begin_write().unwrap();
        {
            let mut dead_table = write.open_table(DEAD_BY_ID).unwrap();
            dead_table
                .insert("one", encode_dead(&dead).as_slice())
                .unwrap();
            let mut dead_index = write.open_table(DEAD_BY_DEPT_DUE).unwrap();
            dead_index
                .insert(make_dead_due_index_key("worker", 10, "one").as_str(), &())
                .unwrap();
        }
        write.commit().unwrap();
    }

    let result = store
        .redrive_due(
            &RedrivePolicy {
                max_redrives: 3,
                cooldown: Duration::from_millis(0),
            },
            10,
            10,
        )
        .unwrap();

    assert!(result.redriven.is_empty());
    assert_eq!(result.permanent.len(), 1);
    assert!(store.get_dead("one").unwrap().unwrap().permanent);
    assert_eq!(store.dead_due_index_len().unwrap(), 0);
}

#[test]
fn redrive_count_survives_reopen_and_caps_to_permanent_dead() {
    let temp = TempDir::new().unwrap();
    let path = temp.path().join("delivery.redb");
    {
        let store = Store::open(&path);
        store.enqueue(&record("one", 100)).unwrap();
        store.lease(100, 10, Duration::from_millis(50)).unwrap();
        assert_eq!(
            store
                .retry(
                    "one",
                    1,
                    &failure("classified upstream timeout", true),
                    &policy(1),
                    120,
                )
                .unwrap(),
            RetryOutcome::DeadPendingRedrive
        );
        let redriven = store
            .redrive_due(
                &RedrivePolicy {
                    max_redrives: 1,
                    cooldown: Duration::from_millis(0),
                },
                121,
                10,
            )
            .unwrap();
        assert_eq!(redriven.redriven[0].redrive_count, 1);
    }
    let store = Store::open(&path);
    let record = store.get("one").unwrap().unwrap();
    assert_eq!(record.redrive_count, 1);
    let leased = store
        .lease_for_dept("worker", 121, 1, Duration::from_millis(50))
        .unwrap()
        .remove(0);
    assert_eq!(
        store
            .retry(
                &leased.delivery_id,
                leased.lease_generation,
                &failure("classified upstream timeout", true),
                &policy(1),
                130,
            )
            .unwrap(),
        RetryOutcome::DeadPendingRedrive
    );

    let capped = store
        .redrive_due(
            &RedrivePolicy {
                max_redrives: 1,
                cooldown: Duration::from_millis(0),
            },
            131,
            10,
        )
        .unwrap();

    assert!(capped.redriven.is_empty());
    assert_eq!(capped.permanent.len(), 1);
    let dead = store.get_dead("one").unwrap().unwrap();
    assert!(dead.permanent);
    assert!(!dead.replayable);
    assert_eq!(dead.redrive_count, 1);
    assert!(dead.record.is_none());
    assert_eq!(store.dead_due_index_len().unwrap(), 0);
}

#[test]
fn non_transient_dead_record_is_permanent_without_redrive_payload() {
    let temp = TempDir::new().unwrap();
    let store = store(&temp);
    store.enqueue(&record("one", 100)).unwrap();
    store.lease(100, 10, Duration::from_millis(50)).unwrap();

    let outcome = store
        .retry(
            "one",
            1,
            &failure("timeout-shaped validation failed", false),
            &policy(1),
            120,
        )
        .unwrap();

    assert_eq!(outcome, RetryOutcome::PermanentDead);
    let dead = store.get_dead("one").unwrap().unwrap();
    assert!(dead.permanent);
    assert!(!dead.replayable);
    assert!(dead.record.is_none());
    assert!(store
        .redrive_due(
            &RedrivePolicy {
                max_redrives: 3,
                cooldown: Duration::from_millis(0),
            },
            120,
            10,
        )
        .unwrap()
        .redriven
        .is_empty());
}

#[test]
fn terminal_dead_records_are_compacted_after_retention() {
    let temp = TempDir::new().unwrap();
    let store = store(&temp);
    insert_permanent_dead(&store, "old", 100);
    insert_permanent_dead(
        &store,
        "young",
        100_u64.saturating_add(TERMINAL_DEAD_RETENTION_MS),
    );

    let mut fresh = record(
        "fresh",
        100_u64
            .saturating_add(TERMINAL_DEAD_RETENTION_MS)
            .saturating_add(1),
    );
    fresh.observed_at_ms = fresh.not_before_ms;
    store.enqueue(&fresh).unwrap();

    assert!(store.get_dead("old").unwrap().is_none());
    assert!(store.get_dead("young").unwrap().is_some());
    assert_eq!(store.terminal_dead_index_len().unwrap(), 1);
    assert_eq!(store.terminal_suppression_slot_len().unwrap(), 2);
    assert!(store.terminal_suppresses("old").unwrap());
    assert!(store.terminal_suppresses("young").unwrap());
    let leased = store
        .lease_for_dept(
            "worker",
            100_u64
                .saturating_add(TERMINAL_DEAD_RETENTION_MS)
                .saturating_add(1),
            10,
            Duration::from_millis(50),
        )
        .unwrap();
    assert_eq!(leased.len(), 1);
    assert_eq!(leased[0].delivery_id, "fresh");
}

#[test]
fn terminal_id_is_suppressed_within_retention() {
    let temp = TempDir::new().unwrap();
    let store = store(&temp);
    insert_permanent_dead(&store, "old", 100);
    let mut duplicate = record(
        "old",
        100_u64
            .saturating_add(TERMINAL_DEAD_RETENTION_MS)
            .saturating_sub(1),
    );
    duplicate.observed_at_ms = duplicate.not_before_ms;

    store.enqueue(&duplicate).unwrap();

    assert!(store.get_dead("old").unwrap().is_some());
    assert_eq!(store.terminal_dead_index_len().unwrap(), 1);
    assert_eq!(store.terminal_suppression_slot_len().unwrap(), 1);
    assert!(store.terminal_suppresses("old").unwrap());
    assert!(store
        .lease_for_dept(
            "worker",
            duplicate.not_before_ms,
            10,
            Duration::from_millis(50),
        )
        .unwrap()
        .is_empty());
}

#[test]
fn terminal_suppression_slot_collision_does_not_suppress_fresh_delivery() {
    let temp = TempDir::new().unwrap();
    let store = store(&temp);
    insert_permanent_dead(&store, "old", 100);
    let colliding = colliding_terminal_id("old");
    assert!(!store.terminal_suppresses(&colliding).unwrap());
    let mut fresh = record(&colliding, 100);
    fresh.observed_at_ms = fresh.not_before_ms;

    store.enqueue(&fresh).unwrap();

    let leased = store
        .lease_for_dept("worker", fresh.not_before_ms, 10, Duration::from_millis(50))
        .unwrap();
    assert_eq!(leased.len(), 1);
    assert_eq!(leased[0].delivery_id, colliding);
    assert_eq!(store.terminal_suppression_slot_len().unwrap(), 1);
}

#[test]
fn terminal_suppression_slot_collision_terminalizes_and_suppresses_exact_ids() {
    let temp = TempDir::new().unwrap();
    let store = store(&temp);
    insert_permanent_dead(&store, "old", 100);
    let colliding = colliding_terminal_id("old");
    store.enqueue(&record(&colliding, 100)).unwrap();
    let leased = store
        .lease_for_dept("worker", 100, 10, Duration::from_millis(50))
        .unwrap()
        .remove(0);

    let outcome = store
        .retry(
            &leased.delivery_id,
            leased.lease_generation,
            &failure("final", false),
            &policy(1),
            120,
        )
        .unwrap();

    assert_eq!(outcome, RetryOutcome::PermanentDead);
    assert_eq!(store.terminal_suppression_slot_len().unwrap(), 2);
    assert!(store.get(&colliding).unwrap().is_none());
    assert!(store.terminal_suppresses("old").unwrap());
    assert!(store.terminal_suppresses(&colliding).unwrap());

    let mut duplicate = record(&colliding, 130);
    duplicate.observed_at_ms = duplicate.not_before_ms;
    store.enqueue(&duplicate).unwrap();
    assert!(store
        .lease_for_dept(
            "worker",
            duplicate.not_before_ms,
            10,
            Duration::from_millis(50),
        )
        .unwrap()
        .is_empty());
}

#[test]
fn terminal_suppression_slots_stay_bounded_after_retention() {
    let temp = TempDir::new().unwrap();
    let store = store(&temp);
    insert_permanent_dead(&store, "old", 100);
    let trigger_time = 100_u64
        .saturating_add(TERMINAL_DEAD_RETENTION_MS)
        .saturating_mul(100)
        .saturating_add(1);
    let mut trigger = record("trigger", trigger_time);
    trigger.dept = "maintenance".to_string();
    trigger.observed_at_ms = trigger_time;
    store.enqueue(&trigger).unwrap();

    assert!(store.get_dead("old").unwrap().is_none());
    assert_eq!(store.terminal_dead_index_len().unwrap(), 0);
    assert_eq!(store.terminal_suppression_slot_len().unwrap(), 1);
    assert!(store.terminal_suppresses("old").unwrap());

    let mut duplicate = record("old", trigger_time.saturating_add(1));
    duplicate.observed_at_ms = duplicate.not_before_ms;
    store.enqueue(&duplicate).unwrap();
    assert!(store
        .lease_for_dept(
            "worker",
            duplicate.not_before_ms,
            10,
            Duration::from_millis(50),
        )
        .unwrap()
        .is_empty());
    assert_eq!(store.terminal_suppression_slot_len().unwrap(), 1);
}

#[test]
fn duplicate_terminal_id_remains_suppressed_after_payload_compaction() {
    let temp = TempDir::new().unwrap();
    let store = store(&temp);
    insert_permanent_dead(&store, "old", 100);
    let mut duplicate = record(
        "old",
        100_u64
            .saturating_add(TERMINAL_DEAD_RETENTION_MS)
            .saturating_sub(1),
    );
    duplicate.observed_at_ms = duplicate.not_before_ms;

    store.enqueue(&duplicate).unwrap();
    let trigger_time = 100_u64
        .saturating_add(TERMINAL_DEAD_RETENTION_MS)
        .saturating_mul(100)
        .saturating_add(1);
    let mut trigger = record("trigger", trigger_time);
    trigger.dept = "trigger-worker".to_string();
    trigger.observed_at_ms = trigger_time;
    store.enqueue(&trigger).unwrap();

    assert_eq!(store.terminal_suppression_slot_len().unwrap(), 1);
    assert!(store.terminal_suppresses("old").unwrap());
    assert_eq!(
        store
            .lease_for_dept(
                "worker",
                duplicate.not_before_ms,
                10,
                Duration::from_millis(50),
            )
            .unwrap()
            .len(),
        0
    );
}

#[test]
fn future_scheduled_enqueue_does_not_compact_before_observed_retention() {
    let temp = TempDir::new().unwrap();
    let store = store(&temp);
    insert_permanent_dead(&store, "old", 100);
    let mut future = record(
        "future",
        100_u64
            .saturating_add(TERMINAL_DEAD_RETENTION_MS)
            .saturating_add(1),
    );
    future.observed_at_ms = 101;

    store.enqueue(&future).unwrap();

    assert!(store.get_dead("old").unwrap().is_some());
    assert_eq!(store.terminal_dead_index_len().unwrap(), 1);
}

#[test]
fn observed_enqueue_after_retention_compacts_terminal_dead_records() {
    let temp = TempDir::new().unwrap();
    let store = store(&temp);
    insert_permanent_dead(&store, "old", 100);
    let mut fresh = record("fresh", 100);
    fresh.observed_at_ms = 100_u64
        .saturating_add(TERMINAL_DEAD_RETENTION_MS)
        .saturating_add(1);

    store.enqueue(&fresh).unwrap();

    assert!(store.get_dead("old").unwrap().is_none());
    assert_eq!(store.terminal_dead_index_len().unwrap(), 0);
    assert_eq!(store.terminal_suppression_slot_len().unwrap(), 1);
    assert!(store.terminal_suppresses("old").unwrap());
}

#[test]
fn replayable_dead_records_are_not_terminal_compaction_candidates() {
    let temp = TempDir::new().unwrap();
    let store = store(&temp);
    insert_replayable_dead(&store, "replayable", 100);

    store
        .enqueue(&record(
            "fresh",
            100_u64
                .saturating_add(TERMINAL_DEAD_RETENTION_MS)
                .saturating_add(1),
        ))
        .unwrap();

    assert!(store.get_dead("replayable").unwrap().is_some());
    assert_eq!(store.dead_due_index_len().unwrap(), 1);
    assert_eq!(store.terminal_dead_index_len().unwrap(), 0);
    let result = store
        .redrive_due(
            &RedrivePolicy {
                max_redrives: 3,
                cooldown: Duration::from_millis(0),
            },
            100_u64
                .saturating_add(TERMINAL_DEAD_RETENTION_MS)
                .saturating_add(1),
            10,
        )
        .unwrap();
    assert_eq!(result.redriven.len(), 1);
    assert_eq!(result.redriven[0].delivery_id, "replayable");
}

#[test]
fn delivery_store_observe_snapshot_reports_queue_state_without_payload_body() {
    let temp = TempDir::new().unwrap();
    let store = store(&temp);
    let mut pending = record("pending", 100);
    pending.payload = text_payload(&[
        ("schema", "github.issue"),
        ("dedup_key", "issue-81"),
        ("body", "secret body must not be emitted"),
    ]);
    let retrying = record("retrying", 250);
    store.enqueue(&pending).unwrap();
    store.enqueue(&retrying).unwrap();
    store.lease(100, 1, Duration::from_millis(100)).unwrap();

    let snapshot = store.observe_snapshot(150, 10);
    let queue = snapshot
        .queues
        .iter()
        .find(|entry| entry.queue == "input")
        .unwrap();

    assert_eq!(queue.depth, 2);
    assert_eq!(queue.pending, 1);
    assert_eq!(queue.in_flight, 1);
    assert_eq!(queue.retrying, 0);
    assert_eq!(queue.oldest_pending_age_ms, Some(0));
    let told = format!("{snapshot:?}");
    assert!(told.contains("schema: Some(\"github.issue\")"));
    assert!(told.contains("dedup_key: Some(\"issue-81\")"));
    assert!(!told.contains("secret body must not be emitted"));
}

#[test]
fn delivery_store_observe_snapshot_reports_retrying_and_dead_letters() {
    let temp = TempDir::new().unwrap();
    let store = store(&temp);
    store.enqueue(&record("one", 100)).unwrap();
    let leased = store
        .lease(100, 1, Duration::from_millis(50))
        .unwrap()
        .remove(0);
    store
        .retry(
            &leased.delivery_id,
            leased.lease_generation,
            &failure("temporary", false),
            &policy(3),
            120,
        )
        .unwrap();
    store.enqueue(&record("dead", 100)).unwrap();
    let dead = store
        .lease(100, 1, Duration::from_millis(50))
        .unwrap()
        .remove(0);
    store
        .retry(
            &dead.delivery_id,
            dead.lease_generation,
            &failure("final", false),
            &policy(1),
            130,
        )
        .unwrap();

    let snapshot = store.observe_snapshot(121, 10);
    let queue = snapshot
        .queues
        .iter()
        .find(|entry| entry.queue == "input")
        .unwrap();

    assert_eq!(queue.retrying, 1);
    assert_eq!(snapshot.dead_letters.len(), 1);
    assert_eq!(snapshot.dead_letters[0].delivery_id, "dead");
    assert_eq!(snapshot.dead_letters[0].payload.bytes, 4);
}

#[test]
fn delivery_store_observe_snapshot_marks_truncation() {
    let temp = TempDir::new().unwrap();
    let store = store(&temp);
    store.enqueue(&record("one", 100)).unwrap();
    store.enqueue(&record("two", 100)).unwrap();

    let snapshot = store.observe_snapshot(100, 1);

    assert_eq!(snapshot.deliveries.len(), 1);
    assert!(snapshot.truncated.deliveries);
}

#[test]
fn expired_lease_can_be_leased_again() {
    let temp = TempDir::new().unwrap();
    let store = store(&temp);
    store.enqueue(&record("one", 100)).unwrap();
    store.lease(100, 10, Duration::from_millis(50)).unwrap();

    let leased = store.lease(151, 10, Duration::from_millis(50)).unwrap();

    assert_eq!(leased.len(), 1);
    assert_eq!(leased[0].lease_generation, 2);
    assert_eq!(leased[0].lease_until_ms, Some(201));
}

#[test]
fn lease_respects_batch_limit_and_empty_store_returns_empty() {
    let temp = TempDir::new().unwrap();
    let store = store(&temp);

    assert!(store
        .lease(100, 10, Duration::from_millis(50))
        .unwrap()
        .is_empty());

    store.enqueue(&record("one", 100)).unwrap();
    store.enqueue(&record("two", 100)).unwrap();

    assert_eq!(
        store
            .lease(100, 1, Duration::from_millis(50))
            .unwrap()
            .len(),
        1
    );
    assert_eq!(store.leased_index_len().unwrap(), 1);
    assert_eq!(store.ready_index_len().unwrap(), 1);
}

#[test]
fn lease_no_due_records_does_not_open_write_transaction() {
    let temp = TempDir::new().unwrap();
    let store = store(&temp);
    store.reset_write_counts();

    let leased = store.lease(100, 10, Duration::from_millis(50)).unwrap();

    assert!(leased.is_empty());
    assert_eq!(store.write_counts(), (0, 0));
}

#[test]
fn scan_budget_is_derived_from_batch_limit_and_exclusions() {
    assert_eq!(scan_budget(1, 0), 8);
    assert_eq!(scan_budget(2, 3), 19);
}

#[test]
fn lease_for_dept_is_not_starved_by_other_dept_backlog() {
    let temp = TempDir::new().unwrap();
    let store = store(&temp);
    let other_backlog = scan_budget(1, 0) + 1;
    for index in 0..other_backlog {
        let mut other = record(&format!("other-{index:05}"), 100);
        other.dept = "other".to_string();
        store.enqueue(&other).unwrap();
    }
    store.enqueue(&record("worker-record", 100)).unwrap();

    let leased = store
        .lease_for_dept("worker", 100, 1, Duration::from_millis(50))
        .unwrap();

    assert_eq!(leased.len(), 1);
    assert_eq!(leased[0].delivery_id, "worker-record");
    assert_eq!(store.ready_index_len().unwrap(), other_backlog);
    assert_eq!(store.leased_index_len().unwrap(), 1);
}

#[test]
fn expired_lease_is_not_starved_by_ready_backlog() {
    let temp = TempDir::new().unwrap();
    let store = store(&temp);
    store.enqueue(&record("expired", 100)).unwrap();
    store.lease(100, 1, Duration::from_millis(50)).unwrap();
    for index in 0..10 {
        store
            .enqueue(&record(&format!("ready-{index}"), 151))
            .unwrap();
    }

    let leased = store.lease(151, 1, Duration::from_millis(50)).unwrap();

    assert_eq!(leased.len(), 1);
    assert_eq!(leased[0].delivery_id, "expired");
    assert_eq!(leased[0].lease_generation, 2);
}

#[test]
fn reopen_preserves_pending_delivery() {
    let temp = TempDir::new().unwrap();
    {
        let store = store(&temp);
        store.enqueue(&record("one", 100)).unwrap();
    }
    let store = store(&temp);

    let leased = store.lease(100, 10, Duration::from_millis(50)).unwrap();

    assert_eq!(leased.len(), 1);
    assert_eq!(leased[0].delivery_id, "one");
}

#[test]
fn schema_v1_open_clears_dead_rows_and_rebuilds_dept_indexes() {
    let temp = TempDir::new().unwrap();
    let path = temp.path().join("delivery.redb");
    {
        let db = Database::create(&path).unwrap();
        let write = db.begin_write().unwrap();
        {
            let mut delivery = write.open_table(DELIVERY_BY_ID).unwrap();
            let pending = record("pending", 100);
            delivery
                .insert(
                    pending.delivery_id.as_str(),
                    encode_delivery(&pending).as_slice(),
                )
                .unwrap();
            let mut old_ready = write.open_table(OLD_READY_BY_DUE).unwrap();
            old_ready.insert((100, "pending"), &()).unwrap();
            let mut dead = write.open_table(DEAD_BY_ID).unwrap();
            dead.insert(
                "legacy-dead",
                br#"{"delivery_id":"legacy-dead","queue":"input","dept":"worker","source":null,"dead_at_ms":1,"attempts":1,"error_excerpt":null}"#
                    .as_slice(),
            )
            .unwrap();
            let mut meta = write.open_table(META).unwrap();
            meta.insert("schema_version", "1").unwrap();
        }
        write.commit().unwrap();
    }

    let store = Store::open(&path);

    assert!(store.get_dead("legacy-dead").unwrap().is_none());
    assert_eq!(store.ready_index_len().unwrap(), 1);
    let leased = store
        .lease_for_dept("worker", 100, 1, Duration::from_millis(50))
        .unwrap();
    assert_eq!(leased.len(), 1);
    assert_eq!(leased[0].delivery_id, "pending");
}

#[test]
fn schema_v3_open_rebuilds_dead_due_index_for_replayable_nonpermanent_records_only() {
    let temp = TempDir::new().unwrap();
    let path = temp.path().join("delivery.redb");
    let replayable = DeadRecord {
        delivery_id: "replayable".to_string(),
        queue: "input".to_string(),
        dept: "worker".to_string(),
        source: None,
        observed_at_ms: 10,
        not_before_ms: 100,
        dead_at_ms: 120,
        attempts: 1,
        redrive_count: 0,
        replayable: true,
        permanent: false,
        error_excerpt: Some("timeout".to_string()),
        record: Some(record("replayable", 100)),
    };
    let permanent = DeadRecord {
        delivery_id: "permanent".to_string(),
        queue: "input".to_string(),
        dept: "worker".to_string(),
        source: None,
        observed_at_ms: 10,
        not_before_ms: 100,
        dead_at_ms: 121,
        attempts: 1,
        redrive_count: 0,
        replayable: true,
        permanent: true,
        error_excerpt: Some("permanent".to_string()),
        record: Some(record("permanent", 100)),
    };
    let missing_record = DeadRecord {
        delivery_id: "missing-record".to_string(),
        queue: "input".to_string(),
        dept: "worker".to_string(),
        source: None,
        observed_at_ms: 10,
        not_before_ms: 100,
        dead_at_ms: 122,
        attempts: 1,
        redrive_count: 0,
        replayable: true,
        permanent: false,
        error_excerpt: Some("missing payload".to_string()),
        record: None,
    };
    {
        let db = Database::create(&path).unwrap();
        let write = db.begin_write().unwrap();
        {
            write.open_table(DELIVERY_BY_ID).unwrap();
            write.open_table(READY_BY_DEPT_DUE).unwrap();
            write.open_table(LEASED_BY_DEPT_UNTIL).unwrap();
            let mut old_dead_index = write.open_table(DEAD_BY_DEPT_DUE).unwrap();
            old_dead_index
                .insert(make_index_key("worker", 1, "stale-old-shape").as_str(), &())
                .unwrap();
            let mut dead = write.open_table(DEAD_BY_ID).unwrap();
            for record in [&replayable, &permanent, &missing_record] {
                dead.insert(
                    record.delivery_id.as_str(),
                    encode_dead(record).as_slice(),
                )
                .unwrap();
            }
            dead.insert("undecodable", b"{not-json".as_slice()).unwrap();
            let mut meta = write.open_table(META).unwrap();
            meta.insert("schema_version", "3").unwrap();
        }
        write.commit().unwrap();
    }

    let store = Store::open(&path);

    assert_eq!(store.dead_due_index_len().unwrap(), 1);
    let redriven = store
        .redrive_due(
            &RedrivePolicy {
                max_redrives: 3,
                cooldown: Duration::from_millis(0),
            },
            120,
            10,
        )
        .unwrap();
    assert_eq!(redriven.redriven.len(), 1);
    assert_eq!(redriven.redriven[0].delivery_id, "replayable");
    assert_eq!(store.dead_due_index_len().unwrap(), 0);
    assert!(store.get_dead("permanent").unwrap().unwrap().permanent);
    assert!(store
        .get_dead("missing-record")
        .unwrap()
        .unwrap()
        .record
        .is_none());
    assert!(store.get_dead("undecodable").unwrap().is_none());
}

#[test]
fn schema_v5_open_rebuilds_terminal_dead_tables_for_compaction() {
    let temp = TempDir::new().unwrap();
    let path = temp.path().join("delivery.redb");
    let terminal = DeadRecord {
        delivery_id: "terminal".to_string(),
        queue: "input".to_string(),
        dept: "worker".to_string(),
        source: None,
        observed_at_ms: 10,
        not_before_ms: 100,
        dead_at_ms: 100,
        attempts: 1,
        redrive_count: 0,
        replayable: false,
        permanent: true,
        error_excerpt: Some("final".to_string()),
        record: None,
    };
    {
        let db = Database::create(&path).unwrap();
        let write = db.begin_write().unwrap();
        {
            write.open_table(DELIVERY_BY_ID).unwrap();
            write.open_table(READY_BY_DEPT_DUE).unwrap();
            write.open_table(LEASED_BY_DEPT_UNTIL).unwrap();
            write.open_table(DEAD_BY_DEPT_DUE).unwrap();
            let mut dead = write.open_table(DEAD_BY_ID).unwrap();
            dead.insert(
                terminal.delivery_id.as_str(),
                encode_dead(&terminal).as_slice(),
            )
            .unwrap();
            let mut meta = write.open_table(META).unwrap();
            meta.insert("schema_version", "5").unwrap();
        }
        write.commit().unwrap();
    }

    let store = Store::open(&path);

    assert_eq!(store.terminal_dead_index_len().unwrap(), 1);
    let mut fresh = record(
        "fresh",
        terminal
            .dead_at_ms
            .saturating_add(TERMINAL_DEAD_RETENTION_MS)
            .saturating_add(1),
    );
    fresh.observed_at_ms = fresh.not_before_ms;
    store.enqueue(&fresh).unwrap();
    assert!(store.get_dead("terminal").unwrap().is_none());
    assert_eq!(store.terminal_dead_index_len().unwrap(), 0);
    assert_eq!(store.terminal_suppression_slot_len().unwrap(), 1);
    assert!(store.terminal_suppresses("terminal").unwrap());
}

#[test]
fn get_dead_skips_undecodable_rows() {
    let temp = TempDir::new().unwrap();
    let store = store(&temp);
    {
        let write = store.db.begin_write().unwrap();
        {
            let mut dead = write.open_table(DEAD_BY_ID).unwrap();
            dead.insert("bad", b"{not-json".as_slice()).unwrap();
        }
        write.commit().unwrap();
    }

    assert!(store.get_dead("bad").unwrap().is_none());
}

#[test]
fn a_keyed_duplicate_marks_a_leased_delivery() {
    let temp = TempDir::new().unwrap();
    let store = store(&temp);
    let mut first = record("one", 100);
    first.collapse_by_dedup_id = true;
    store.enqueue(&first).unwrap();
    store.enqueue(&first).unwrap();
    assert!(!store.get("one").unwrap().unwrap().pending_dirty);
    let leased = store
        .lease(100, 10, Duration::from_millis(50))
        .unwrap()
        .remove(0);
    let mut again = record("one", 130);
    again.collapse_by_dedup_id = true;
    again.payload = Json::Unsigned(7);
    store.enqueue(&again).unwrap();

    let marked = store.get("one").unwrap().unwrap();
    assert!(marked.pending_dirty);
    assert_eq!(marked.lease_until_ms, leased.lease_until_ms);
    assert_eq!(marked.lease_generation, leased.lease_generation);
    assert_eq!(marked.not_before_ms, 100);
    assert!(same_json(&marked.payload, &first.payload));
    assert_eq!(store.leased_index_len().unwrap(), 1);
    assert_eq!(store.ready_index_len().unwrap(), 0);
    assert!(store.ack("one", leased.lease_generation).unwrap());
}

#[test]
fn nothing_is_asked_of_the_store_where_nothing_is_wanted() {
    let temp = TempDir::new().unwrap();
    let store = store(&temp);
    store.enqueue(&record("one", 100)).unwrap();
    store.reset_write_counts();
    assert!(store
        .lease(100, 0, Duration::from_millis(50))
        .unwrap()
        .is_empty());
    let policy = RedrivePolicy {
        max_redrives: 3,
        cooldown: Duration::from_millis(50),
    };
    assert!(store.redrive_due(&policy, 500, 0).unwrap().redriven.is_empty());
    assert_eq!(store.write_counts(), (0, 0));
    let mut write = store.begin();
    assert!(renew_leases(&mut write, &Vec::new(), 500).unwrap().is_empty());
}

#[test]
fn records_written_as_lists_are_read() {
    let source = r#"["Cron","tick/slot/0"]"#;
    let text = format!(
        r#"["one","input","dept",null,{source},null,5,1,0,false,true,null,2,null,9,"down"]"#
    );
    let read = read_delivery(text.as_bytes()).unwrap();
    assert_eq!(read.delivery_id, "one");
    assert_eq!(read.attempt, 1);
    assert!(read.pending_dirty);
    assert_eq!(read.not_before_ms, 9);
    assert_eq!(read.last_error_excerpt.as_deref(), Some("down"));
    assert!(matches!(read.source.unwrap().kind, SourceKind::Cron));
    assert!(read_delivery(br#"["one","input","dept"]"#).is_none());

    let dead = br#"["one","input","dept",{"kind":{"Git":null},"reference":"r"},5,6,7,1,2,true,false,null]"#;
    let read = decode_dead_record(dead).unwrap();
    assert_eq!(read.redrive_count, 2);
    assert!(read.replayable && !read.permanent);
    assert!(read.record.is_none());
    assert!(matches!(read.source.unwrap().kind, SourceKind::Git));
}

#[test]
fn two_batches_inside_one_lease_share_no_delivery() {
    let temp = TempDir::new().unwrap();
    let store = store(&temp);
    for id in ["one", "two", "three"] {
        store.enqueue(&record(id, 100)).unwrap();
    }
    let first = store.lease(100, 2, Duration::from_millis(50)).unwrap();
    assert_eq!(first.len(), 2);
    let second = store.lease(149, 10, Duration::from_millis(50)).unwrap();
    assert_eq!(second.len(), 1);
    assert!(first
        .iter()
        .all(|d| d.delivery_id != second[0].delivery_id));
    let third = store.lease(150, 10, Duration::from_millis(50)).unwrap();
    assert_eq!(third.len(), 2);
}

#[test]
fn what_a_redrive_tells_is_what_the_store_holds() {
    let temp = TempDir::new().unwrap();
    let store = store(&temp);
    insert_replayable_dead(&store, "again", 100);
    insert_replayable_dead(&store, "twice", 100);
    store.enqueue(&record("twice", 500)).unwrap();
    let policy = RedrivePolicy {
        max_redrives: 3,
        cooldown: Duration::from_millis(50),
    };

    let told = store.redrive_due(&policy, 150, 10).unwrap();

    assert_eq!(told.redriven.len(), 1);
    assert_eq!(told.redriven[0].delivery_id, "again");
    assert_eq!(told.permanent.len(), 1);
    assert_eq!(told.permanent[0].delivery_id, "twice");
    let live = store.get("again").unwrap().unwrap();
    assert_eq!(encode_delivery(&live), encode_delivery(&told.redriven[0]));
    assert!(store.get_dead("again").unwrap().is_none());
    let dead = store.get_dead("twice").unwrap().unwrap();
    assert_eq!(encode_dead(&dead), encode_dead(&told.permanent[0]));
    assert!(dead.permanent && !dead.replayable);
}

#[test]
fn a_delivery_that_failed_for_good_never_comes_back() {
    let temp = TempDir::new().unwrap();
    let store = store(&temp);
    let policy = policy(1);
    store.enqueue(&record("one", 100)).unwrap();
    store.lease(100, 10, Duration::from_millis(50)).unwrap();
    assert_eq!(
        store.retry("one", 1, &failure("broken", false), &policy, 120).unwrap(),
        RetryOutcome::PermanentDead
    );
    for day in 0..3u64 {
        let now = 120 + day * TERMINAL_DEAD_RETENTION_MS;
        let mut again = record("one", now);
        again.observed_at_ms = now;
        store.enqueue(&again).unwrap();
        let mut other = record("other", now);
        other.observed_at_ms = now;
        store.enqueue(&other).unwrap();
        assert!(store.get("one").unwrap().is_none());
        let leased = store.lease(now, 10, Duration::from_millis(1)).unwrap();
        assert_eq!(leased.len(), 1);
        assert_eq!(leased[0].delivery_id, "other");
        let redrive = RedrivePolicy {
            max_redrives: 3,
            cooldown: Duration::from_millis(0),
        };
        assert!(store.redrive_due(&redrive, now, 10).unwrap().redriven.is_empty());
    }
    assert!(store.get_dead("one").unwrap().is_none());
    assert!(store.terminal_suppresses("one").unwrap());
}

/// The text of a delivery, with more members behind its own and a source.
fn delivery_text(source: &str, more: &str) -> String {
    format!(
        r#" {{ "delivery_id" : "one", "queue":"in\u0070ut", "dept":"worker", "payload":{{"a":1,"a":2}},
        "source":{source}, "observed_at_ms":5, "attempt":0, "lease_generation":0,
        "not_before_ms":7{more} }} "#
    )
}

#[test]
fn a_known_member_is_given_once() {
    let source = r#"{"kind":"Cron","reference":"tick"}"#;
    let read = read_delivery(delivery_text(source, "").as_bytes()).unwrap();
    assert_eq!(read.queue, "input");
    assert_eq!(read.not_before_ms, 7);
    assert_eq!(read.source.unwrap().reference, "tick");
    assert!(matches!(read.payload, Json::Object(_)));

    for more in [r#","queue":"other""#, r#","not_before_ms":7"#, r#","que\u0075e":"x""#] {
        assert!(read_delivery(delivery_text(source, more).as_bytes()).is_none());
    }
    for twice in [
        r#"{"kind":"Cron","kind":"Cron","reference":"tick"}"#,
        r#"{"kind":"Cron","reference":"a","reference":"b"}"#,
        r#"{"kind":{"Git":null,"Git":null},"reference":"a"}"#,
    ] {
        assert!(read_delivery(delivery_text(twice, "").as_bytes()).is_none());
    }
}

#[test]
fn unknown_members_are_passed_over() {
    let deep = format!("{}{}", "[".repeat(500), "]".repeat(500));
    let source = r#"{"kind":"Cron","extra":1e999,"reference":"tick","extra":[]}"#;
    for more in [
        r#","extra":1,"extra":2"#.to_string(),
        r#","extra":1e999"#.to_string(),
        r#","extra":"\ud800""#.to_string(),
        format!(r#","extra":{deep}"#),
    ] {
        let read = read_delivery(delivery_text(source, &more).as_bytes()).unwrap();
        assert_eq!(read.delivery_id, "one");
        assert_eq!(read.source.unwrap().reference, "tick");
    }
    for bad in [r#","extra":tru"#, r#","extra""#, ",", r#","extra":[1}"#] {
        assert!(read_delivery(delivery_text("null", bad).as_bytes()).is_none());
    }
    assert!(read_delivery(delivery_text("null", r#","cron_payload":1e999"#).as_bytes()).is_none());
}

#[test]
fn a_delivery_with_a_fraction_keeps_its_place() {
    let temp = TempDir::new().unwrap();
    let store = store(&temp);
    let mut d = record("half", 100);
    d.payload = Json::Fraction("0.5".to_string());
    store.enqueue(&d).unwrap();
    let leased = store.lease(100, 10, Duration::from_millis(50)).unwrap();
    assert_eq!(leased.len(), 1);
    assert_eq!(leased[0].delivery_id, "half");
    assert!(same_json(&leased[0].payload, &d.payload));
}
