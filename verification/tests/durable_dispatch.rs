//! Passes of a department over its durable deliveries.

use fkst_framework::consumer::{durable_dispatch_capacity, retry_lease};
use fkst_framework::delivery_migration::open_store;
use fkst_framework::delivery_reads::{collect_due_dead_ids, get, lease_delivery};
use fkst_framework::delivery_store::{
    ack, collect_leaseable_keys, enqueue, lease_collected, retry, RetryFailure,
};
use fkst_framework::delivery_types::{DeliveryRecord, RedrivePolicy, RetryPolicy};
use fkst_framework::dispatch::{running_delivery_ids, start_running, RunningDelivery};
use fkst_framework::duration::Duration;
use fkst_framework::json::Json;
use fkst_framework::store_model::RetryOutcome;
use redb::Database;
use tempfile::TempDir;

fn record_for_dept(id: &str, dept: &str) -> DeliveryRecord {
    DeliveryRecord {
        delivery_id: id.to_string(),
        queue: "jobs".to_string(),
        dept: dept.to_string(),
        payload: Json::Null,
        source: None,
        cron_payload: None,
        observed_at_ms: 10,
        attempt: 0,
        redrive_count: 0,
        collapse_by_dedup_id: false,
        pending_dirty: false,
        subscriber_absent_since_ms: None,
        lease_generation: 0,
        lease_until_ms: None,
        not_before_ms: 10,
        last_error_excerpt: None,
    }
}

struct Store {
    db: Database,
    _temp: TempDir,
}

impl Store {
    fn with(records: &[(&str, &str)]) -> Store {
        let temp = TempDir::new().unwrap();
        let db = Database::create(temp.path().join("delivery.redb")).unwrap();
        let mut write = db.begin_write().unwrap();
        open_store(&mut write).unwrap();
        for (id, dept) in records {
            enqueue(&mut write, &record_for_dept(id, dept)).unwrap();
        }
        write.commit().unwrap();
        Store { db, _temp: temp }
    }

    /// One pass: as many deliveries are leased as there is room for.
    fn dispatch(
        &self,
        dept: &str,
        now_ms: u64,
        max_in_flight: usize,
        burst: usize,
        running: &mut Vec<RunningDelivery>,
    ) -> usize {
        let stall_window = Duration::from_secs(30);
        let room = durable_dispatch_capacity(running.len(), max_in_flight, burst);
        let excluded = running_delivery_ids(running);
        let read = self.db.begin_read().unwrap();
        let keys = collect_leaseable_keys(&read, now_ms, room, Some(dept), &excluded).unwrap();
        let mut write = self.db.begin_write().unwrap();
        let batch = lease_collected(
            &mut write,
            &keys,
            now_ms,
            room,
            retry_lease(stall_window),
            Some(dept),
            &excluded,
        )
        .unwrap();
        write.commit().unwrap();
        let started = batch.leased.len();
        for record in batch.leased {
            running.push(start_running(record, now_ms, stall_window));
        }
        started
    }

    fn finish(&self, running: &mut Vec<RunningDelivery>) {
        let done = running.remove(0).record;
        let mut write = self.db.begin_write().unwrap();
        assert!(ack(&mut write, &done.delivery_id, done.lease_generation).unwrap());
        write.commit().unwrap();
    }

    fn is_gone(&self, id: &str) -> bool {
        get(&self.db.begin_read().unwrap(), id).unwrap().is_none()
    }
}

#[test]
fn durable_dispatch_admits_one_new_child_per_pass_under_backlog() {
    let store = Store::with(&[("one", "worker"), ("two", "worker")]);
    let mut running = Vec::new();
    assert_eq!(store.dispatch("worker", 100, 16, 1, &mut running), 1);
    assert_eq!(store.dispatch("worker", 100, 16, 1, &mut running), 1);
    assert_eq!(running.len(), 2);
    assert_eq!(store.dispatch("worker", 100, 16, 1, &mut running), 0);
    store.finish(&mut running);
    store.finish(&mut running);
    assert!(store.is_gone("one"));
    assert!(store.is_gone("two"));
}

#[test]
fn durable_dispatch_admits_burst_children_in_one_pass() {
    let store = Store::with(&[("one", "worker"), ("two", "worker"), ("three", "worker")]);
    let mut running = Vec::new();
    assert_eq!(store.dispatch("worker", 100, 16, 2, &mut running), 2);
    assert_eq!(running.len(), 2);
}

#[test]
fn durable_dispatch_cap_is_per_department_not_global() {
    let store = Store::with(&[("dept-a-one", "dept_a"), ("dept-b-one", "dept_b")]);
    let (mut running_a, mut running_b) = (Vec::new(), Vec::new());
    assert_eq!(store.dispatch("dept_a", 100, 16, 1, &mut running_a), 1);
    assert_eq!(store.dispatch("dept_b", 100, 16, 1, &mut running_b), 1);
    assert_eq!(running_b[0].record.delivery_id, "dept-b-one");
    store.finish(&mut running_a);
    store.finish(&mut running_b);
    assert!(store.is_gone("dept-a-one"));
    assert!(store.is_gone("dept-b-one"));
}

#[test]
fn durable_dispatch_does_not_duplicate_same_dept_while_running() {
    let store = Store::with(&[("one", "worker"), ("two", "worker")]);
    let mut running = Vec::new();
    assert_eq!(store.dispatch("worker", 100, 1, 1, &mut running), 1);
    let after_the_lease = 100 + 10 * 60 * 1_000;
    assert_eq!(
        store.dispatch("worker", after_the_lease, 1, 1, &mut running),
        0
    );
    store.finish(&mut running);
    assert_eq!(
        store.dispatch("worker", after_the_lease, 1, 1, &mut running),
        1
    );
    store.finish(&mut running);
    assert!(store.is_gone("one"));
    assert!(store.is_gone("two"));
}

#[test]
fn a_held_delivery_is_given_to_nobody_else() {
    let store = Store::with(&[("one", "worker")]);
    let mut write = store.db.begin_write().unwrap();
    let lease = Duration::from_secs(60);
    let first = lease_delivery(&mut write, "one", 100, lease).unwrap().unwrap();
    assert_eq!(first.lease_until_ms, Some(60_100));
    assert!(lease_delivery(&mut write, "one", 200, lease).unwrap().is_none());
    write.commit().unwrap();
    assert_eq!(store.dispatch("worker", 60_099, 16, 1, &mut Vec::new()), 0);
    let mut second = Vec::new();
    assert_eq!(store.dispatch("worker", 60_100, 16, 1, &mut second), 1);
    assert_eq!(second[0].record.lease_generation, 2);
    let mut write = store.db.begin_write().unwrap();
    assert!(!ack(&mut write, "one", first.lease_generation).unwrap());
    assert!(ack(&mut write, "one", 2).unwrap());
}

#[test]
fn dead_deliveries_are_found_once_they_have_rested() {
    let store = Store::with(&[("one", "worker"), ("two", "worker")]);
    let policy = RetryPolicy {
        max_attempts: 1,
        base: Duration::from_secs(1),
        cap: Duration::from_secs(1),
    };
    let failure = RetryFailure {
        message: "down".to_string(),
        replayable: true,
    };
    let mut write = store.db.begin_write().unwrap();
    for (id, now_ms) in [("one", 1_000), ("two", 2_000)] {
        let lease = Duration::from_secs(60);
        let held = lease_delivery(&mut write, id, 100, lease).unwrap().unwrap();
        let outcome = retry(
            &mut write,
            id,
            held.lease_generation,
            &failure,
            &policy,
            now_ms,
        )
        .unwrap();
        assert_eq!(outcome, RetryOutcome::DeadPendingRedrive);
    }
    let redrive = RedrivePolicy {
        max_redrives: 3,
        cooldown: Duration::from_secs(10),
    };
    let due = |now_ms: u64, limit: usize| {
        collect_due_dead_ids(&write, &redrive, now_ms, limit).unwrap()
    };
    assert!(due(10_999, 16).is_empty());
    assert_eq!(due(11_000, 16), vec!["one".to_string()]);
    assert_eq!(due(12_000, 16).len(), 2);
    assert_eq!(due(12_000, 1), vec!["one".to_string()]);
}
