//! What a consumer does with deliveries.

use fkst_framework::config::DepartmentDecl;
use fkst_framework::consumer::{next_renew_at_ms, retry_lease};
use fkst_framework::delivery_migration::open_store;
use fkst_framework::delivery_reads::{collect_due_dead_keys, get, get_dead};
use fkst_framework::delivery_router::{
    publish_step, DeliveryRouter, PublishAction, PublishEnvelope,
};
use fkst_framework::delivery_scan::StoreError;
use fkst_framework::delivery_store::{
    ack, collect_leaseable_keys, defer_lock_busy, enqueue, lease_collected, redrive_collected,
    renew_leases, retry, RedriveResult, RetryFailure,
};
use fkst_framework::delivery_types::{
    DeadRecord, DeliveryRecord, RedrivePolicy, RetryPolicy, SourceKind, SourceRef,
};
use fkst_framework::dispatch::{
    apply_renewals, collect_renewals, dead_letter_envelope, dead_letter_queue, department_path,
    ephemeral_completion, event_from_record, fault_kinds, finish_action, is_reserved_raised_queue,
    kinds_by_number, lock_busy_key_from_stderr, next_raised, raised_envelope,
    raised_publish_failure, renewed_until, requires_replay_scratch_bypass, reserved_queue_message,
    run_completion, running_delivery_ids, start_consumer, start_running, test_completion_failure,
    ConsumerAction, ConsumerEvent, DeliveryFailure, EphemeralCompletion, ErrorNumbers, FaultKind,
    FinishAction, RaisedStep, RunCompletion, RunOutcome, RunningDelivery, SystemFault,
};
use fkst_framework::duration::Duration;
use fkst_framework::event::Event;
use fkst_framework::event_fanout::Fanout;
use fkst_framework::failure_fact::{delivery_failure_fact, lock_busy_failure_fact};
use fkst_framework::json::{parse_json, same_json, Json};
use fkst_framework::raised::raised_events;
use fkst_framework::spawner::SpawnResult;
use fkst_framework::store_model::{LockBusyDeferOutcome, RetryOutcome};
use nix::errno::Errno;
use redb::Database;
use tempfile::TempDir;

const NOW: u64 = 1_700_000_000_000;

struct Store {
    db: Database,
}

impl Store {
    fn open(temp: &TempDir) -> Store {
        let db = Database::create(temp.path().join("delivery.redb")).unwrap();
        let mut write = db.begin_write().unwrap();
        open_store(&mut write).unwrap();
        write.commit().unwrap();
        Store { db }
    }

    fn enqueue(&self, record: &DeliveryRecord) -> Result<(), StoreError> {
        let mut write = self.db.begin_write().unwrap();
        enqueue(&mut write, record)?;
        write.commit().unwrap();
        Ok(())
    }

    fn lease_excluding(
        &self,
        dept: Option<&str>,
        now_ms: u64,
        limit: usize,
        dur: Duration,
        excluded: &Vec<String>,
    ) -> Vec<DeliveryRecord> {
        let read = self.db.begin_read().unwrap();
        let keys = collect_leaseable_keys(&read, now_ms, limit, dept, excluded).unwrap();
        let mut write = self.db.begin_write().unwrap();
        let batch =
            lease_collected(&mut write, &keys, now_ms, limit, dur, dept, excluded).unwrap();
        write.commit().unwrap();
        batch.leased
    }

    fn lease_for_dept(
        &self,
        dept: &str,
        now_ms: u64,
        limit: usize,
        dur: Duration,
    ) -> Vec<DeliveryRecord> {
        self.lease_excluding(Some(dept), now_ms, limit, dur, &Vec::new())
    }

    fn ack(&self, id: &str, generation: u64) -> bool {
        let mut write = self.db.begin_write().unwrap();
        let acked = ack(&mut write, id, generation).unwrap();
        write.commit().unwrap();
        acked
    }

    fn retry(
        &self,
        record: &DeliveryRecord,
        failure: RetryFailure,
        policy: &RetryPolicy,
        now_ms: u64,
    ) -> RetryOutcome {
        let mut write = self.db.begin_write().unwrap();
        let outcome = retry(
            &mut write,
            &record.delivery_id,
            record.lease_generation,
            &failure,
            policy,
            now_ms,
        )
        .unwrap();
        write.commit().unwrap();
        outcome
    }

    fn redrive_due(&self, now_ms: u64, limit: usize) -> RedriveResult {
        let policy = RedrivePolicy {
            max_redrives: 3,
            cooldown: Duration::from_millis(0),
        };
        let read = self.db.begin_read().unwrap();
        let keys = collect_due_dead_keys(&read, &policy, now_ms, limit).unwrap();
        let mut write = self.db.begin_write().unwrap();
        let result = redrive_collected(&mut write, &keys, &policy, now_ms).unwrap();
        write.commit().unwrap();
        result
    }

    fn get(&self, id: &str) -> Option<DeliveryRecord> {
        get(&self.db.begin_read().unwrap(), id).unwrap()
    }

    fn get_dead(&self, id: &str) -> Option<DeadRecord> {
        get_dead(&self.db.begin_read().unwrap(), id).unwrap()
    }
}

fn json(text: &str) -> Json {
    parse_json(text.as_bytes()).unwrap()
}

fn at(value: &Json, path: &[&str]) -> Json {
    let mut found = value.copy();
    for key in path {
        found = found.get(key).unwrap().copy();
    }
    found
}

fn text_at(value: &Json, path: &[&str]) -> String {
    at(value, path).as_text().unwrap().clone()
}

fn record(id: &str) -> DeliveryRecord {
    DeliveryRecord {
        delivery_id: id.to_string(),
        queue: "jobs".to_string(),
        dept: "worker".to_string(),
        payload: json(r#"{"n": 1}"#),
        source: Some(SourceRef {
            kind: SourceKind::Cron,
            reference: "tick".to_string(),
        }),
        cron_payload: None,
        observed_at_ms: NOW,
        attempt: 0,
        redrive_count: 0,
        collapse_by_dedup_id: false,
        pending_dirty: false,
        subscriber_absent_since_ms: None,
        lease_generation: 0,
        lease_until_ms: None,
        not_before_ms: 0,
        last_error_excerpt: None,
    }
}

fn policy(max_attempts: u64) -> RetryPolicy {
    RetryPolicy {
        max_attempts,
        base: Duration::from_millis(1),
        cap: Duration::from_millis(1),
    }
}

fn department(name: &str, queue: &str, ephemeral: bool) -> DepartmentDecl {
    DepartmentDecl {
        name: name.to_string(),
        lua: format!("departments/{name}/main.lua"),
        owner_root: ".".to_string(),
        owner_namespace: "pkg".to_string(),
        consumes: vec![queue.to_string()],
        produces: Vec::new(),
        fanout: Vec::new(),
        published_seam: Vec::new(),
        ephemeral: if ephemeral {
            vec![queue.to_string()]
        } else {
            Vec::new()
        },
        stall_window: "30s".to_string(),
        graph_json: false,
        retry: None,
    }
}

fn publish(
    router: &DeliveryRouter,
    store: Option<&Store>,
    fanout: &mut Fanout,
    mut envelope: PublishEnvelope,
) -> Result<(), String> {
    let subs = router
        .start_publish(&mut envelope)
        .map_err(|e| e.message())?;
    let mut next = 0;
    loop {
        let action = publish_step(&envelope, subs, next, store.is_some(), NOW)
            .map_err(|e| e.message())?;
        match action {
            PublishAction::Enqueue(record) => {
                store.unwrap().enqueue(&record).map_err(|e| e.message())?;
            }
            PublishAction::Ephemeral => {}
            PublishAction::Fanout => {
                fanout.send(&envelope.event.queue, &envelope.event);
                return Ok(());
            }
            PublishAction::Done => return Ok(()),
        }
        next += 1;
    }
}

/// Publishes what a child raised.
fn publish_raised(
    router: &DeliveryRouter,
    store: Option<&Store>,
    raised: &str,
    parent: &DeliveryRecord,
) -> Result<(), String> {
    let events = raised_events(&Some(json(raised)), NOW);
    for (ordinal, event) in events.into_iter().enumerate() {
        let queue = event.queue.clone();
        match raised_envelope(event, parent, ordinal) {
            Some(envelope) => publish(router, store, &mut Fanout::new(), envelope)?,
            None => return Err(reserved_queue_message(&queue)),
        }
    }
    Ok(())
}

fn spawn_result(exit_code: i32, stderr: &str) -> SpawnResult {
    SpawnResult {
        pid: 123,
        exit_code,
        stdout: String::new(),
        stderr: stderr.to_string(),
        spawn_return_ms: 0,
        first_pipe_read_ms: None,
        wait_complete_ms: 0,
        capture_complete_ms: 0,
        elapsed_ms: 1_000,
        log_path: None,
    }
}

fn os_fault(errno: Errno) -> Vec<FaultKind> {
    fault_kinds(&vec![SystemFault {
        kind: FaultKind::Other,
        errno: Some(errno as i32),
    }])
}

#[test]
fn replay_scratch_bypass_follows_engine_lease_generation() {
    let mut delivery = record("one");
    delivery.lease_generation = 1;
    assert!(!requires_replay_scratch_bypass(&delivery));

    delivery.lease_generation = 2;
    assert!(requires_replay_scratch_bypass(&delivery));
}

#[test]
fn raised_publish_failure_schedules_replay_with_scratch_bypass() {
    let temp = TempDir::new().unwrap();
    let store = Store::open(&temp);
    store.enqueue(&record("parent")).unwrap();
    let leased = store
        .lease_for_dept("worker", NOW, 1, Duration::from_secs(30))
        .remove(0);
    assert_eq!(leased.lease_generation, 1);
    let router = DeliveryRouter::new(&vec![department("dlq", "dead_letter", true)]);

    assert!(test_completion_failure(0, None).is_none());
    let err = publish_raised(
        &router,
        Some(&store),
        r#"[{"queue": "missing", "payload": {"result": true}}]"#,
        &leased,
    )
    .unwrap_err();
    let failure = raised_publish_failure(&err);
    store.retry(&leased, failure.to_retry(), &policy(3), NOW);

    let replay = store
        .lease_for_dept("worker", u64::MAX, 1, Duration::from_secs(30))
        .remove(0);
    assert_eq!(replay.attempt, 1);
    assert_eq!(replay.lease_generation, 2);
    assert!(requires_replay_scratch_bypass(&replay));
}

#[test]
fn wake_disconnect_clears_receiver() {
    let mut state = start_consumer(&department("worker", "jobs", false));
    assert!(state.wake_open);

    let action = state.step(ConsumerEvent::WakeClosed);

    assert!(!state.wake_open);
    assert_eq!(action, ConsumerAction::Dispatch);
}

#[test]
fn a_consumer_dispatches_maintains_and_finishes() {
    let mut state = start_consumer(&department("worker", "jobs", false));

    assert_eq!(state.step(ConsumerEvent::Wake), ConsumerAction::Dispatch);
    assert_eq!(state.step(ConsumerEvent::Tick), ConsumerAction::Maintain);
    assert_eq!(state.step(ConsumerEvent::Completed), ConsumerAction::Finish);
    assert!(state.ticks());
}

#[test]
fn a_consumer_without_reliable_queues_ends_with_its_mailbox() {
    let mut state = start_consumer(&department("worker", "jobs", true));

    assert_eq!(
        state.step(ConsumerEvent::Ephemeral { queue: "jobs" }),
        ConsumerAction::RunEphemeral
    );
    assert_eq!(state.step(ConsumerEvent::EphemeralClosed), ConsumerAction::Exit);
}

#[test]
fn dispatch_renew_deadline_is_before_stored_lease_expiry() {
    for stall_window in [
        Duration::from_millis(0),
        Duration::from_millis(1),
        Duration::from_secs(1),
        Duration::from_secs(30),
    ] {
        let temp = TempDir::new().unwrap();
        let store = Store::open(&temp);
        store.enqueue(&record("one")).unwrap();
        let now_ms = 1_000;
        let leased = store.lease_for_dept("worker", now_ms, 1, retry_lease(stall_window));
        let stored = store.get("one").unwrap();
        let next_renew_at_ms = next_renew_at_ms(now_ms, stall_window);

        assert_eq!(leased.len(), 1);
        assert!(next_renew_at_ms < stored.lease_until_ms.unwrap());
    }
}

#[test]
fn renew_running_skips_ticks_until_deadline_then_batches() {
    let temp = TempDir::new().unwrap();
    let store = Store::open(&temp);
    store.enqueue(&record("one")).unwrap();
    store.enqueue(&record("two")).unwrap();
    let leased = store.lease_for_dept("worker", NOW, 2, Duration::from_secs(30));
    let first_until = leased[0].lease_until_ms.unwrap();
    let mut running: Vec<RunningDelivery> = leased
        .into_iter()
        .map(|record| RunningDelivery {
            next_renew_at_ms: u64::MAX,
            record,
        })
        .collect();
    let still = vec![false, false];

    let later = NOW + 1;
    let stall_window = Duration::from_secs(30);
    let due = collect_renewals(&running, &still, later);
    let mut write = store.db.begin_write().unwrap();
    let renewed = renew_leases(&mut write, &due, renewed_until(later, stall_window)).unwrap();
    write.commit().unwrap();
    apply_renewals(&mut running, &still, &still, &renewed, later, stall_window);
    assert_eq!(store.get("one").unwrap().lease_until_ms, Some(first_until));

    for delivery in running.iter_mut() {
        delivery.next_renew_at_ms = 0;
    }
    let due = collect_renewals(&running, &still, later);
    let mut write = store.db.begin_write().unwrap();
    let renewed = renew_leases(&mut write, &due, renewed_until(later, stall_window)).unwrap();
    write.commit().unwrap();
    apply_renewals(&mut running, &still, &still, &renewed, later, stall_window);

    let one = store.get("one").unwrap();
    let two = store.get("two").unwrap();
    assert!(one.lease_until_ms.unwrap() > first_until);
    assert_eq!(one.lease_until_ms, two.lease_until_ms);
    assert_eq!(one.lease_generation, 1);
    assert_eq!(two.lease_generation, 1);
    assert!(running.iter().all(|delivery| delivery.next_renew_at_ms > 0));
}

#[test]
fn durable_success_ack_removes_delivery() {
    let temp = TempDir::new().unwrap();
    let store = Store::open(&temp);
    store.enqueue(&record("one")).unwrap();
    let leased = store.lease_for_dept("worker", NOW, 8, Duration::from_millis(50));

    assert!(store.ack(&leased[0].delivery_id, leased[0].lease_generation));

    assert!(store.get("one").is_none());
}

#[test]
fn durable_failure_retries_then_success_acks() {
    let temp = TempDir::new().unwrap();
    let store = Store::open(&temp);
    store.enqueue(&record("one")).unwrap();
    let first = store
        .lease_for_dept("worker", NOW, 8, Duration::from_millis(1))
        .remove(0);
    assert_eq!(
        store.retry(
            &first,
            RetryFailure {
                message: "failure".to_string(),
                replayable: false,
            },
            &policy(3),
            NOW
        ),
        RetryOutcome::Scheduled
    );
    let second = store
        .lease_for_dept("worker", NOW + 3, 8, Duration::from_millis(50))
        .remove(0);

    assert_eq!(second.attempt, 1);
    assert!(store.ack(&second.delivery_id, second.lease_generation));
    assert!(store.get("one").is_none());
}

#[test]
fn expired_lease_is_released_after_crash_like_gap() {
    let temp = TempDir::new().unwrap();
    let store = Store::open(&temp);
    store.enqueue(&record("one")).unwrap();
    let first = store
        .lease_for_dept("worker", NOW, 8, Duration::from_millis(1))
        .remove(0);

    let second = store
        .lease_for_dept("worker", NOW + 3, 8, Duration::from_millis(50))
        .remove(0);

    assert_eq!(first.delivery_id, second.delivery_id);
    assert!(second.lease_generation > first.lease_generation);
}

#[test]
fn retry_at_max_writes_dead_and_publishes_dead_letter_without_looping() {
    let temp = TempDir::new().unwrap();
    let store = Store::open(&temp);
    store.enqueue(&record("one")).unwrap();
    let leased = store
        .lease_for_dept("worker", NOW, 8, Duration::from_millis(50))
        .remove(0);

    store.retry(
        &leased,
        DeliveryFailure::permanent("failure".to_string()).to_retry(),
        &policy(1),
        NOW,
    );

    assert!(store.get("one").is_none());
    let dead = store.get_dead("one").unwrap();
    let letter = dead_letter_envelope(&dead, NOW).unwrap();
    assert_eq!(letter.event.queue, "dead_letter");
    assert!(dead_letter_queue("worker", "dead_letter").is_none());
}

#[test]
fn dead_letter_payload_exports_error_fact_fields() {
    let temp = TempDir::new().unwrap();
    let store = Store::open(&temp);
    store.enqueue(&record("one")).unwrap();
    let leased = store
        .lease_for_dept("worker", NOW, 8, Duration::from_millis(50))
        .remove(0);
    let mut fanout = Fanout::new();
    let mut rx = fanout.subscribe("dead_letter", 8);
    let router = DeliveryRouter::new(&vec![department("dlq", "dead_letter", true)]);

    store.retry(
        &leased,
        DeliveryFailure::permanent("exit=7 stderr=bad".to_string()).to_retry(),
        &policy(1),
        NOW,
    );
    let dead = store.get_dead("one").unwrap();
    let letter = dead_letter_envelope(&dead, NOW).unwrap();
    publish(&router, Some(&store), &mut fanout, letter).unwrap();

    let event = rx.try_recv().unwrap();
    assert_eq!(event.queue, "dead_letter");
    assert_eq!(text_at(&event.payload, &["delivery_id"]), "one");
    assert_eq!(text_at(&event.payload, &["dedup_id"]), "one");
    assert_eq!(text_at(&event.payload, &["origin_queue"]), "jobs");
    assert_eq!(text_at(&event.payload, &["origin_dept"]), "worker");
    assert_eq!(at(&event.payload, &["attempt"]).as_unsigned(), Some(1));
    assert_eq!(
        text_at(&event.payload, &["error_class"]),
        "framework_child_nonzero"
    );
    assert_eq!(text_at(&event.payload, &["source_ref", "kind"]), "cron");
    assert!(text_at(&event.payload, &["fingerprint"]).starts_with("framework_child_nonzero:"));
}

#[test]
fn failure_fact_publish_is_optional_and_subscribable() {
    let mut fanout = Fanout::new();
    let mut rx = fanout.subscribe("fkst.failure_fact", 8);
    let router = DeliveryRouter::new(&vec![department("triage", "fkst.failure_fact", true)]);
    let fact = delivery_failure_fact(&record("one"), "spawn error: missing binary", NOW);

    let envelope = router.failure_fact_envelope(fact).unwrap().unwrap();
    publish(&router, None, &mut fanout, envelope).unwrap();

    let event = rx.try_recv().unwrap();
    assert_eq!(event.queue, "fkst.failure_fact");
    assert_eq!(text_at(&event.payload, &["schema"]), "fkst.failure_fact.v1");
    assert_eq!(
        text_at(&event.payload, &["error_class"]),
        "framework_child_spawn"
    );
    assert_eq!(text_at(&event.payload, &["origin_queue"]), "jobs");
    assert_eq!(text_at(&event.payload, &["origin_dept"]), "worker");

    let nobody = DeliveryRouter::new(&vec![department("worker", "jobs", false)]);
    let fact = delivery_failure_fact(&record("one"), "spawn error: missing binary", NOW);
    assert!(nobody.failure_fact_envelope(fact).unwrap().is_none());
    let other = event_from_record(&record("one"));
    assert!(nobody.failure_fact_envelope(other).is_err());
}

#[test]
fn raised_output_cannot_publish_engine_failure_fact_queue() {
    let router = DeliveryRouter::new(&vec![department("triage", "fkst.failure_fact", true)]);
    let parent = record("parent");

    let err = publish_raised(
        &router,
        None,
        r#"[{"queue": "fkst.failure_fact", "payload": {"n": 1}}]"#,
        &parent,
    )
    .unwrap_err();

    assert!(
        err.contains("reserved engine queue `fkst.failure_fact`"),
        "{err}"
    );
    assert!(is_reserved_raised_queue("fkst.failure_fact"));
}

#[test]
fn durable_timeout_failure_is_stored_as_replayable_dead_record() {
    let temp = TempDir::new().unwrap();
    let store = Store::open(&temp);
    store.enqueue(&record("one")).unwrap();
    let leased = store
        .lease_for_dept("worker", NOW, 8, Duration::from_millis(50))
        .remove(0);
    let failure = DeliveryFailure::from_spawn_result(&spawn_result(124, "codex timed out"));

    store.retry(&leased, failure.to_retry(), &policy(1), NOW);

    assert!(store.get("one").is_none());
    let dead = store.get_dead("one").unwrap();
    assert!(dead.replayable);
    assert!(!dead.permanent);
    assert!(dead.record.is_some());
}

#[test]
fn spawn_error_classifier_separates_transient_resource_failures() {
    for errno in [
        Errno::EMFILE,
        Errno::ENFILE,
        Errno::EAGAIN,
        Errno::EWOULDBLOCK,
        Errno::ENOMEM,
    ] {
        assert!(
            DeliveryFailure::from_spawn_error("spawn fkst-framework", &os_fault(errno)).replayable,
            "{errno} must be replayable"
        );
    }

    for errno in [Errno::ENOENT, Errno::EACCES, Errno::ENOEXEC] {
        assert!(
            !DeliveryFailure::from_spawn_error("spawn fkst-framework", &os_fault(errno)).replayable,
            "{errno} must be permanent"
        );
    }
}

#[test]
fn exhausted_emfile_spawn_failure_is_retained_for_redrive() {
    let temp = TempDir::new().unwrap();
    let store = Store::open(&temp);
    store.enqueue(&record("one")).unwrap();
    let leased = store
        .lease_for_dept("worker", NOW, 8, Duration::from_millis(50))
        .remove(0);
    let failure =
        DeliveryFailure::from_spawn_error("spawn fkst-framework", &os_fault(Errno::EMFILE));

    store.retry(&leased, failure.to_retry(), &policy(1), NOW);

    let dead = store.get_dead("one").unwrap();
    assert!(dead.replayable);
    assert!(!dead.permanent);
    assert!(dead.record.is_some());

    let result = store.redrive_due(u64::MAX, 1);
    assert_eq!(result.redriven.len(), 1);
    assert_eq!(result.redriven[0].delivery_id, "one");
}

#[test]
fn exhausted_enoent_spawn_failure_is_permanent() {
    let temp = TempDir::new().unwrap();
    let store = Store::open(&temp);
    store.enqueue(&record("one")).unwrap();
    let leased = store
        .lease_for_dept("worker", NOW, 8, Duration::from_millis(50))
        .remove(0);
    let failure =
        DeliveryFailure::from_spawn_error("spawn fkst-framework", &os_fault(Errno::ENOENT));

    store.retry(&leased, failure.to_retry(), &policy(1), NOW);

    let dead = store.get_dead("one").unwrap();
    assert!(!dead.replayable);
    assert!(dead.permanent);
    assert!(dead.record.is_none());

    assert!(store.redrive_due(u64::MAX, 1).redriven.is_empty());
}

#[test]
fn raised_to_reliable_queue_without_source_ref_returns_error() {
    let temp = TempDir::new().unwrap();
    let store = Store::open(&temp);
    let router = DeliveryRouter::new(&vec![department("next_worker", "next", false)]);

    let mut parent = record("parent");
    parent.source = None;
    let err = publish_raised(
        &router,
        Some(&store),
        r#"[{"queue": "next", "payload": {"n": 2}}]"#,
        &parent,
    )
    .unwrap_err();

    assert!(err.contains("requires source_ref"), "{err}");
}

#[test]
fn raised_replay_to_reliable_queue_is_idempotent() {
    let temp = TempDir::new().unwrap();
    let store = Store::open(&temp);
    let router = DeliveryRouter::new(&vec![department("next_worker", "next", false)]);
    let parent = record("parent");
    let raised = r#"[{"queue": "next", "payload": {"n": 2}}]"#;

    publish_raised(&router, Some(&store), raised, &parent).unwrap();
    publish_raised(&router, Some(&store), raised, &parent).unwrap();

    let leased = store.lease_for_dept("next_worker", NOW, 8, Duration::from_millis(50));
    assert_eq!(leased.len(), 1);
    assert!(same_json(&leased[0].payload, &json(r#"{"n": 2}"#)));
}

#[test]
fn lease_excluding_running_delivery_prevents_same_process_duplicate_dispatch() {
    let temp = TempDir::new().unwrap();
    let store = Store::open(&temp);
    store.enqueue(&record("one")).unwrap();
    let first = store
        .lease_for_dept("worker", NOW, 8, Duration::from_millis(1))
        .remove(0);
    let running = vec![start_running(first, NOW, Duration::from_secs(30))];
    let excluded = running_delivery_ids(&running);

    let leased = store.lease_excluding(
        Some("worker"),
        NOW + 3,
        8,
        Duration::from_millis(50),
        &excluded,
    );

    assert!(leased.is_empty());
}

#[test]
fn a_run_that_found_a_lock_busy_is_put_off() {
    let completion = run_completion(
        RunOutcome::Ended(spawn_result(75, "")),
        75,
        Some("repo".to_string()),
        None,
        0,
    );
    match finish_action(completion, true) {
        FinishAction::Defer { lock } => assert_eq!(lock, Some("repo".to_string())),
        _ => panic!("expected the delivery to be put off"),
    }
    assert_eq!(
        ephemeral_completion(75, 75, false, false),
        EphemeralCompletion::LockBusy
    );
}

#[test]
fn a_run_that_failed_is_tried_again_or_dropped() {
    let failed = || run_completion(RunOutcome::Ended(spawn_result(1, "bad")), 75, None, None, 0);
    match finish_action(failed(), true) {
        FinishAction::Retry { failure } => assert_eq!(failure.message, "exit=1 stderr=bad"),
        _ => panic!("expected a retry"),
    }
    assert!(matches!(finish_action(failed(), false), FinishAction::Drop));
}

#[test]
fn a_run_that_succeeded_is_acknowledged() {
    let done = run_completion(RunOutcome::Ended(spawn_result(0, "")), 75, None, None, 1);
    assert!(matches!(done, RunCompletion::Done));
    assert!(matches!(finish_action(done, true), FinishAction::Ack));
}

#[test]
fn departments_are_found_below_the_project() {
    assert_eq!(
        department_path("/srv/host", "departments/a/main.lua"),
        "/srv/host/departments/a/main.lua"
    );
    assert_eq!(department_path("/srv/host", "/opt/a.lua"), "/opt/a.lua");
}

#[test]
fn an_event_is_made_again_from_its_record() {
    let event: Event = event_from_record(&record("one"));
    assert_eq!(event.queue, "jobs");
    assert_eq!(event.ts, NOW);
    assert!(same_json(&event.payload, &json(r#"{"n": 1}"#)));
}

#[test]
fn reserved_lock_busy_exit_without_stderr_defers_without_attempt_or_dead_letter() {
    let temp = TempDir::new().unwrap();
    let store = Store::open(&temp);
    store.enqueue(&record("one")).unwrap();
    let leased = store
        .lease_for_dept("worker", NOW, 1, Duration::from_secs(30))
        .remove(0);
    let completion = run_completion(RunOutcome::Ended(spawn_result(75, "")), 75, None, None, 0);
    assert!(matches!(
        finish_action(completion, true),
        FinishAction::Defer { lock: None }
    ));

    let mut write = store.db.begin_write().unwrap();
    let outcome = defer_lock_busy(
        &mut write,
        "one",
        leased.lease_generation,
        "unknown",
        &policy(1),
        NOW,
    )
    .unwrap();
    write.commit().unwrap();
    assert_eq!(outcome, LockBusyDeferOutcome::Scheduled);

    let deferred = store.get("one").expect("delivery must remain live");
    assert_eq!(deferred.attempt, 0);
    assert!(deferred.lease_until_ms.is_none());
    assert!(deferred.not_before_ms > NOW);
    assert!(store.get_dead("one").is_none());

    let fact = lock_busy_failure_fact("worker", "jobs", &Some(deferred), &None, NOW);
    assert_eq!(text_at(&fact.payload, &["error_class"]), "lock_busy");
    assert!(matches!(at(&fact.payload, &["lock"]), Json::Null));
    assert_eq!(text_at(&fact.payload, &["delivery_id"]), "one");
    assert_eq!(at(&fact.payload, &["attempt"]).as_unsigned(), Some(0));
    assert!(text_at(&fact.payload, &["fingerprint"]).starts_with("lock_busy:"));

    let mut write = store.db.begin_write().unwrap();
    let stale = defer_lock_busy(&mut write, "one", 1, "unknown", &policy(1), NOW).unwrap();
    assert_eq!(stale, LockBusyDeferOutcome::Stale);
    let missing = defer_lock_busy(&mut write, "two", 1, "unknown", &policy(1), NOW).unwrap();
    assert_eq!(missing, LockBusyDeferOutcome::Missing);
}

#[test]
fn a_child_says_which_lock_was_busy() {
    assert_eq!(
        lock_busy_key_from_stderr(
            "event=with_lock_busy error_class=lock_busy lock=shared/work outcome=deferred\n"
        ),
        Some("shared/work".to_string())
    );
    assert_eq!(lock_busy_key_from_stderr("lock=shared/work"), None);
    assert_eq!(lock_busy_key_from_stderr(""), None);
}

#[test]
fn errors_without_a_number_pass_by_their_kind() {
    for kind in [FaultKind::WouldBlock, FaultKind::OutOfMemory] {
        let faults = fault_kinds(&vec![SystemFault { kind, errno: None }]);
        assert_eq!(faults, vec![kind, FaultKind::Other]);
        assert!(DeliveryFailure::from_spawn_error("spawn", &faults).replayable);
    }
    let faults = fault_kinds(&vec![SystemFault {
        kind: FaultKind::Other,
        errno: None,
    }]);
    let failure = DeliveryFailure::from_spawn_error("spawn", &faults);
    assert!(!failure.replayable);
    assert_eq!(failure.message, "spawn error: spawn");
}

#[test]
fn raised_events_are_numbered_until_one_is_refused() {
    let parent = record("one");
    let mut events = Vec::new();
    for queue in ["first", "fkst.failure_fact", "third"] {
        events.push(Event {
            queue: queue.to_string(),
            payload: Json::Null,
            ts: 0,
        });
    }
    let mut next = 4;
    match next_raised(&mut events, &parent, &mut next) {
        RaisedStep::Publish(envelope) => {
            assert_eq!(envelope.event.queue, "first");
            assert_eq!(envelope.derived.unwrap().ordinal, 4);
        }
        _ => panic!("expected an envelope"),
    }
    assert_eq!(next, 5);
    match next_raised(&mut events, &parent, &mut next) {
        RaisedStep::Refused { message } => {
            assert_eq!(message, reserved_queue_message("fkst.failure_fact"));
        }
        _ => panic!("expected a refusal"),
    }
    assert_eq!(next, 5);
    events.clear();
    assert!(matches!(
        next_raised(&mut events, &parent, &mut next),
        RaisedStep::Done
    ));
}

#[test]
fn error_numbers_are_told_apart() {
    let numbers = ErrorNumbers {
        too_many_files: 24,
        file_table_full: 23,
        try_again: 11,
        no_memory: 12,
    };
    let faults = [24, 23, 11, 12, 2].map(|n| SystemFault {
        kind: FaultKind::Other,
        errno: Some(n),
    });
    let kinds = kinds_by_number(&Vec::from(faults), numbers);
    let by_number: Vec<FaultKind> = kinds.iter().copied().skip(1).step_by(2).collect();
    assert_eq!(
        by_number,
        vec![
            FaultKind::TooManyFiles,
            FaultKind::FileTableFull,
            FaultKind::TryAgain,
            FaultKind::NoMemory,
            FaultKind::Other,
        ]
    );
}
