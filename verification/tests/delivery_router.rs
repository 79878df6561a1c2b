//! Who a delivery goes to, and what it is called.

use fkst_framework::config::DepartmentDecl;
use fkst_framework::delivery_migration::open_store;
use fkst_framework::delivery_router::{
    derive_delivery_id, has_reliable_subscriptions, publish_step, DeliveryRouter, DerivedDelivery,
    PublishAction, PublishEnvelope,
};
use fkst_framework::delivery_scan::StoreError;
use fkst_framework::delivery_store::{collect_leaseable_keys, enqueue, lease_collected};
use fkst_framework::delivery_types::{DeliveryRecord, SourceKind, SourceRef};
use fkst_framework::duration::Duration;
use fkst_framework::event::Event;
use fkst_framework::event_fanout::Fanout;
use fkst_framework::json::{parse_json, same_json, Json};
use fkst_framework::supervise::{delivery_store_for_config, teardown_steps, TeardownStep};
use redb::Database;
use tempfile::TempDir;

const NOW: u64 = 1_700_000_000_000;

struct Store {
    db: Database,
}

impl Store {
    fn open(temp: &TempDir) -> Store {
        let db = Database::create(temp.path().join("delivery.redb")).unwrap();
        let mut write = db.begin_write().unwrap();
        open_store(&mut write).unwrap();
        write.commit().unwrap();
        Store { db }
    }

    fn enqueue(&self, record: &DeliveryRecord) -> Result<(), StoreError> {
        let mut write = self.db.begin_write().unwrap();
        enqueue(&mut write, record)?;
        write.commit().unwrap();
        Ok(())
    }

    fn lease_excluding(
        &self,
        dept: Option<&str>,
        now_ms: u64,
        limit: usize,
        dur: Duration,
        excluded: &Vec<String>,
    ) -> Vec<DeliveryRecord> {
        let read = self.db.begin_read().unwrap();
        let keys = collect_leaseable_keys(&read, now_ms, limit, dept, excluded).unwrap();
        let mut write = self.db.begin_write().unwrap();
        let batch =
            lease_collected(&mut write, &keys, now_ms, limit, dur, dept, excluded).unwrap();
        write.commit().unwrap();
        batch.leased
    }

    fn lease_for_dept(
        &self,
        dept: &str,
        now_ms: u64,
        limit: usize,
        dur: Duration,
    ) -> Vec<DeliveryRecord> {
        self.lease_excluding(Some(dept), now_ms, limit, dur, &Vec::new())
    }
}

fn json(text: &str) -> Json {
    parse_json(text.as_bytes()).unwrap()
}

fn event(queue: &str, payload: &str) -> Event {
    Event {
        queue: queue.to_string(),
        payload: json(payload),
        ts: NOW,
    }
}

fn at(value: &Json, path: &[&str]) -> Json {
    let mut found = value.copy();
    for key in path {
        found = found.get(key).unwrap().copy();
    }
    found
}

fn text_at(value: &Json, path: &[&str]) -> String {
    at(value, path).as_text().unwrap().clone()
}

fn number_at(value: &Json, path: &[&str]) -> u64 {
    at(value, path).as_unsigned().unwrap()
}

fn department(name: &str, namespace: &str, queue: &str, ephemeral: bool) -> DepartmentDecl {
    DepartmentDecl {
        name: name.to_string(),
        lua: format!("departments/{name}/main.lua"),
        owner_root: ".".to_string(),
        owner_namespace: namespace.to_string(),
        consumes: vec![queue.to_string()],
        produces: Vec::new(),
        fanout: Vec::new(),
        published_seam: Vec::new(),
        ephemeral: if ephemeral {
            vec![queue.to_string()]
        } else {
            Vec::new()
        },
        stall_window: "30s".to_string(),
        graph_json: false,
        retry: None,
    }
}

fn config(ephemeral: bool) -> Vec<DepartmentDecl> {
    vec![department("worker", "pkg", "jobs", ephemeral)]
}

fn namespaced_config() -> Vec<DepartmentDecl> {
    vec![
        department("other.worker", "other", "other.jobs", false),
        department("pkg.worker", "pkg", "pkg.jobs", false),
    ]
}

fn queue_starvation_config(ephemeral: bool) -> Vec<DepartmentDecl> {
    vec![department("pkg.implementer", "pkg", "merge-ready", ephemeral)]
}

/// Publishes an event as the supervisor does: subscriber by subscriber.
fn publish(
    router: &DeliveryRouter,
    store: Option<&Store>,
    fanout: &mut Fanout,
    mut envelope: PublishEnvelope,
) -> Result<(), String> {
    let subs = router
        .start_publish(&mut envelope)
        .map_err(|e| e.message())?;
    let mut next = 0;
    loop {
        let action = publish_step(&envelope, subs, next, store.is_some(), NOW)
            .map_err(|e| e.message())?;
        match action {
            PublishAction::Enqueue(record) => {
                store.unwrap().enqueue(&record).map_err(|e| e.message())?;
            }
            PublishAction::Ephemeral => {}
            PublishAction::Fanout => {
                fanout.send(&envelope.event.queue, &envelope.event);
                return Ok(());
            }
            PublishAction::Done => return Ok(()),
        }
        next += 1;
    }
}

fn cron_source(reference: &str) -> SourceRef {
    SourceRef {
        kind: SourceKind::Cron,
        reference: reference.to_string(),
    }
}

fn some_source(source: &SourceRef) -> Option<SourceRef> {
    Some(source.copy())
}

fn some_parent(parent: &DerivedDelivery) -> Option<DerivedDelivery> {
    Some(DerivedDelivery {
        parent_delivery_id: parent.parent_delivery_id.clone(),
        ordinal: parent.ordinal,
    })
}

/// Whether a key is made of short pieces of safe characters.
fn runtime_safe(key: &str) -> bool {
    key.split('/').all(|piece| {
        !piece.is_empty()
            && piece.len() <= 255
            && piece != "."
            && piece != ".."
            && piece
                .bytes()
                .all(|b| b.is_ascii_alphanumeric() || b == b'_' || b == b'-' || b == b'.')
    })
}

const STARVED: &str = "observability-sample/queue-starvation/ChronoAIProject/fkst-substrate/merge-ready/pr/82/proposal/github-devloop/issue/ChronoAIProject/fkst-substrate/70/version/ready-consensus-github-devloo-0129659072";

fn starved_source() -> Option<SourceRef> {
    Some(SourceRef {
        kind: SourceKind::External,
        reference: STARVED.to_string(),
    })
}

#[test]
fn reliable_publish_requires_source_ref() {
    let router = DeliveryRouter::new(&config(false));

    let err = publish(
        &router,
        None,
        &mut Fanout::new(),
        PublishEnvelope {
            event: event("jobs", r#"{"n": 1}"#),
            source: None,
            cron_payload: None,
            derived: None,
        },
    )
    .unwrap_err();

    assert!(err.contains("requires source_ref"), "{err}");
}

#[test]
fn publish_to_unknown_queue_is_refused() {
    let router = DeliveryRouter::new(&config(false));

    let err = publish(
        &router,
        None,
        &mut Fanout::new(),
        PublishEnvelope {
            event: event("elsewhere", "null"),
            source: None,
            cron_payload: None,
            derived: None,
        },
    )
    .unwrap_err();

    assert_eq!(err, "queue `elsewhere` has no delivery subscriptions");
}

#[test]
fn reliable_publish_without_a_store_is_refused() {
    let router = DeliveryRouter::new(&config(false));

    let err = publish(
        &router,
        None,
        &mut Fanout::new(),
        PublishEnvelope {
            event: event("jobs", "null"),
            source: Some(cron_source("tick")),
            cron_payload: None,
            derived: None,
        },
    )
    .unwrap_err();

    assert_eq!(err, "reliable delivery store is not open");
}

#[test]
fn current_subscriber_queues_are_derived_from_router_subscriptions() {
    let router = DeliveryRouter::new(&namespaced_config());

    assert_eq!(
        router.current_subscriber_queues(),
        vec!["other.jobs".to_string(), "pkg.jobs".to_string()]
    );
}

#[test]
fn reliable_subscriber_queues_exclude_ephemeral_only_subscriptions() {
    let router = DeliveryRouter::new(&config(true));

    assert_eq!(
        router.current_subscriber_queues(),
        vec!["jobs".to_string()]
    );
    assert_eq!(router.reliable_subscriber_queues(), Vec::<String>::new());
}

#[test]
fn single_reliable_subscribers_are_derived_from_router_subscriptions() {
    let router = DeliveryRouter::new(&namespaced_config());

    assert_eq!(
        router.single_reliable_subscribers_by_queue(),
        vec![
            ("other.jobs".to_string(), "other.worker".to_string()),
            ("pkg.jobs".to_string(), "pkg.worker".to_string())
        ]
    );
}

#[test]
fn ephemeral_publish_uses_fanout_without_store() {
    let mut fanout = Fanout::new();
    let mut rx = fanout.subscribe("jobs", 8);
    let router = DeliveryRouter::new(&config(true));

    publish(
        &router,
        None,
        &mut fanout,
        PublishEnvelope {
            event: event("jobs", r#"{"n": 1}"#),
            source: None,
            cron_payload: None,
            derived: None,
        },
    )
    .unwrap();

    let got = rx.try_recv().unwrap();
    assert_eq!(got.queue, "jobs");
    assert!(same_json(&got.payload, &json(r#"{"n": 1}"#)));
}

#[test]
fn reliable_publish_enqueues_durable_record() {
    let temp = TempDir::new().unwrap();
    let store = Store::open(&temp);
    let router = DeliveryRouter::new(&config(false));

    publish(
        &router,
        Some(&store),
        &mut Fanout::new(),
        PublishEnvelope {
            event: event("jobs", r#"{"n": 1}"#),
            source: Some(SourceRef {
                kind: SourceKind::Cron,
                reference: "tick".to_string(),
            }),
            cron_payload: Some(json(r#"{"raiser": "tick"}"#)),
            derived: None,
        },
    )
    .unwrap();

    let leased = store.lease_for_dept("worker", NOW, 8, Duration::from_secs(30));
    assert_eq!(leased.len(), 1);
    assert_eq!(leased[0].queue, "jobs");
    assert_eq!(leased[0].dept, "worker");
    assert!(same_json(&leased[0].payload, &json(r#"{"n": 1}"#)));
    assert_eq!(leased[0].source.as_ref().unwrap().reference, "tick");
    assert_eq!(
        leased[0].delivery_id,
        "delivery/v1/source/cron/queue/jobs/dept/worker/ref/tick"
    );
}

#[test]
fn reliable_publish_uses_namespaced_queue_and_dept_in_delivery_id() {
    let temp = TempDir::new().unwrap();
    let store = Store::open(&temp);
    let router = DeliveryRouter::new(&namespaced_config());
    let source = SourceRef {
        kind: SourceKind::Cron,
        reference: "pkg.tick".to_string(),
    };

    for queue in ["pkg.jobs", "other.jobs"] {
        publish(
            &router,
            Some(&store),
            &mut Fanout::new(),
            PublishEnvelope {
                event: event(queue, &format!(r#"{{"queue": "{queue}"}}"#)),
                source: Some(source.copy()),
                cron_payload: None,
                derived: None,
            },
        )
        .unwrap();
    }

    let pkg = store.lease_for_dept("pkg.worker", NOW, 8, Duration::from_secs(30));
    let other = store.lease_for_dept("other.worker", NOW, 8, Duration::from_secs(30));

    assert_eq!(pkg.len(), 1);
    assert_eq!(pkg[0].queue, "pkg.jobs");
    assert_eq!(pkg[0].dept, "pkg.worker");
    assert_eq!(pkg[0].source.as_ref().unwrap().reference, "pkg.tick");
    assert_eq!(
        pkg[0].delivery_id,
        "delivery/v1/source/cron/queue/pkg.jobs/dept/pkg.worker/ref/pkg.tick"
    );

    assert_eq!(other.len(), 1);
    assert_eq!(other[0].queue, "other.jobs");
    assert_eq!(other[0].dept, "other.worker");
    assert_eq!(other[0].source.as_ref().unwrap().reference, "pkg.tick");
    assert_eq!(
        other[0].delivery_id,
        "delivery/v1/source/cron/queue/other.jobs/dept/other.worker/ref/pkg.tick"
    );
    assert_ne!(pkg[0].delivery_id, other[0].delivery_id);
}

#[test]
fn queue_starvation_publish_path_stores_canonical_liveness_fact() {
    let temp = TempDir::new().unwrap();
    let store = Store::open(&temp);
    let router = DeliveryRouter::new(&queue_starvation_config(false));
    let mut starved = event(
        "merge-ready",
        r#"{
            "queue_head_age_minutes": 3898,
            "threshold_minutes": 60,
            "queue_order": 1,
            "queue_liveness": {
                "item_id": "caller-supplied",
                "linked_item_id": "caller-supplied",
                "owner": "caller-supplied",
                "state": "caller-supplied",
                "order": 99,
                "age_seconds": 1,
                "slo_seconds": 9,
                "breached": false,
                "next_action": "caller-supplied"
            }
        }"#,
    );
    starved.ts = 10_000;

    publish(
        &router,
        Some(&store),
        &mut Fanout::new(),
        PublishEnvelope {
            event: starved,
            source: starved_source(),
            cron_payload: None,
            derived: None,
        },
    )
    .unwrap();

    let leased = store.lease_for_dept("pkg.implementer", NOW, 8, Duration::from_secs(30));
    assert_eq!(leased.len(), 1);

    let liveness = at(&leased[0].payload, &["queue_liveness"]);
    assert_eq!(
        text_at(&liveness, &["item_id"]),
        "github-devloop/issue/ChronoAIProject/fkst-substrate/70"
    );
    assert_eq!(
        text_at(&liveness, &["linked_item_id"]),
        "github-devloop/pr/ChronoAIProject/fkst-substrate/82"
    );
    assert_eq!(text_at(&liveness, &["queue"]), "merge-ready");
    assert_eq!(text_at(&liveness, &["owner"]), "github-devloop");
    assert_eq!(text_at(&liveness, &["state"]), "merge-ready");
    assert_eq!(number_at(&liveness, &["order"]), 1);
    assert_eq!(number_at(&liveness, &["age_seconds"]), 3898_u64 * 60);
    assert_eq!(number_at(&liveness, &["slo_seconds"]), 60_u64 * 60);
    assert_eq!(at(&liveness, &["breached"]).as_bool(), Some(true));
    assert_eq!(
        text_at(&liveness, &["next_action"]),
        "route through normal intake consensus implementation review pipeline"
    );
}

#[test]
fn queue_starvation_ephemeral_publish_path_emits_canonical_liveness_fact() {
    let mut fanout = Fanout::new();
    let mut rx = fanout.subscribe("merge-ready", 8);
    let router = DeliveryRouter::new(&queue_starvation_config(true));

    publish(
        &router,
        None,
        &mut fanout,
        PublishEnvelope {
            event: event(
                "merge-ready",
                r#"{
                    "watchdog": {
                        "age_seconds": 233880,
                        "slo_seconds": 3600,
                        "order": 1
                    },
                    "queue_liveness": {
                        "item_id": "caller-supplied"
                    }
                }"#,
            ),
            source: starved_source(),
            cron_payload: None,
            derived: None,
        },
    )
    .unwrap();

    let got = rx.try_recv().unwrap();
    let liveness = at(&got.payload, &["queue_liveness"]);
    assert_eq!(
        text_at(&liveness, &["item_id"]),
        "github-devloop/issue/ChronoAIProject/fkst-substrate/70"
    );
    assert_eq!(
        text_at(&liveness, &["linked_item_id"]),
        "github-devloop/pr/ChronoAIProject/fkst-substrate/82"
    );
    assert_eq!(text_at(&liveness, &["queue"]), "merge-ready");
    assert_eq!(text_at(&liveness, &["owner"]), "github-devloop");
    assert_eq!(text_at(&liveness, &["state"]), "merge-ready");
    assert_eq!(number_at(&liveness, &["order"]), 1);
    assert_eq!(number_at(&liveness, &["age_seconds"]), 233_880_u64);
    assert_eq!(number_at(&liveness, &["slo_seconds"]), 3_600_u64);
    assert_eq!(at(&liveness, &["breached"]).as_bool(), Some(true));
    assert_eq!(
        text_at(&liveness, &["next_action"]),
        "route through normal intake consensus implementation review pipeline"
    );
}

#[test]
fn reliable_raised_dedup_key_collapses_across_parent_source_and_ts() {
    let temp = TempDir::new().unwrap();
    let store = Store::open(&temp);
    let router = DeliveryRouter::new(&config(false));
    let first_parent = DerivedDelivery {
        parent_delivery_id: "delivery/v1/source/cron/queue/source/dept/producer/ref/tick-1"
            .to_string(),
        ordinal: 0,
    };
    let second_parent = DerivedDelivery {
        parent_delivery_id: "delivery/v1/source/cron/queue/source/dept/producer/ref/tick-2"
            .to_string(),
        ordinal: 4,
    };
    let mut first_event = event(
        "jobs",
        r#"{"entity": "issue-512", "dedup_key": "issue-512/proposal-a"}"#,
    );
    first_event.ts = 1_000;
    let mut second_event = event(
        "jobs",
        r#"{"entity": "issue-512", "dedup_key": "issue-512/proposal-a", "minor": "later"}"#,
    );
    second_event.ts = 2_000;

    publish(
        &router,
        Some(&store),
        &mut Fanout::new(),
        PublishEnvelope {
            event: first_event,
            source: Some(cron_source("tick/slot/1000")),
            cron_payload: None,
            derived: Some(first_parent),
        },
    )
    .unwrap();
    publish(
        &router,
        Some(&store),
        &mut Fanout::new(),
        PublishEnvelope {
            event: second_event,
            source: Some(cron_source("tick/slot/2000")),
            cron_payload: None,
            derived: Some(second_parent),
        },
    )
    .unwrap();

    let leased = store.lease_for_dept("worker", NOW, 8, Duration::from_secs(30));

    assert_eq!(leased.len(), 1);
    assert_eq!(
        leased[0].delivery_id,
        "delivery/v3/raised/queue/jobs/dept/worker/dedup/issue-512_2F_proposal-a"
    );
    assert_eq!(
        leased[0].source.as_ref().unwrap().reference,
        "tick/slot/1000"
    );
    assert_eq!(leased[0].observed_at_ms, 1_000);
    assert!(same_json(
        &leased[0].payload,
        &json(r#"{"entity": "issue-512", "dedup_key": "issue-512/proposal-a"}"#)
    ));
}

#[test]
fn reliable_raised_same_entity_with_different_dedup_keys_stores_two_records() {
    let temp = TempDir::new().unwrap();
    let store = Store::open(&temp);
    let router = DeliveryRouter::new(&config(false));
    let source = cron_source("tick/slot/1000");

    for (ordinal, dedup_key) in ["issue-512/proposal-a", "issue-512/proposal-b"]
        .into_iter()
        .enumerate()
    {
        publish(
            &router,
            Some(&store),
            &mut Fanout::new(),
            PublishEnvelope {
                event: event(
                    "jobs",
                    &format!(r#"{{"entity": "issue-512", "dedup_key": "{dedup_key}"}}"#),
                ),
                source: Some(source.copy()),
                cron_payload: None,
                derived: Some(DerivedDelivery {
                    parent_delivery_id:
                        "delivery/v1/source/cron/queue/source/dept/producer/ref/tick".to_string(),
                    ordinal,
                }),
            },
        )
        .unwrap();
    }

    let leased = store.lease_for_dept("worker", NOW, 8, Duration::from_secs(30));

    assert_eq!(leased.len(), 2);
}

#[test]
fn reliable_publish_does_not_send_fanout_event() {
    let temp = TempDir::new().unwrap();
    let store = Store::open(&temp);
    let mut fanout = Fanout::new();
    let mut rx = fanout.subscribe("jobs", 8);
    let router = DeliveryRouter::new(&config(false));

    publish(
        &router,
        Some(&store),
        &mut fanout,
        PublishEnvelope {
            event: event("jobs", r#"{"n": 1}"#),
            source: Some(cron_source("tick")),
            cron_payload: None,
            derived: None,
        },
    )
    .unwrap();

    assert!(rx.try_recv().is_err());
}

#[test]
fn reliable_publish_rejects_oversized_payload() {
    let temp = TempDir::new().unwrap();
    let store = Store::open(&temp);
    let router = DeliveryRouter::new(&config(false));

    let err = publish(
        &router,
        Some(&store),
        &mut Fanout::new(),
        PublishEnvelope {
            event: event("jobs", &format!(r#"{{"blob": "{}"}}"#, "x".repeat(70 * 1024))),
            source: Some(cron_source("tick")),
            cron_payload: None,
            derived: None,
        },
    )
    .unwrap_err();

    assert!(err.contains("durable delivery payload exceeds"));
}

#[test]
fn reliable_subscription_without_durable_root_fails_closed() {
    assert!(has_reliable_subscriptions(&config(false)));

    let err = delivery_store_for_config(&config(false), None).unwrap_err();

    assert!(err.contains("FKST_DURABLE_ROOT must be set"));
}

#[test]
fn pure_ephemeral_config_does_not_require_durable_root() {
    assert!(delivery_store_for_config(&config(true), None)
        .unwrap()
        .is_none());
}

#[test]
fn shutdown_terminates_process_groups_before_aborting_tasks() {
    let steps = teardown_steps();

    assert_eq!(
        steps,
        vec![
            TeardownStep::TerminateProcessGroups,
            TeardownStep::AbortRuntimeTasks,
            TeardownStep::Complete
        ]
    );
    assert_eq!(steps[0].as_str(), "terminate_process_groups");
}

#[test]
fn source_delivery_id_ignores_process_observation_time() {
    let source = SourceRef {
        kind: SourceKind::File,
        reference: "/tmp/input.txt/len/4/mtime/1000".to_string(),
    };
    let first = derive_delivery_id(
        "jobs",
        "worker",
        &some_source(&source),
        &None,
        None,
        &None,
    );
    let second = derive_delivery_id(
        "jobs",
        "worker",
        &some_source(&source),
        &None,
        None,
        &None,
    );

    assert_eq!(first, second);
    assert_eq!(
        first,
        "delivery/v1/source/file__watch/queue/jobs/dept/worker/ref/_x2Ftmp_x2Finput.txt_x2Flen_x2F4_x2Fmtime_x2F1000"
    );
}

#[test]
fn raised_delivery_id_collapses_same_dedup_key_across_parents() {
    let first_parent = DerivedDelivery {
        parent_delivery_id: "delivery/v1/source/cron/queue/jobs/dept/worker/ref/tick-1"
            .to_string(),
        ordinal: 0,
    };
    let second_parent = DerivedDelivery {
        parent_delivery_id: "delivery/v1/source/cron/queue/jobs/dept/worker/ref/tick-2"
            .to_string(),
        ordinal: 7,
    };

    let first = derive_delivery_id(
        "next",
        "next_worker",
        &Some(cron_source("tick/slot/1000")),
        &some_parent(&first_parent),
        Some("issue/512/proposal/abc"),
        &None,
    );
    let second = derive_delivery_id(
        "next",
        "next_worker",
        &Some(cron_source("tick/slot/2000")),
        &some_parent(&second_parent),
        Some("issue/512/proposal/abc"),
        &None,
    );

    assert_eq!(first, second);
    assert_eq!(
        first,
        "delivery/v3/raised/queue/next/dept/next_worker/dedup/issue_2F_512_2F_proposal_2F_abc"
    );
}

#[test]
fn raised_delivery_id_keeps_distinct_dedup_keys_for_same_source() {
    let source = cron_source("issue/512");
    let derived = DerivedDelivery {
        parent_delivery_id: "delivery/v1/source/cron/queue/jobs/dept/worker/ref/tick"
            .to_string(),
        ordinal: 0,
    };

    let first = derive_delivery_id(
        "comments",
        "comment_worker",
        &some_source(&source),
        &some_parent(&derived),
        Some("proposal-a/comment/approve/v1"),
        &None,
    );
    let second = derive_delivery_id(
        "comments",
        "comment_worker",
        &some_source(&source),
        &some_parent(&derived),
        Some("proposal-b/comment/approve/v1"),
        &None,
    );

    assert_ne!(first, second);
}

#[test]
fn raised_delivery_id_dedup_key_wins_over_own_source_ref() {
    let parent_source = cron_source("parent/tick");
    let own_source = SourceRef {
        kind: SourceKind::External,
        reference: "child/entity:512".to_string(),
    };
    let derived = DerivedDelivery {
        parent_delivery_id: "delivery/v1/source/cron/queue/jobs/dept/worker/ref/tick"
            .to_string(),
        ordinal: 1,
    };

    let id = derive_delivery_id(
        "next",
        "next_worker",
        &some_source(&parent_source),
        &some_parent(&derived),
        Some("issue-512"),
        &some_source(&own_source),
    );

    assert_eq!(
        id,
        "delivery/v3/raised/queue/next/dept/next_worker/dedup/issue-512"
    );
    assert!(!id.contains("child"));
}

#[test]
fn raised_delivery_id_falls_back_to_own_source_ref_without_dedup_key() {
    let parent_source = cron_source("parent/tick");
    let own_source = SourceRef {
        kind: SourceKind::External,
        reference: "child/entity:512".to_string(),
    };
    let derived = DerivedDelivery {
        parent_delivery_id: "delivery/v1/source/cron/queue/jobs/dept/worker/ref/tick"
            .to_string(),
        ordinal: 1,
    };

    let id = derive_delivery_id(
        "next",
        "next_worker",
        &some_source(&parent_source),
        &some_parent(&derived),
        None,
        &some_source(&own_source),
    );

    assert_eq!(
        id,
        "delivery/v3/raised-src/queue/next/dept/next_worker/kind/external/ref/child_2F_entity_3A_512"
    );
}

#[test]
fn raised_delivery_id_last_resort_uses_parent_ordinal_queue_and_dept() {
    let derived = DerivedDelivery {
        parent_delivery_id: "delivery/v1/source/cron/queue/jobs/dept/worker/ref/tick"
            .to_string(),
        ordinal: 2,
    };

    let id = derive_delivery_id(
        "next",
        "next_worker",
        &None,
        &some_parent(&derived),
        None,
        &None,
    );

    assert_eq!(
        id,
        "delivery/v2/raised/queue/next/dept/next__worker/parent__hash/1137428a8a684af06e4ef49a79a0d5e8/ordinal/2"
    );
}

#[test]
fn raised_delivery_id_escaping_is_injective_and_runtime_safe() {
    let source = cron_source("tick");
    let derived = DerivedDelivery {
        parent_delivery_id: "delivery/v1/source/cron/queue/jobs/dept/worker/ref/tick"
            .to_string(),
        ordinal: 0,
    };

    let slash = derive_delivery_id(
        "next",
        "next_worker",
        &some_source(&source),
        &some_parent(&derived),
        Some("a/b"),
        &None,
    );
    let colon = derive_delivery_id(
        "next",
        "next_worker",
        &some_source(&source),
        &some_parent(&derived),
        Some("a:b"),
        &None,
    );

    assert_ne!(slash, colon);
    assert!(slash.ends_with("/dedup/a_2F_b"));
    assert!(colon.ends_with("/dedup/a_3A_b"));
    assert!(runtime_safe(&slash));
    assert!(runtime_safe(&colon));

    let only_dots = derive_delivery_id(
        "next",
        "next_worker",
        &some_source(&source),
        &some_parent(&derived),
        Some("..."),
        &None,
    );
    let long_dot_tail = derive_delivery_id(
        "next",
        "next_worker",
        &some_source(&source),
        &some_parent(&derived),
        Some(&format!("a{}", ".".repeat(220))),
        &None,
    );

    assert!(only_dots.ends_with("/dedup/_2E__2E__2E_"));
    assert!(runtime_safe(&only_dots));
    assert!(runtime_safe(&long_dot_tail));
}

#[test]
fn raised_delivery_id_chain_stays_bounded() {
    let source = cron_source("tick");
    let mut parent = derive_delivery_id(
        "jobs",
        "worker",
        &some_source(&source),
        &None,
        None,
        &None,
    );

    for hop in 0..20 {
        let derived = DerivedDelivery {
            parent_delivery_id: parent.clone(),
            ordinal: hop,
        };
        let id = derive_delivery_id(
            "next",
            "next_worker",
            &None,
            &some_parent(&derived),
            None,
            &None,
        );

        assert!(
            id.len() < 512,
            "hop {hop} delivery id exceeded bound: {} bytes",
            id.len()
        );
        assert!(id.contains("/parent__hash/"));
        assert!(!id.contains("/parent/"));
        parent = id;
    }
}
