//! What the engine tells of its own failures.

use vstd::prelude::*;
use vstd::string::*;
use crate::cutting::starts_with;
use crate::delivery_retry::{error_excerpt, excerpt, ERROR_EXCERPT_LIMIT};
use crate::delivery_types::{
    delivery_view, put, source_view, DeadRecord, DeadView, DeliveryRecord, DeliveryView, SourceKind,
    SourceRef, SourceView,
};
use crate::event::{Event, EventView};
use crate::fingerprint::{hash_normalized, normalized_hash};
use crate::json::{members_view, Json, JsonView, Member};
use crate::numeral::{decimal, hex, padded_hex_text, push_decimal, zero_padded};
use crate::store_model::plus_capped;
use crate::text::{copy_text, text_view};

verus! {

/// What kind of failure it was.
#[derive(Clone, Copy, Debug, PartialEq, Eq, Structural)]
pub enum ErrorClass {
    DeliveryFailure,
    FrameworkChildNonzero,
    FrameworkChildSpawn,
    RaisedPublish,
    SpawnArgs,
    StoreOpWatchdog,
    SchemaValidation,
    LockBusy,
}

impl ErrorClass {
    pub open spec fn name(self) -> Seq<char> {
        match self {
            ErrorClass::DeliveryFailure => "delivery_failure"@,
            ErrorClass::FrameworkChildNonzero => "framework_child_nonzero"@,
            ErrorClass::FrameworkChildSpawn => "framework_child_spawn"@,
            ErrorClass::RaisedPublish => "raised_publish"@,
            ErrorClass::SpawnArgs => "spawn_args"@,
            ErrorClass::StoreOpWatchdog => "store_op_watchdog"@,
            ErrorClass::SchemaValidation => "schema_validation"@,
            ErrorClass::LockBusy => "lock_busy"@,
        }
    }

    pub fn as_str(self) -> (r: &'static str)
        ensures
            r@ == self.name(),
    {
        match self {
            ErrorClass::DeliveryFailure => "delivery_failure",
            ErrorClass::FrameworkChildNonzero => "framework_child_nonzero",
            ErrorClass::FrameworkChildSpawn => "framework_child_spawn",
            ErrorClass::RaisedPublish => "raised_publish",
            ErrorClass::SpawnArgs => "spawn_args",
            ErrorClass::StoreOpWatchdog => "store_op_watchdog",
            ErrorClass::SchemaValidation => "schema_validation",
            ErrorClass::LockBusy => "lock_busy",
        }
    }
}

/// The kind of failure that a text tells of by how it starts.
pub open spec fn class_of(error: Seq<char>) -> ErrorClass {
    if "exit="@.is_prefix_of(error) {
        ErrorClass::FrameworkChildNonzero
    } else if "spawn error:"@.is_prefix_of(error) {
        ErrorClass::FrameworkChildSpawn
    } else if "raised publish error:"@.is_prefix_of(error) {
        ErrorClass::RaisedPublish
    } else if "build spawn args:"@.is_prefix_of(error) {
        ErrorClass::SpawnArgs
    } else {
        ErrorClass::DeliveryFailure
    }
}

pub fn classify_delivery_error(error: &str) -> (r: ErrorClass)
    ensures
        r == class_of(error@),
{
    if starts_with(error, "exit=") {
        ErrorClass::FrameworkChildNonzero
    } else if starts_with(error, "spawn error:") {
        ErrorClass::FrameworkChildSpawn
    } else if starts_with(error, "raised publish error:") {
        ErrorClass::RaisedPublish
    } else if starts_with(error, "build spawn args:") {
        ErrorClass::SpawnArgs
    } else {
        ErrorClass::DeliveryFailure
    }
}

/// What tells one failure from another: its kind, and the hash of its text without what differs
/// from one occurrence to the next.
pub open spec fn fingerprint_of(class: ErrorClass, raw: Seq<char>) -> Seq<char> {
    class.name() + ":"@ + zero_padded(hex(normalized_hash(raw) as nat), 16)
}

pub fn fingerprint(error_class: ErrorClass, raw: &str) -> (r: String)
    ensures
        r@ == fingerprint_of(error_class, raw@),
{
    let mut out: String = copy_text(error_class.as_str());
    out.append(":");
    let digits: String = padded_hex_text(hash_normalized(raw), 16);
    out.append(digits.as_str());
    out
}

pub open spec fn kind_word(kind: SourceKind) -> Seq<char> {
    match kind {
        SourceKind::File => "file"@,
        SourceKind::Cron => "cron"@,
        SourceKind::Git => "git"@,
        SourceKind::External => "external"@,
    }
}

pub fn source_kind_name(kind: SourceKind) -> (r: &'static str)
    ensures
        r@ == kind_word(kind),
{
    match kind {
        SourceKind::File => "file",
        SourceKind::Cron => "cron",
        SourceKind::Git => "git",
        SourceKind::External => "external",
    }
}

pub open spec fn source_ref_of(source: Option<SourceView>) -> JsonView {
    match source {
        Some(s) => JsonView::Object(
            Map::<Seq<char>, JsonView>::empty().insert(
                "kind"@,
                JsonView::Text(kind_word(s.kind)),
            ).insert("reference"@, JsonView::Text(s.reference)),
        ),
        None => JsonView::Null,
    }
}

fn source_ref_json(source: &Option<SourceRef>) -> (r: Json)
    ensures
        r@ == source_ref_of(source_view(*source)),
{
    match source {
        Some(s) => {
            let mut members: Vec<Member> = Vec::new();
            assert(members_view(members@) =~= Map::empty());
            put(&mut members, "kind", Json::text(source_kind_name(s.kind)));
            put(&mut members, "reference", Json::text(s.reference.as_str()));
            Json::Object(members)
        },
        None => Json::Null,
    }
}

// How long the item of a delivery has waited.

pub open spec fn text_or(payload: JsonView, key: Seq<char>, default: Seq<char>) -> Seq<char> {
    match payload.text_at(key) {
        Some(s) => s,
        None => default,
    }
}

pub open spec fn number_in(payload: JsonView, key: Seq<char>) -> Option<nat> {
    match payload.get(key) {
        Some(v) => v.as_unsigned(),
        None => None,
    }
}

pub open spec fn bool_in(payload: JsonView, key: Seq<char>) -> Option<bool> {
    match payload.get(key) {
        Some(v) => v.as_bool(),
        None => None,
    }
}

/// What the payload says of the queue, or the payload itself where it says nothing.
pub open spec fn liveness_in(d: DeliveryView) -> JsonView {
    match d.payload.get("queue_liveness"@) {
        Some(v) => v,
        None => d.payload,
    }
}

pub open spec fn seconds_between(now_ms: nat, then_ms: nat) -> nat {
    if now_ms >= then_ms {
        ((now_ms - then_ms) / 1000) as nat
    } else {
        0
    }
}

pub open spec fn liveness_age(d: DeliveryView, now_ms: u64) -> nat {
    let payload = liveness_in(d);
    match number_in(payload, "age_seconds"@) {
        Some(n) => n,
        None => seconds_between(
            now_ms as nat,
            match number_in(payload, "observed_at_ms"@) {
                Some(n) => n,
                None => d.observed_at_ms as nat,
            },
        ),
    }
}

pub open spec fn next_action() -> Seq<char> {
    "route through normal intake consensus implementation review pipeline"@
}

pub open spec fn queue_state_of(d: DeliveryView) -> Seq<char> {
    if d.lease_until_ms is Some {
        "leased"@
    } else {
        "queued"@
    }
}

/// What is always told of the item of a delivery.
pub open spec fn liveness_base(d: DeliveryView, now_ms: u64) -> Map<Seq<char>, JsonView> {
    let payload = liveness_in(d);
    Map::<Seq<char>, JsonView>::empty().insert(
        "item_id"@,
        JsonView::Text(text_or(payload, "item_id"@, d.delivery_id)),
    ).insert("queue"@, JsonView::Text(d.queue)).insert(
        "owner"@,
        JsonView::Text(text_or(payload, "owner"@, d.dept)),
    ).insert("state"@, JsonView::Text(text_or(payload, "state"@, queue_state_of(d)))).insert(
        "order"@,
        JsonView::Unsigned(
            match number_in(payload, "order"@) {
                Some(n) => n,
                None => d.not_before_ms as nat,
            },
        ),
    ).insert("age_seconds"@, JsonView::Unsigned(liveness_age(d, now_ms))).insert(
        "next_action"@,
        JsonView::Text(text_or(payload, "next_action"@, next_action())),
    )
}

pub open spec fn with_linked(m: Map<Seq<char>, JsonView>, payload: JsonView) -> Map<
    Seq<char>,
    JsonView,
> {
    match payload.text_at("linked_item_id"@) {
        Some(s) => m.insert("linked_item_id"@, JsonView::Text(s)),
        None => m,
    }
}

/// The time that the item may wait, and whether it has waited longer.
pub open spec fn with_threshold(m: Map<Seq<char>, JsonView>, payload: JsonView, age: nat) -> Map<
    Seq<char>,
    JsonView,
> {
    match (number_in(payload, "slo_seconds"@), bool_in(payload, "breached"@)) {
        (Some(slo), said) => m.insert("slo_seconds"@, JsonView::Unsigned(slo)).insert(
            "breached"@,
            JsonView::Bool(
                match said {
                    Some(b) => b,
                    None => age >= slo,
                },
            ),
        ),
        (None, Some(b)) => m.insert("breached"@, JsonView::Bool(b)),
        (None, None) => m,
    }
}

/// How long the item of a delivery has waited, by what the payload says and by what the delivery
/// says where the payload does not.
pub open spec fn delivery_liveness(d: DeliveryView, now_ms: u64) -> JsonView {
    JsonView::Object(
        with_threshold(
            with_linked(liveness_base(d, now_ms), liveness_in(d)),
            liveness_in(d),
            liveness_age(d, now_ms),
        ),
    )
}

pub open spec fn dead_liveness(d: DeadView, now_ms: u64) -> JsonView {
    match d.record {
        Some(r) => delivery_liveness(r, now_ms),
        None => JsonView::Object(
            Map::<Seq<char>, JsonView>::empty().insert(
                "item_id"@,
                JsonView::Text(d.delivery_id),
            ).insert("queue"@, JsonView::Text(d.queue)).insert(
                "owner"@,
                JsonView::Text(d.dept),
            ).insert("state"@, JsonView::Text("dead"@)).insert(
                "order"@,
                JsonView::Unsigned(d.not_before_ms as nat),
            ).insert(
                "age_seconds"@,
                JsonView::Unsigned(seconds_between(now_ms as nat, d.observed_at_ms as nat)),
            ).insert("next_action"@, JsonView::Text(next_action())),
        ),
    }
}

fn get_text_or(payload: &Json, key: &str, default: &str) -> (r: String)
    ensures
        r@ == text_or(payload@, key@, default@),
{
    match payload.text_at(key) {
        Some(s) => s,
        None => copy_text(default),
    }
}

pub open spec fn number_of(n: Option<u64>) -> Option<nat> {
    match n {
        Some(n) => Some(n as nat),
        None => None,
    }
}

fn get_number(payload: &Json, key: &str) -> (r: Option<u64>)
    ensures
        number_of(r) == number_in(payload@, key@),
{
    match payload.get(key) {
        Some(v) => v.as_unsigned(),
        None => None,
    }
}

fn get_bool(payload: &Json, key: &str) -> (r: Option<bool>)
    ensures
        r == bool_in(payload@, key@),
{
    match payload.get(key) {
        Some(v) => v.as_bool(),
        None => None,
    }
}

fn elapsed_seconds(now_ms: u64, then_ms: u64) -> (r: u64)
    ensures
        r == seconds_between(now_ms as nat, then_ms as nat),
{
    now_ms.saturating_sub(then_ms) / 1000
}

/// How long the item of a delivery has waited at a time.
pub fn queue_liveness_json(record: &DeliveryRecord, now_ms: u64) -> (r: Json)
    ensures
        r@ == delivery_liveness(record@, now_ms),
{
    let payload: &Json = match record.payload.get("queue_liveness") {
        Some(v) => v,
        None => &record.payload,
    };
    assert(payload@ == liveness_in(record@));
    let age_seconds: u64 = match get_number(payload, "age_seconds") {
        Some(n) => n,
        None => {
            let observed: u64 = match get_number(payload, "observed_at_ms") {
                Some(n) => n,
                None => record.observed_at_ms,
            };
            elapsed_seconds(now_ms, observed)
        },
    };
    assert(age_seconds == liveness_age(record@, now_ms));
    let state: &str = if record.lease_until_ms.is_some() {
        "leased"
    } else {
        "queued"
    };
    let order: u64 = match get_number(payload, "order") {
        Some(n) => n,
        None => record.not_before_ms,
    };
    let mut members: Vec<Member> = Vec::new();
    assert(members_view(members@) =~= Map::empty());
    put(
        &mut members,
        "item_id",
        Json::Text(get_text_or(payload, "item_id", record.delivery_id.as_str())),
    );
    put(&mut members, "queue", Json::text(record.queue.as_str()));
    put(&mut members, "owner", Json::Text(get_text_or(payload, "owner", record.dept.as_str())));
    put(&mut members, "state", Json::Text(get_text_or(payload, "state", state)));
    put(&mut members, "order", Json::Unsigned(order));
    put(&mut members, "age_seconds", Json::Unsigned(age_seconds));
    put(
        &mut members,
        "next_action",
        Json::Text(
            get_text_or(
                payload,
                "next_action",
                "route through normal intake consensus implementation review pipeline",
            ),
        ),
    );
    assert(members_view(members@) == liveness_base(record@, now_ms));
    match payload.text_at("linked_item_id") {
        Some(s) => put(&mut members, "linked_item_id", Json::Text(s)),
        None => {},
    }
    match (get_number(payload, "slo_seconds"), get_bool(payload, "breached")) {
        (Some(slo), said) => {
            put(&mut members, "slo_seconds", Json::Unsigned(slo));
            let breached: bool = match said {
                Some(b) => b,
                None => age_seconds >= slo,
            };
            put(&mut members, "breached", Json::Bool(breached));
        },
        (None, Some(b)) => put(&mut members, "breached", Json::Bool(b)),
        (None, None) => {},
    }
    Json::Object(members)
}

fn queue_liveness_json_for_dead(dead: &DeadRecord, now_ms: u64) -> (r: Json)
    ensures
        r@ == dead_liveness(dead@, now_ms),
{
    match &dead.record {
        Some(record) => queue_liveness_json(record, now_ms),
        None => {
            let mut members: Vec<Member> = Vec::new();
            assert(members_view(members@) =~= Map::empty());
            put(&mut members, "item_id", Json::text(dead.delivery_id.as_str()));
            put(&mut members, "queue", Json::text(dead.queue.as_str()));
            put(&mut members, "owner", Json::text(dead.dept.as_str()));
            put(&mut members, "state", Json::text("dead"));
            put(&mut members, "order", Json::Unsigned(dead.not_before_ms));
            put(
                &mut members,
                "age_seconds",
                Json::Unsigned(elapsed_seconds(now_ms, dead.observed_at_ms)),
            );
            put(
                &mut members,
                "next_action",
                Json::text("route through normal intake consensus implementation review pipeline"),
            );
            Json::Object(members)
        },
    }
}

// Facts.

pub open spec fn short(error: Seq<char>) -> Seq<char> {
    excerpt(error, ERROR_EXCERPT_LIMIT as nat)
}

pub open spec fn fact_event(payload: Map<Seq<char>, JsonView>, now_ms: u64) -> EventView {
    EventView { queue: "fkst.failure_fact"@, payload: JsonView::Object(payload), ts: now_ms }
}

/// What is told of a delivery that failed.
pub open spec fn delivery_fact(d: DeliveryView, error: Seq<char>, now_ms: u64) -> EventView {
    let class = class_of(error);
    fact_event(
        Map::<Seq<char>, JsonView>::empty().insert(
            "schema"@,
            JsonView::Text("fkst.failure_fact.v1"@),
        ).insert("error_class"@, JsonView::Text(class.name())).insert(
            "fingerprint"@,
            JsonView::Text(fingerprint_of(class, error)),
        ).insert("error"@, JsonView::Text(short(error))).insert(
            "attempt"@,
            JsonView::Unsigned(plus_capped(d.attempt, 1) as nat),
        ).insert("delivery_id"@, JsonView::Text(d.delivery_id)).insert(
            "origin_queue"@,
            JsonView::Text(d.queue),
        ).insert("origin_dept"@, JsonView::Text(d.dept)).insert(
            "source_ref"@,
            source_ref_of(d.source),
        ).insert("observed_at_ms"@, JsonView::Unsigned(d.observed_at_ms as nat)).insert(
            "queue_liveness"@,
            delivery_liveness(d, now_ms),
        ),
        now_ms,
    )
}

fn fact(members: Vec<Member>, now_ms: u64) -> (r: Event)
    ensures
        r@ == fact_event(members_view(members@), now_ms),
{
    Event { queue: copy_text("fkst.failure_fact"), payload: Json::Object(members), ts: now_ms }
}

/// What is told of a delivery that failed at a time.
pub fn delivery_failure_fact(record: &DeliveryRecord, error: &str, now_ms: u64) -> (r: Event)
    ensures
        r@ == delivery_fact(record@, error@, now_ms),
{
    let error_class: ErrorClass = classify_delivery_error(error);
    let mut members: Vec<Member> = Vec::new();
    assert(members_view(members@) =~= Map::empty());
    put(&mut members, "schema", Json::text("fkst.failure_fact.v1"));
    put(&mut members, "error_class", Json::text(error_class.as_str()));
    put(&mut members, "fingerprint", Json::Text(fingerprint(error_class, error)));
    put(&mut members, "error", Json::Text(error_excerpt(error)));
    put(&mut members, "attempt", Json::Unsigned(record.attempt.saturating_add(1)));
    put(&mut members, "delivery_id", Json::text(record.delivery_id.as_str()));
    put(&mut members, "origin_queue", Json::text(record.queue.as_str()));
    put(&mut members, "origin_dept", Json::text(record.dept.as_str()));
    put(&mut members, "source_ref", source_ref_json(&record.source));
    put(&mut members, "observed_at_ms", Json::Unsigned(record.observed_at_ms));
    put(&mut members, "queue_liveness", queue_liveness_json(record, now_ms));
    fact(members, now_ms)
}

/// What a dead letter says of a delivery that has no attempts left.
pub open spec fn dead_letter_of(d: DeliveryView, error: Seq<char>, now_ms: u64) -> JsonView {
    let class = class_of(error);
    JsonView::Object(
        Map::<Seq<char>, JsonView>::empty().insert(
            "delivery_id"@,
            JsonView::Text(d.delivery_id),
        ).insert("dedup_id"@, JsonView::Text(d.delivery_id)).insert(
            "queue"@,
            JsonView::Text(d.queue),
        ).insert("dept"@, JsonView::Text(d.dept)).insert(
            "origin_queue"@,
            JsonView::Text(d.queue),
        ).insert("origin_dept"@, JsonView::Text(d.dept)).insert(
            "attempt"@,
            JsonView::Unsigned(plus_capped(d.attempt, 1) as nat),
        ).insert("error"@, JsonView::Text(short(error))).insert(
            "error_class"@,
            JsonView::Text(class.name()),
        ).insert("fingerprint"@, JsonView::Text(fingerprint_of(class, error))).insert(
            "source_ref"@,
            source_ref_of(d.source),
        ).insert("queue_liveness"@, delivery_liveness(d, now_ms)),
    )
}

pub fn dead_letter_payload(record: &DeliveryRecord, error: &str, now_ms: u64) -> (r: Json)
    ensures
        r@ == dead_letter_of(record@, error@, now_ms),
{
    let error_class: ErrorClass = classify_delivery_error(error);
    let mut members: Vec<Member> = Vec::new();
    assert(members_view(members@) =~= Map::empty());
    put(&mut members, "delivery_id", Json::text(record.delivery_id.as_str()));
    put(&mut members, "dedup_id", Json::text(record.delivery_id.as_str()));
    put(&mut members, "queue", Json::text(record.queue.as_str()));
    put(&mut members, "dept", Json::text(record.dept.as_str()));
    put(&mut members, "origin_queue", Json::text(record.queue.as_str()));
    put(&mut members, "origin_dept", Json::text(record.dept.as_str()));
    put(&mut members, "attempt", Json::Unsigned(record.attempt.saturating_add(1)));
    put(&mut members, "error", Json::Text(error_excerpt(error)));
    put(&mut members, "error_class", Json::text(error_class.as_str()));
    put(&mut members, "fingerprint", Json::Text(fingerprint(error_class, error)));
    put(&mut members, "source_ref", source_ref_json(&record.source));
    put(&mut members, "queue_liveness", queue_liveness_json(record, now_ms));
    Json::Object(members)
}

pub open spec fn dead_error(d: DeadView) -> Seq<char> {
    match d.error_excerpt {
        Some(s) => s,
        None => "unknown delivery failure"@,
    }
}

/// What a dead letter says of a dead delivery.
pub open spec fn dead_record_of(d: DeadView, now_ms: u64) -> JsonView {
    let error = dead_error(d);
    let class = class_of(error);
    JsonView::Object(
        Map::<Seq<char>, JsonView>::empty().insert(
            "delivery_id"@,
            JsonView::Text(d.delivery_id),
        ).insert("dedup_id"@, JsonView::Text(d.delivery_id)).insert(
            "queue"@,
            JsonView::Text(d.queue),
        ).insert("dept"@, JsonView::Text(d.dept)).insert(
            "origin_queue"@,
            JsonView::Text(d.queue),
        ).insert("origin_dept"@, JsonView::Text(d.dept)).insert(
            "attempt"@,
            JsonView::Unsigned(d.attempts as nat),
        ).insert("redrive_count"@, JsonView::Unsigned(d.redrive_count as nat)).insert(
            "error"@,
            JsonView::Text(short(error)),
        ).insert("error_class"@, JsonView::Text(class.name())).insert(
            "fingerprint"@,
            JsonView::Text(fingerprint_of(class, error)),
        ).insert("source_ref"@, source_ref_of(d.source)).insert(
            "queue_liveness"@,
            dead_liveness(d, now_ms),
        ),
    )
}

pub fn dead_record_payload(dead: &DeadRecord, now_ms: u64) -> (r: Json)
    ensures
        r@ == dead_record_of(dead@, now_ms),
{
    let error: &str = match &dead.error_excerpt {
        Some(s) => s.as_str(),
        None => "unknown delivery failure",
    };
    let error_class: ErrorClass = classify_delivery_error(error);
    let mut members: Vec<Member> = Vec::new();
    assert(members_view(members@) =~= Map::empty());
    put(&mut members, "delivery_id", Json::text(dead.delivery_id.as_str()));
    put(&mut members, "dedup_id", Json::text(dead.delivery_id.as_str()));
    put(&mut members, "queue", Json::text(dead.queue.as_str()));
    put(&mut members, "dept", Json::text(dead.dept.as_str()));
    put(&mut members, "origin_queue", Json::text(dead.queue.as_str()));
    put(&mut members, "origin_dept", Json::text(dead.dept.as_str()));
    put(&mut members, "attempt", Json::Unsigned(dead.attempts));
    put(&mut members, "redrive_count", Json::Unsigned(dead.redrive_count));
    put(&mut members, "error", Json::Text(error_excerpt(error)));
    put(&mut members, "error_class", Json::text(error_class.as_str()));
    put(&mut members, "fingerprint", Json::Text(fingerprint(error_class, error)));
    put(&mut members, "source_ref", source_ref_json(&dead.source));
    put(&mut members, "queue_liveness", queue_liveness_json_for_dead(dead, now_ms));
    Json::Object(members)
}

pub open spec fn watchdog_text(op: Seq<char>, dept: Seq<char>, elapsed_ms: u64) -> Seq<char> {
    "durable delivery store operation exceeded watchdog threshold op="@ + op + " dept="@ + dept
        + " elapsed_ms="@ + decimal(elapsed_ms as nat)
}

/// What is told of an operation of the store that took too long.
pub open spec fn watchdog_fact(
    op: Seq<char>,
    dept: Seq<char>,
    elapsed_ms: u64,
    now_ms: u64,
) -> EventView {
    let text = watchdog_text(op, dept, elapsed_ms);
    fact_event(
        Map::<Seq<char>, JsonView>::empty().insert(
            "schema"@,
            JsonView::Text("fkst.failure_fact.v1"@),
        ).insert("error_class"@, JsonView::Text(ErrorClass::StoreOpWatchdog.name())).insert(
            "fingerprint"@,
            JsonView::Text(fingerprint_of(ErrorClass::StoreOpWatchdog, text)),
        ).insert("error"@, JsonView::Text(text)).insert(
            "origin_dept"@,
            JsonView::Text(dept),
        ).insert("store_op"@, JsonView::Text(op)).insert(
            "elapsed_ms"@,
            JsonView::Unsigned(elapsed_ms as nat),
        ),
        now_ms,
    )
}

pub fn store_watchdog_failure_fact(op: &str, dept: &str, elapsed_ms: u64, now_ms: u64) -> (r: Event)
    ensures
        r@ == watchdog_fact(op@, dept@, elapsed_ms, now_ms),
{
    let error_class: ErrorClass = ErrorClass::StoreOpWatchdog;
    let mut message: String = copy_text(
        "durable delivery store operation exceeded watchdog threshold op=",
    );
    message.append(op);
    message.append(" dept=");
    message.append(dept);
    message.append(" elapsed_ms=");
    push_decimal(&mut message, elapsed_ms);
    let mut members: Vec<Member> = Vec::new();
    assert(members_view(members@) =~= Map::empty());
    put(&mut members, "schema", Json::text("fkst.failure_fact.v1"));
    put(&mut members, "error_class", Json::text(error_class.as_str()));
    put(&mut members, "fingerprint", Json::Text(fingerprint(error_class, message.as_str())));
    put(&mut members, "error", Json::Text(message));
    put(&mut members, "origin_dept", Json::text(dept));
    put(&mut members, "store_op", Json::text(op));
    put(&mut members, "elapsed_ms", Json::Unsigned(elapsed_ms));
    fact(members, now_ms)
}

/// What is told of a graph that is refused.
pub open spec fn schema_fact(error: Seq<char>, now_ms: u64) -> EventView {
    fact_event(
        Map::<Seq<char>, JsonView>::empty().insert(
            "schema"@,
            JsonView::Text("fkst.failure_fact.v1"@),
        ).insert("error_class"@, JsonView::Text(ErrorClass::SchemaValidation.name())).insert(
            "fingerprint"@,
            JsonView::Text(fingerprint_of(ErrorClass::SchemaValidation, error)),
        ).insert("error"@, JsonView::Text(short(error))),
        now_ms,
    )
}

pub fn schema_validation_failure_fact(error: &str, now_ms: u64) -> (r: Event)
    ensures
        r@ == schema_fact(error@, now_ms),
{
    let error_class: ErrorClass = ErrorClass::SchemaValidation;
    let mut members: Vec<Member> = Vec::new();
    assert(members_view(members@) =~= Map::empty());
    put(&mut members, "schema", Json::text("fkst.failure_fact.v1"));
    put(&mut members, "error_class", Json::text(error_class.as_str()));
    put(&mut members, "fingerprint", Json::Text(fingerprint(error_class, error)));
    put(&mut members, "error", Json::Text(error_excerpt(error)));
    fact(members, now_ms)
}

/// The lock that is told of where it is not known which one was busy.
pub open spec fn lock_label(lock: Option<Seq<char>>) -> Seq<char> {
    match lock {
        Some(name) => name,
        None => "unknown"@,
    }
}

/// What is told of a run that found a lock busy.
pub open spec fn lock_busy_fact(
    dept: Seq<char>,
    queue: Seq<char>,
    delivery: Option<DeliveryView>,
    lock: Option<Seq<char>>,
    now_ms: u64,
) -> EventView {
    let error = "lock_busy: "@ + lock_label(lock);
    fact_event(
        Map::<Seq<char>, JsonView>::empty().insert(
            "schema"@,
            JsonView::Text("fkst.failure_fact.v1"@),
        ).insert("error_class"@, JsonView::Text(ErrorClass::LockBusy.name())).insert(
            "fingerprint"@,
            JsonView::Text(fingerprint_of(ErrorClass::LockBusy, error)),
        ).insert("error"@, JsonView::Text(short(error))).insert(
            "lock"@,
            match lock {
                Some(name) => JsonView::Text(name),
                None => JsonView::Null,
            },
        ).insert(
            "delivery_id"@,
            match delivery {
                Some(d) => JsonView::Text(d.delivery_id),
                None => JsonView::Null,
            },
        ).insert(
            "attempt"@,
            match delivery {
                Some(d) => JsonView::Unsigned(d.attempt as nat),
                None => JsonView::Null,
            },
        ).insert("origin_queue"@, JsonView::Text(queue)).insert("origin_dept"@, JsonView::Text(dept)),
        now_ms,
    )
}

pub fn lock_busy_failure_fact(
    dept: &str,
    queue: &str,
    record: &Option<DeliveryRecord>,
    lock: &Option<String>,
    now_ms: u64,
) -> (r: Event)
    ensures
        r@ == lock_busy_fact(dept@, queue@, delivery_view(*record), text_view(*lock), now_ms),
{
    let error_class: ErrorClass = ErrorClass::LockBusy;
    let mut error: String = copy_text("lock_busy: ");
    match lock {
        Some(name) => error.append(name.as_str()),
        None => error.append("unknown"),
    }
    let mut members: Vec<Member> = Vec::new();
    assert(members_view(members@) =~= Map::empty());
    put(&mut members, "schema", Json::text("fkst.failure_fact.v1"));
    put(&mut members, "error_class", Json::text(error_class.as_str()));
    put(&mut members, "fingerprint", Json::Text(fingerprint(error_class, error.as_str())));
    put(&mut members, "error", Json::Text(error_excerpt(error.as_str())));
    let named: Json = match lock {
        Some(name) => Json::text(name.as_str()),
        None => Json::Null,
    };
    put(&mut members, "lock", named);
    let id: Json = match record {
        Some(d) => Json::text(d.delivery_id.as_str()),
        None => Json::Null,
    };
    put(&mut members, "delivery_id", id);
    let attempt: Json = match record {
        Some(d) => Json::Unsigned(d.attempt),
        None => Json::Null,
    };
    put(&mut members, "attempt", attempt);
    put(&mut members, "origin_queue", Json::text(queue));
    put(&mut members, "origin_dept", Json::text(dept));
    fact(members, now_ms)
}

// The watch on operations of the store.

pub const STORE_OP_WARN_AFTER_MS: u64 = 250;

/// Whether an operation of the store took too long, and how many milliseconds it took: more than a
/// quarter of a second, in nanoseconds.
pub open spec fn took_too_long(elapsed_nanos: u128) -> Option<u64> {
    if elapsed_nanos > STORE_OP_WARN_AFTER_MS * 1_000_000 {
        Some(
            if elapsed_nanos / 1_000_000 <= u64::MAX {
                (elapsed_nanos / 1_000_000) as u64
            } else {
                u64::MAX
            },
        )
    } else {
        None
    }
}

/// Whether an operation of the store took too long. Times are nanoseconds on one clock; a clock
/// that went back says that no time has passed.
pub fn watchdog_warning(started_nanos: u128, now_nanos: u128) -> (r: Option<u64>)
    ensures
        r == took_too_long(
            if now_nanos >= started_nanos {
                (now_nanos - started_nanos) as u128
            } else {
                0
            },
        ),
{
    let elapsed: u128 = if now_nanos >= started_nanos {
        now_nanos - started_nanos
    } else {
        0
    };
    if elapsed > 250_000_000 {
        let ms: u128 = elapsed / 1_000_000;
        if ms <= u64::MAX as u128 {
            Some(ms as u64)
        } else {
            Some(u64::MAX)
        }
    } else {
        None
    }
}

} // verus!
