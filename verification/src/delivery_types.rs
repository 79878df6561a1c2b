//! Durable delivery records and their JSON form.

use vstd::prelude::*;
use crate::duration::Duration;
use crate::json::{
    copy_optional_json, items_view, json_view, lemma_items_view, lemma_member_present, members_view,
    optional_json_view, optional_text_json, optional_unsigned_json, Json, JsonView, Member,
};
use crate::runtime_key::strs_view;
use crate::text::{copy_optional_text, copy_text, same_text, text_view};

verus! {

#[derive(Clone, Copy, Debug, PartialEq, Eq, Structural)]
pub enum SourceKind {
    File,
    Cron,
    Git,
    External,
}

/// Where an event comes from.
#[derive(Debug)]
pub struct SourceRef {
    pub kind: SourceKind,
    pub reference: String,
}

pub struct SourceView {
    pub kind: SourceKind,
    pub reference: Seq<char>,
}

impl View for SourceRef {
    type V = SourceView;

    open spec fn view(&self) -> SourceView {
        SourceView { kind: self.kind, reference: self.reference@ }
    }
}

pub open spec fn source_view(s: Option<SourceRef>) -> Option<SourceView> {
    match s {
        Some(v) => Some(v@),
        None => None,
    }
}

/// One event on its way to one department.
#[derive(Debug)]
pub struct DeliveryRecord {
    pub delivery_id: String,
    pub queue: String,
    pub dept: String,
    pub payload: Json,
    pub source: Option<SourceRef>,
    pub cron_payload: Option<Json>,
    pub observed_at_ms: u64,
    pub attempt: u64,
    pub redrive_count: u64,
    pub collapse_by_dedup_id: bool,
    /// A stable keyed duplicate arrived while this delivery was leased.
    pub pending_dirty: bool,
    pub subscriber_absent_since_ms: Option<u64>,
    pub lease_generation: u64,
    pub lease_until_ms: Option<u64>,
    pub not_before_ms: u64,
    pub last_error_excerpt: Option<String>,
}

pub struct DeliveryView {
    pub delivery_id: Seq<char>,
    pub queue: Seq<char>,
    pub dept: Seq<char>,
    pub payload: JsonView,
    pub source: Option<SourceView>,
    pub cron_payload: Option<JsonView>,
    pub observed_at_ms: u64,
    pub attempt: u64,
    pub redrive_count: u64,
    pub collapse_by_dedup_id: bool,
    pub pending_dirty: bool,
    pub subscriber_absent_since_ms: Option<u64>,
    pub lease_generation: u64,
    pub lease_until_ms: Option<u64>,
    pub not_before_ms: u64,
    pub last_error_excerpt: Option<Seq<char>>,
}

impl View for DeliveryRecord {
    type V = DeliveryView;

    open spec fn view(&self) -> DeliveryView {
        DeliveryView {
            delivery_id: self.delivery_id@,
            queue: self.queue@,
            dept: self.dept@,
            payload: self.payload@,
            source: source_view(self.source),
            cron_payload: optional_json_view(self.cron_payload),
            observed_at_ms: self.observed_at_ms,
            attempt: self.attempt,
            redrive_count: self.redrive_count,
            collapse_by_dedup_id: self.collapse_by_dedup_id,
            pending_dirty: self.pending_dirty,
            subscriber_absent_since_ms: self.subscriber_absent_since_ms,
            lease_generation: self.lease_generation,
            lease_until_ms: self.lease_until_ms,
            not_before_ms: self.not_before_ms,
            last_error_excerpt: text_view(self.last_error_excerpt),
        }
    }
}

pub open spec fn delivery_view(r: Option<DeliveryRecord>) -> Option<DeliveryView> {
    match r {
        Some(v) => Some(v@),
        None => None,
    }
}

pub open spec fn delivery_views(v: Seq<DeliveryRecord>) -> Seq<DeliveryView> {
    Seq::new(v.len(), |i: int| v[i]@)
}

/// A delivery that has run out of attempts.
#[derive(Debug)]
pub struct DeadRecord {
    pub delivery_id: String,
    pub queue: String,
    pub dept: String,
    pub source: Option<SourceRef>,
    pub observed_at_ms: u64,
    pub not_before_ms: u64,
    pub dead_at_ms: u64,
    pub attempts: u64,
    pub redrive_count: u64,
    pub replayable: bool,
    pub permanent: bool,
    pub error_excerpt: Option<String>,
    pub record: Option<DeliveryRecord>,
}

pub struct DeadView {
    pub delivery_id: Seq<char>,
    pub queue: Seq<char>,
    pub dept: Seq<char>,
    pub source: Option<SourceView>,
    pub observed_at_ms: u64,
    pub not_before_ms: u64,
    pub dead_at_ms: u64,
    pub attempts: u64,
    pub redrive_count: u64,
    pub replayable: bool,
    pub permanent: bool,
    pub error_excerpt: Option<Seq<char>>,
    pub record: Option<DeliveryView>,
}

impl View for DeadRecord {
    type V = DeadView;

    open spec fn view(&self) -> DeadView {
        DeadView {
            delivery_id: self.delivery_id@,
            queue: self.queue@,
            dept: self.dept@,
            source: source_view(self.source),
            observed_at_ms: self.observed_at_ms,
            not_before_ms: self.not_before_ms,
            dead_at_ms: self.dead_at_ms,
            attempts: self.attempts,
            redrive_count: self.redrive_count,
            replayable: self.replayable,
            permanent: self.permanent,
            error_excerpt: text_view(self.error_excerpt),
            record: delivery_view(self.record),
        }
    }
}

pub open spec fn dead_view(r: Option<DeadRecord>) -> Option<DeadView> {
    match r {
        Some(v) => Some(v@),
        None => None,
    }
}

pub open spec fn dead_views(v: Seq<DeadRecord>) -> Seq<DeadView> {
    Seq::new(v.len(), |i: int| v[i]@)
}

/// How often and how late a failed delivery is tried again.
#[derive(Clone, Copy, Debug, PartialEq, Eq)]
pub struct RetryPolicy {
    pub max_attempts: u64,
    pub base: Duration,
    pub cap: Duration,
}

/// How often a dead delivery is sent again, and how long it rests before.
#[derive(Clone, Copy, Debug, PartialEq, Eq)]
pub struct RedrivePolicy {
    pub max_redrives: u64,
    pub cooldown: Duration,
}

// Copies.

impl SourceRef {
    pub fn copy(&self) -> (r: SourceRef)
        ensures
            r@ == self@,
    {
        SourceRef { kind: self.kind, reference: copy_text(self.reference.as_str()) }
    }
}

pub fn copy_source(s: &Option<SourceRef>) -> (r: Option<SourceRef>)
    ensures
        source_view(r) == source_view(*s),
{
    match s {
        Some(v) => Some(v.copy()),
        None => None,
    }
}

/// Whether two optional sources are both absent or the same.
pub fn same_source(a: &Option<SourceRef>, b: &Option<SourceRef>) -> (r: bool)
    ensures
        r == (source_view(*a) == source_view(*b)),
{
    match (a, b) {
        (None, None) => true,
        (Some(x), Some(y)) => x.kind == y.kind && same_text(
            x.reference.as_str(),
            y.reference.as_str(),
        ),
        _ => false,
    }
}

impl DeliveryRecord {
    pub fn copy(&self) -> (r: DeliveryRecord)
        ensures
            r@ == self@,
    {
        DeliveryRecord {
            delivery_id: copy_text(self.delivery_id.as_str()),
            queue: copy_text(self.queue.as_str()),
            dept: copy_text(self.dept.as_str()),
            payload: self.payload.copy(),
            source: copy_source(&self.source),
            cron_payload: copy_optional_json(&self.cron_payload),
            observed_at_ms: self.observed_at_ms,
            attempt: self.attempt,
            redrive_count: self.redrive_count,
            collapse_by_dedup_id: self.collapse_by_dedup_id,
            pending_dirty: self.pending_dirty,
            subscriber_absent_since_ms: self.subscriber_absent_since_ms,
            lease_generation: self.lease_generation,
            lease_until_ms: self.lease_until_ms,
            not_before_ms: self.not_before_ms,
            last_error_excerpt: copy_optional_text(&self.last_error_excerpt),
        }
    }
}

pub fn copy_delivery(r: &Option<DeliveryRecord>) -> (c: Option<DeliveryRecord>)
    ensures
        delivery_view(c) == delivery_view(*r),
{
    match r {
        Some(v) => Some(v.copy()),
        None => None,
    }
}

// JSON form.

pub open spec fn kind_text(k: SourceKind) -> Seq<char> {
    match k {
        SourceKind::File => "File"@,
        SourceKind::Cron => "Cron"@,
        SourceKind::Git => "Git"@,
        SourceKind::External => "External"@,
    }
}

pub open spec fn kind_of_text(s: Seq<char>) -> Option<SourceKind> {
    if s == "File"@ {
        Some(SourceKind::File)
    } else if s == "Cron"@ {
        Some(SourceKind::Cron)
    } else if s == "Git"@ {
        Some(SourceKind::Git)
    } else if s == "External"@ {
        Some(SourceKind::External)
    } else {
        None
    }
}

pub open spec fn source_json(s: SourceView) -> JsonView {
    JsonView::Object(
        Map::empty().insert("kind"@, JsonView::Text(kind_text(s.kind))).insert(
            "reference"@,
            JsonView::Text(s.reference),
        ),
    )
}

/// The values of a list under the names of fields, in order.
pub open spec fn named_members(fields: Seq<Seq<char>>, items: Seq<JsonView>) -> Map<
    Seq<char>,
    JsonView,
>
    decreases items.len(),
{
    if items.len() == 0 {
        Map::empty()
    } else {
        named_members(fields, items.drop_last()).insert(fields[items.len() - 1], items.last())
    }
}

/// A record as an object. One that is written as a list of its fields, of the last of which some may
/// be left out, has them by their names; a list of another length is no record.
pub open spec fn by_name(j: JsonView, fields: Seq<Seq<char>>, least: nat) -> JsonView {
    match j {
        JsonView::Array(items) => if least <= items.len() <= fields.len() {
            JsonView::Object(named_members(fields, items))
        } else {
            JsonView::Null
        },
        _ => j,
    }
}

fn name_fields(j: &Json, fields: &Vec<&str>, least: usize) -> (r: Json)
    ensures
        r@ == by_name(j@, strs_view(fields@), least as nat),
{
    let items: &Vec<Json> = match j {
        Json::Array(items) => items,
        _ => return j.copy(),
    };
    let ghost views = items_view(items@);
    proof {
        lemma_items_view(items@);
    }
    if items.len() < least || items.len() > fields.len() {
        return Json::Null;
    }
    let mut members: Vec<Member> = Vec::new();
    let mut i: usize = 0;
    assert(members_view(members@) =~= Map::empty());
    while i < items.len()
        invariant
            views == items_view(items@),
            views.len() == items@.len(),
            forall|k: int| 0 <= k < items@.len() ==> #[trigger] views[k] == json_view(items@[k]),
            items@.len() <= fields@.len(),
            i <= items@.len(),
            members_view(members@) == named_members(strs_view(fields@), views.take(i as int)),
        decreases items@.len() - i,
    {
        proof {
            assert(views.take(i + 1).drop_last() =~= views.take(i as int));
            assert(views.take(i + 1).last() == views[i as int]);
        }
        put(&mut members, fields[i], items[i].copy());
        i = i + 1;
    }
    assert(views.take(views.len() as int) =~= views);
    Json::Object(members)
}

pub open spec fn source_fields() -> Seq<Seq<char>> {
    seq!["kind"@, "reference"@]
}

/// An object with nothing but a name in it.
pub open spec fn name_alone(name: Seq<char>) -> Map<Seq<char>, JsonView> {
    Map::<Seq<char>, JsonView>::empty().insert(name, JsonView::Null)
}

/// A kind of source: its name, alone or as the one member of an object.
pub open spec fn kind_of_json(j: JsonView) -> Option<SourceKind> {
    match j {
        JsonView::Text(s) => kind_of_text(s),
        JsonView::Object(m) => if m == name_alone("File"@) {
            Some(SourceKind::File)
        } else if m == name_alone("Cron"@) {
            Some(SourceKind::Cron)
        } else if m == name_alone("Git"@) {
            Some(SourceKind::Git)
        } else if m == name_alone("External"@) {
            Some(SourceKind::External)
        } else {
            None
        },
        _ => None,
    }
}

pub open spec fn source_of_json(j: JsonView) -> Option<SourceView> {
    source_of_members(by_name(j, source_fields(), 2))
}

pub open spec fn source_of_members(j: JsonView) -> Option<SourceView> {
    match (j.get("kind"@), j.text_at("reference"@)) {
        (Some(kind), Some(reference)) => match kind_of_json(kind) {
            Some(k) => Some(SourceView { kind: k, reference }),
            None => None,
        },
        _ => None,
    }
}

pub open spec fn optional_source_json(s: Option<SourceView>) -> JsonView {
    match s {
        Some(v) => source_json(v),
        None => JsonView::Null,
    }
}

pub open spec fn optional_json(j: Option<JsonView>) -> JsonView {
    match j {
        Some(v) => v,
        None => JsonView::Null,
    }
}

/// A member that may be missing or null.
pub open spec fn optional_member(j: JsonView, key: Seq<char>) -> Option<JsonView> {
    match j.get(key) {
        Some(JsonView::Null) => None,
        other => other,
    }
}

pub open spec fn unsigned_at(j: JsonView, key: Seq<char>) -> Option<u64> {
    match j.get(key) {
        Some(JsonView::Unsigned(n)) => Some(n as u64),
        _ => None,
    }
}

/// A number, or zero where the member is missing.
pub open spec fn unsigned_or_zero_at(j: JsonView, key: Seq<char>) -> Option<u64> {
    match j.get(key) {
        None => Some(0),
        Some(JsonView::Unsigned(n)) => Some(n as u64),
        _ => None,
    }
}

/// A truth value, or `default` where the member is missing.
pub open spec fn bool_or_at(j: JsonView, key: Seq<char>, default: bool) -> Option<bool> {
    match j.get(key) {
        None => Some(default),
        Some(JsonView::Bool(b)) => Some(b),
        _ => None,
    }
}

/// A number, a null or nothing; the outer `None` is anything else.
pub open spec fn optional_unsigned_at(j: JsonView, key: Seq<char>) -> Option<Option<u64>> {
    match optional_member(j, key) {
        None => Some(None),
        Some(JsonView::Unsigned(n)) => Some(Some(n as u64)),
        _ => None,
    }
}

pub open spec fn optional_text_at(j: JsonView, key: Seq<char>) -> Option<Option<Seq<char>>> {
    match optional_member(j, key) {
        None => Some(None),
        Some(JsonView::Text(s)) => Some(Some(s)),
        _ => None,
    }
}

pub open spec fn optional_source_at(j: JsonView, key: Seq<char>) -> Option<Option<SourceView>> {
    match optional_member(j, key) {
        None => Some(None),
        Some(v) => match source_of_json(v) {
            Some(s) => Some(Some(s)),
            None => None,
        },
    }
}

/// The members of a delivery record.
pub open spec fn delivery_members(d: DeliveryView) -> Map<Seq<char>, JsonView> {
    Map::empty().insert("delivery_id"@, JsonView::Text(d.delivery_id)).insert(
        "queue"@,
        JsonView::Text(d.queue),
    ).insert("dept"@, JsonView::Text(d.dept)).insert("payload"@, d.payload).insert(
        "source"@,
        optional_source_json(d.source),
    ).insert("cron_payload"@, optional_json(d.cron_payload)).insert(
        "observed_at_ms"@,
        JsonView::Unsigned(d.observed_at_ms as nat),
    ).insert("attempt"@, JsonView::Unsigned(d.attempt as nat)).insert(
        "redrive_count"@,
        JsonView::Unsigned(d.redrive_count as nat),
    ).insert("collapse_by_dedup_id"@, JsonView::Bool(d.collapse_by_dedup_id)).insert(
        "pending_dirty"@,
        JsonView::Bool(d.pending_dirty),
    ).insert(
        "subscriber_absent_since_ms"@,
        optional_unsigned_json(d.subscriber_absent_since_ms),
    ).insert("lease_generation"@, JsonView::Unsigned(d.lease_generation as nat)).insert(
        "lease_until_ms"@,
        optional_unsigned_json(d.lease_until_ms),
    ).insert("not_before_ms"@, JsonView::Unsigned(d.not_before_ms as nat)).insert(
        "last_error_excerpt"@,
        optional_text_json(d.last_error_excerpt),
    )
}

pub open spec fn delivery_json(d: DeliveryView) -> JsonView {
    JsonView::Object(delivery_members(d))
}

pub open spec fn delivery_fields() -> Seq<Seq<char>> {
    seq![
        "delivery_id"@,
        "queue"@,
        "dept"@,
        "payload"@,
        "source"@,
        "cron_payload"@,
        "observed_at_ms"@,
        "attempt"@,
        "redrive_count"@,
        "collapse_by_dedup_id"@,
        "pending_dirty"@,
        "subscriber_absent_since_ms"@,
        "lease_generation"@,
        "lease_until_ms"@,
        "not_before_ms"@,
        "last_error_excerpt"@,
    ]
}

/// The delivery record that a JSON value denotes: an object, or a list of all fields.
pub open spec fn delivery_of_json(j: JsonView) -> Option<DeliveryView> {
    delivery_of_members(by_name(j, delivery_fields(), 16))
}

/// The delivery record that the members of an object denote. What may be missing is what later
/// versions added, and what may be null.
pub open spec fn delivery_of_members(j: JsonView) -> Option<DeliveryView> {
    if j.text_at("delivery_id"@) is Some && j.text_at("queue"@) is Some && j.text_at("dept"@) is Some
        && j.get("payload"@) is Some && optional_source_at(j, "source"@) is Some && unsigned_at(
        j,
        "observed_at_ms"@,
    ) is Some && unsigned_at(j, "attempt"@) is Some && unsigned_or_zero_at(j, "redrive_count"@) is Some
        && bool_or_at(j, "collapse_by_dedup_id"@, false) is Some && bool_or_at(
        j,
        "pending_dirty"@,
        false,
    ) is Some && optional_unsigned_at(j, "subscriber_absent_since_ms"@) is Some && unsigned_at(
        j,
        "lease_generation"@,
    ) is Some && optional_unsigned_at(j, "lease_until_ms"@) is Some && unsigned_at(
        j,
        "not_before_ms"@,
    ) is Some && optional_text_at(j, "last_error_excerpt"@) is Some {
        Some(
            DeliveryView {
                delivery_id: j.text_at("delivery_id"@)->0,
                queue: j.text_at("queue"@)->0,
                dept: j.text_at("dept"@)->0,
                payload: j.get("payload"@)->0,
                source: optional_source_at(j, "source"@)->0,
                cron_payload: optional_member(j, "cron_payload"@),
                observed_at_ms: unsigned_at(j, "observed_at_ms"@)->0,
                attempt: unsigned_at(j, "attempt"@)->0,
                redrive_count: unsigned_or_zero_at(j, "redrive_count"@)->0,
                collapse_by_dedup_id: bool_or_at(j, "collapse_by_dedup_id"@, false)->0,
                pending_dirty: bool_or_at(j, "pending_dirty"@, false)->0,
                subscriber_absent_since_ms: optional_unsigned_at(
                    j,
                    "subscriber_absent_since_ms"@,
                )->0,
                lease_generation: unsigned_at(j, "lease_generation"@)->0,
                lease_until_ms: optional_unsigned_at(j, "lease_until_ms"@)->0,
                not_before_ms: unsigned_at(j, "not_before_ms"@)->0,
                last_error_excerpt: optional_text_at(j, "last_error_excerpt"@)->0,
            },
        )
    } else {
        None
    }
}

pub open spec fn optional_delivery_json(d: Option<DeliveryView>) -> JsonView {
    match d {
        Some(v) => delivery_json(v),
        None => JsonView::Null,
    }
}

pub open spec fn optional_delivery_at(j: JsonView, key: Seq<char>) -> Option<Option<DeliveryView>> {
    match optional_member(j, key) {
        None => Some(None),
        Some(v) => match delivery_of_json(v) {
            Some(d) => Some(Some(d)),
            None => None,
        },
    }
}

/// The members of a dead record.
pub open spec fn dead_members(d: DeadView) -> Map<Seq<char>, JsonView> {
    Map::empty().insert("delivery_id"@, JsonView::Text(d.delivery_id)).insert(
        "queue"@,
        JsonView::Text(d.queue),
    ).insert("dept"@, JsonView::Text(d.dept)).insert(
        "source"@,
        optional_source_json(d.source),
    ).insert("observed_at_ms"@, JsonView::Unsigned(d.observed_at_ms as nat)).insert(
        "not_before_ms"@,
        JsonView::Unsigned(d.not_before_ms as nat),
    ).insert("dead_at_ms"@, JsonView::Unsigned(d.dead_at_ms as nat)).insert(
        "attempts"@,
        JsonView::Unsigned(d.attempts as nat),
    ).insert("redrive_count"@, JsonView::Unsigned(d.redrive_count as nat)).insert(
        "replayable"@,
        JsonView::Bool(d.replayable),
    ).insert("permanent"@, JsonView::Bool(d.permanent)).insert(
        "error_excerpt"@,
        optional_text_json(d.error_excerpt),
    ).insert("record"@, optional_delivery_json(d.record))
}

pub open spec fn dead_json(d: DeadView) -> JsonView {
    JsonView::Object(dead_members(d))
}

pub open spec fn dead_fields() -> Seq<Seq<char>> {
    seq![
        "delivery_id"@,
        "queue"@,
        "dept"@,
        "source"@,
        "observed_at_ms"@,
        "not_before_ms"@,
        "dead_at_ms"@,
        "attempts"@,
        "redrive_count"@,
        "replayable"@,
        "permanent"@,
        "error_excerpt"@,
        "record"@,
    ]
}

/// The dead record that a JSON value denotes: an object, or a list of all fields, of which the last
/// may be left out.
pub open spec fn dead_of_json(j: JsonView) -> Option<DeadView> {
    dead_of_members(by_name(j, dead_fields(), 12))
}

/// The dead record that the members of an object denote. One that does not say whether it is
/// permanent is permanent.
pub open spec fn dead_of_members(j: JsonView) -> Option<DeadView> {
    if j.text_at("delivery_id"@) is Some && j.text_at("queue"@) is Some && j.text_at("dept"@) is Some
        && optional_source_at(j, "source"@) is Some && unsigned_at(j, "observed_at_ms"@) is Some
        && unsigned_at(j, "not_before_ms"@) is Some && unsigned_at(j, "dead_at_ms"@) is Some
        && unsigned_at(j, "attempts"@) is Some && unsigned_or_zero_at(j, "redrive_count"@) is Some
        && bool_or_at(j, "replayable"@, false) is Some && bool_or_at(j, "permanent"@, true) is Some
        && optional_text_at(j, "error_excerpt"@) is Some && optional_delivery_at(j, "record"@) is Some {
        Some(
            DeadView {
                delivery_id: j.text_at("delivery_id"@)->0,
                queue: j.text_at("queue"@)->0,
                dept: j.text_at("dept"@)->0,
                source: optional_source_at(j, "source"@)->0,
                observed_at_ms: unsigned_at(j, "observed_at_ms"@)->0,
                not_before_ms: unsigned_at(j, "not_before_ms"@)->0,
                dead_at_ms: unsigned_at(j, "dead_at_ms"@)->0,
                attempts: unsigned_at(j, "attempts"@)->0,
                redrive_count: unsigned_or_zero_at(j, "redrive_count"@)->0,
                replayable: bool_or_at(j, "replayable"@, false)->0,
                permanent: bool_or_at(j, "permanent"@, true)->0,
                error_excerpt: optional_text_at(j, "error_excerpt"@)->0,
                record: optional_delivery_at(j, "record"@)->0,
            },
        )
    } else {
        None
    }
}

// The names of the fields.

pub fn source_names() -> (r: Vec<&'static str>)
    ensures
        strs_view(r@) == source_fields(),
{
    let fields: Vec<&'static str> = vec!["kind", "reference"];
    assert(strs_view(fields@) =~= source_fields());
    fields
}

pub fn delivery_names() -> (r: Vec<&'static str>)
    ensures
        strs_view(r@) == delivery_fields(),
{
    let fields: Vec<&'static str> = vec![
        "delivery_id",
        "queue",
        "dept",
        "payload",
        "source",
        "cron_payload",
        "observed_at_ms",
        "attempt",
        "redrive_count",
        "collapse_by_dedup_id",
        "pending_dirty",
        "subscriber_absent_since_ms",
        "lease_generation",
        "lease_until_ms",
        "not_before_ms",
        "last_error_excerpt",
    ];
    assert(strs_view(fields@) =~= delivery_fields());
    fields
}

pub fn dead_names() -> (r: Vec<&'static str>)
    ensures
        strs_view(r@) == dead_fields(),
{
    let fields: Vec<&'static str> = vec![
        "delivery_id",
        "queue",
        "dept",
        "source",
        "observed_at_ms",
        "not_before_ms",
        "dead_at_ms",
        "attempts",
        "redrive_count",
        "replayable",
        "permanent",
        "error_excerpt",
        "record",
    ];
    assert(strs_view(fields@) =~= dead_fields());
    fields
}

/// Puts a member behind the others.
pub fn put(members: &mut Vec<Member>, key: &str, value: Json)
    ensures
        members_view(final(members)@) == members_view(old(members)@).insert(key@, value@),
{
    let ghost before = members@;
    members.push(Member { key: copy_text(key), value });
    assert(members@.drop_last() =~= before);
}

fn kind_name(k: SourceKind) -> (r: &'static str)
    ensures
        r@ == kind_text(k),
{
    match k {
        SourceKind::File => "File",
        SourceKind::Cron => "Cron",
        SourceKind::Git => "Git",
        SourceKind::External => "External",
    }
}

fn kind_from_name(s: &str) -> (r: Option<SourceKind>)
    ensures
        r == kind_of_text(s@),
{
    if same_text(s, "File") {
        Some(SourceKind::File)
    } else if same_text(s, "Cron") {
        Some(SourceKind::Cron)
    } else if same_text(s, "Git") {
        Some(SourceKind::Git)
    } else if same_text(s, "External") {
        Some(SourceKind::External)
    } else {
        None
    }
}

fn source_to_json(s: &Option<SourceRef>) -> (r: Json)
    ensures
        r@ == optional_source_json(source_view(*s)),
{
    match s {
        Some(v) => {
            let mut members: Vec<Member> = Vec::new();
            put(&mut members, "kind", Json::text(kind_name(v.kind)));
            put(&mut members, "reference", Json::text(v.reference.as_str()));
            Json::Object(members)
        },
        None => Json::Null,
    }
}

proof fn lemma_one_name(members: Seq<Member>, name: Seq<char>)
    requires
        members.len() > 0,
        forall|i: int| 0 <= i < members.len() ==> (#[trigger] members[i]).key@ == name,
    ensures
        members_view(members) == Map::<Seq<char>, JsonView>::empty().insert(
            name,
            json_view(members.last().value),
        ),
    decreases members.len(),
{
    let front = members.drop_last();
    assert(members.last().key@ == name);
    if front.len() > 0 {
        assert forall|i: int| 0 <= i < front.len() implies (#[trigger] front[i]).key@ == name by {
            assert(members[i].key@ == name);
        }
        lemma_one_name(front, name);
    }
    assert(members_view(members) =~= Map::<Seq<char>, JsonView>::empty().insert(
        name,
        json_view(members.last().value),
    ));
}

fn is_name_alone(members: &Vec<Member>, name: &str) -> (r: bool)
    ensures
        r == (members_view(members@) == name_alone(name@)),
{
    if members.len() == 0 {
        proof {
            assert(name_alone(name@).contains_key(name@));
            assert(!members_view(members@).contains_key(name@));
        }
        return false;
    }
    let mut i: usize = 0;
    while i < members.len()
        invariant
            i <= members@.len(),
            forall|k: int| 0 <= k < i ==> (#[trigger] members@[k]).key@ == name@,
        decreases members@.len() - i,
    {
        if !same_text(members[i].key.as_str(), name) {
            proof {
                lemma_member_present(members@, i as int);
                assert(members_view(members@).contains_key(members@[i as int].key@));
                assert(!name_alone(name@).contains_key(members@[i as int].key@));
            }
            return false;
        }
        i = i + 1;
    }
    proof {
        lemma_one_name(members@, name@);
    }
    let last: &Json = &members[members.len() - 1].value;
    proof {
        if last@ != JsonView::Null {
            assert(members_view(members@)[name@] == last@);
            assert(name_alone(name@)[name@] == JsonView::Null);
        }
    }
    match last {
        Json::Null => true,
        _ => false,
    }
}

fn kind_from_json(j: &Json) -> (r: Option<SourceKind>)
    ensures
        r == kind_of_json(j@),
{
    match j {
        Json::Text(s) => kind_from_name(s.as_str()),
        Json::Object(members) => if is_name_alone(members, "File") {
            Some(SourceKind::File)
        } else if is_name_alone(members, "Cron") {
            Some(SourceKind::Cron)
        } else if is_name_alone(members, "Git") {
            Some(SourceKind::Git)
        } else if is_name_alone(members, "External") {
            Some(SourceKind::External)
        } else {
            None
        },
        _ => None,
    }
}

fn source_from_json(j: &Json) -> (r: Option<SourceRef>)
    ensures
        source_view(r) == source_of_json(j@),
{
    let j: Json = name_fields(j, &source_names(), 2);
    match (j.get("kind"), j.text_at("reference")) {
        (Some(kind), Some(reference)) => match kind_from_json(kind) {
            Some(k) => Some(SourceRef { kind: k, reference }),
            None => None,
        },
        _ => None,
    }
}

fn optional_json_value(j: &Option<Json>) -> (r: Json)
    ensures
        r@ == optional_json(optional_json_view(*j)),
{
    match j {
        Some(v) => v.copy(),
        None => Json::Null,
    }
}

fn get_optional<'a>(j: &'a Json, key: &str) -> (r: Option<&'a Json>)
    ensures
        (match r {
            Some(v) => Some(v@),
            None => None,
        }) == optional_member(j@, key@),
{
    match j.get(key) {
        Some(Json::Null) => None,
        other => other,
    }
}

fn get_unsigned(j: &Json, key: &str) -> (r: Option<u64>)
    ensures
        r == unsigned_at(j@, key@),
{
    match j.get(key) {
        Some(Json::Unsigned(n)) => Some(*n),
        _ => None,
    }
}

fn get_unsigned_or_zero(j: &Json, key: &str) -> (r: Option<u64>)
    ensures
        r == unsigned_or_zero_at(j@, key@),
{
    match j.get(key) {
        None => Some(0),
        Some(Json::Unsigned(n)) => Some(*n),
        _ => None,
    }
}

fn get_bool_or(j: &Json, key: &str, default: bool) -> (r: Option<bool>)
    ensures
        r == bool_or_at(j@, key@, default),
{
    match j.get(key) {
        None => Some(default),
        Some(Json::Bool(b)) => Some(*b),
        _ => None,
    }
}

fn get_optional_unsigned(j: &Json, key: &str) -> (r: Option<Option<u64>>)
    ensures
        r == optional_unsigned_at(j@, key@),
{
    match get_optional(j, key) {
        None => Some(None),
        Some(Json::Unsigned(n)) => Some(Some(*n)),
        _ => None,
    }
}

fn get_optional_text(j: &Json, key: &str) -> (r: Option<Option<String>>)
    ensures
        (match r {
            Some(s) => Some(text_view(s)),
            None => None,
        }) == optional_text_at(j@, key@),
{
    match get_optional(j, key) {
        None => Some(None),
        Some(Json::Text(s)) => Some(Some(copy_text(s.as_str()))),
        _ => None,
    }
}

fn get_optional_source(j: &Json, key: &str) -> (r: Option<Option<SourceRef>>)
    ensures
        (match r {
            Some(s) => Some(source_view(s)),
            None => None,
        }) == optional_source_at(j@, key@),
{
    match get_optional(j, key) {
        None => Some(None),
        Some(v) => match source_from_json(v) {
            Some(s) => Some(Some(s)),
            None => None,
        },
    }
}

/// The JSON form of a delivery record.
pub fn delivery_to_json(d: &DeliveryRecord) -> (r: Json)
    ensures
        r@ == delivery_json(d@),
{
    let mut members: Vec<Member> = Vec::new();
    put(&mut members, "delivery_id", Json::text(d.delivery_id.as_str()));
    put(&mut members, "queue", Json::text(d.queue.as_str()));
    put(&mut members, "dept", Json::text(d.dept.as_str()));
    put(&mut members, "payload", d.payload.copy());
    put(&mut members, "source", source_to_json(&d.source));
    put(&mut members, "cron_payload", optional_json_value(&d.cron_payload));
    put(&mut members, "observed_at_ms", Json::Unsigned(d.observed_at_ms));
    put(&mut members, "attempt", Json::Unsigned(d.attempt));
    put(&mut members, "redrive_count", Json::Unsigned(d.redrive_count));
    put(&mut members, "collapse_by_dedup_id", Json::Bool(d.collapse_by_dedup_id));
    put(&mut members, "pending_dirty", Json::Bool(d.pending_dirty));
    put(
        &mut members,
        "subscriber_absent_since_ms",
        Json::optional_unsigned(d.subscriber_absent_since_ms),
    );
    put(&mut members, "lease_generation", Json::Unsigned(d.lease_generation));
    put(&mut members, "lease_until_ms", Json::optional_unsigned(d.lease_until_ms));
    put(&mut members, "not_before_ms", Json::Unsigned(d.not_before_ms));
    put(&mut members, "last_error_excerpt", Json::optional_text(&d.last_error_excerpt));
    Json::Object(members)
}

/// The delivery record that a JSON value denotes.
pub fn delivery_from_json(j: &Json) -> (r: Option<DeliveryRecord>)
    ensures
        delivery_view(r) == delivery_of_json(j@),
{
    delivery_from_members(&name_fields(j, &delivery_names(), 16))
}

fn delivery_from_members(j: &Json) -> (r: Option<DeliveryRecord>)
    ensures
        delivery_view(r) == delivery_of_members(j@),
{
    let cron_payload: Option<Json> = match get_optional(j, "cron_payload") {
        Some(v) => Some(v.copy()),
        None => None,
    };
    match (
        j.text_at("delivery_id"),
        j.text_at("queue"),
        j.text_at("dept"),
        j.get("payload"),
        get_optional_source(j, "source"),
        get_unsigned(j, "observed_at_ms"),
        get_unsigned(j, "attempt"),
        get_unsigned_or_zero(j, "redrive_count"),
    ) {
        (
            Some(delivery_id),
            Some(queue),
            Some(dept),
            Some(payload),
            Some(source),
            Some(observed_at_ms),
            Some(attempt),
            Some(redrive_count),
        ) => match (
            get_bool_or(j, "collapse_by_dedup_id", false),
            get_bool_or(j, "pending_dirty", false),
            get_optional_unsigned(j, "subscriber_absent_since_ms"),
            get_unsigned(j, "lease_generation"),
            get_optional_unsigned(j, "lease_until_ms"),
            get_unsigned(j, "not_before_ms"),
            get_optional_text(j, "last_error_excerpt"),
        ) {
            (
                Some(collapse_by_dedup_id),
                Some(pending_dirty),
                Some(subscriber_absent_since_ms),
                Some(lease_generation),
                Some(lease_until_ms),
                Some(not_before_ms),
                Some(last_error_excerpt),
            ) => Some(
                DeliveryRecord {
                    delivery_id,
                    queue,
                    dept,
                    payload: payload.copy(),
                    source,
                    cron_payload,
                    observed_at_ms,
                    attempt,
                    redrive_count,
                    collapse_by_dedup_id,
                    pending_dirty,
                    subscriber_absent_since_ms,
                    lease_generation,
                    lease_until_ms,
                    not_before_ms,
                    last_error_excerpt,
                },
            ),
            _ => None,
        },
        _ => None,
    }
}

fn optional_delivery_value(d: &Option<DeliveryRecord>) -> (r: Json)
    ensures
        r@ == optional_delivery_json(delivery_view(*d)),
{
    match d {
        Some(v) => delivery_to_json(v),
        None => Json::Null,
    }
}

fn get_optional_delivery(j: &Json, key: &str) -> (r: Option<Option<DeliveryRecord>>)
    ensures
        (match r {
            Some(d) => Some(delivery_view(d)),
            None => None,
        }) == optional_delivery_at(j@, key@),
{
    match get_optional(j, key) {
        None => Some(None),
        Some(v) => match delivery_from_json(v) {
            Some(d) => Some(Some(d)),
            None => None,
        },
    }
}

/// The JSON form of a dead record.
pub fn dead_to_json(d: &DeadRecord) -> (r: Json)
    ensures
        r@ == dead_json(d@),
{
    let mut members: Vec<Member> = Vec::new();
    put(&mut members, "delivery_id", Json::text(d.delivery_id.as_str()));
    put(&mut members, "queue", Json::text(d.queue.as_str()));
    put(&mut members, "dept", Json::text(d.dept.as_str()));
    put(&mut members, "source", source_to_json(&d.source));
    put(&mut members, "observed_at_ms", Json::Unsigned(d.observed_at_ms));
    put(&mut members, "not_before_ms", Json::Unsigned(d.not_before_ms));
    put(&mut members, "dead_at_ms", Json::Unsigned(d.dead_at_ms));
    put(&mut members, "attempts", Json::Unsigned(d.attempts));
    put(&mut members, "redrive_count", Json::Unsigned(d.redrive_count));
    put(&mut members, "replayable", Json::Bool(d.replayable));
    put(&mut members, "permanent", Json::Bool(d.permanent));
    put(&mut members, "error_excerpt", Json::optional_text(&d.error_excerpt));
    put(&mut members, "record", optional_delivery_value(&d.record));
    Json::Object(members)
}

/// The dead record that a JSON value denotes.
pub fn dead_from_json(j: &Json) -> (r: Option<DeadRecord>)
    ensures
        dead_view(r) == dead_of_json(j@),
{
    dead_from_members(&name_fields(j, &dead_names(), 12))
}

fn dead_from_members(j: &Json) -> (r: Option<DeadRecord>)
    ensures
        dead_view(r) == dead_of_members(j@),
{
    match (
        j.text_at("delivery_id"),
        j.text_at("queue"),
        j.text_at("dept"),
        get_optional_source(j, "source"),
        get_unsigned(j, "observed_at_ms"),
        get_unsigned(j, "not_before_ms"),
        get_unsigned(j, "dead_at_ms"),
    ) {
        (
            Some(delivery_id),
            Some(queue),
            Some(dept),
            Some(source),
            Some(observed_at_ms),
            Some(not_before_ms),
            Some(dead_at_ms),
        ) => match (
            get_unsigned(j, "attempts"),
            get_unsigned_or_zero(j, "redrive_count"),
            get_bool_or(j, "replayable", false),
            get_bool_or(j, "permanent", true),
            get_optional_text(j, "error_excerpt"),
            get_optional_delivery(j, "record"),
        ) {
            (
                Some(attempts),
                Some(redrive_count),
                Some(replayable),
                Some(permanent),
                Some(error_excerpt),
                Some(record),
            ) => Some(
                DeadRecord {
                    delivery_id,
                    queue,
                    dept,
                    source,
                    observed_at_ms,
                    not_before_ms,
                    dead_at_ms,
                    attempts,
                    redrive_count,
                    replayable,
                    permanent,
                    error_excerpt,
                    record,
                },
            ),
            _ => None,
        },
        _ => None,
    }
}

} // verus!
