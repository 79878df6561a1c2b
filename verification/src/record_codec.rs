//! The stored text of delivery records.

use vstd::prelude::*;
use crate::delivery_types::{
    dead_fields, dead_from_json, dead_json, dead_members, dead_of_json, dead_to_json, dead_view,
    delivery_fields, delivery_from_json, delivery_json, delivery_members, delivery_of_json,
    delivery_to_json, delivery_view, kind_of_text, kind_text, optional_delivery_json, optional_json,
    optional_source_json, source_json, source_fields, source_of_json, DeadRecord, DeadView,
    DeliveryRecord, DeliveryView, SourceKind, SourceView,
};
use crate::json::{
    alike, json_bytes, json_parse, made_value, nested_within, optional_json_view,
    optional_text_json, optional_unsigned_json, parse_json, plain, print_json, readable, Json,
    JsonView,
};
use crate::record_text::{
    fits, lemma_read_as_a_whole, member_fits, read_part, readable_part, Shape,
};

verus! {

/// What the part of a text that is read as a record denotes.
pub open spec fn parsed_part(bytes: Seq<u8>, shape: Shape) -> Option<JsonView> {
    match read_part(bytes, shape) {
        Some(part) => json_parse(part),
        None => None,
    }
}

/// The text under which a delivery is stored.
pub open spec fn delivery_bytes(d: DeliveryView) -> Seq<u8> {
    json_bytes(delivery_json(d))
}

/// The delivery that a stored text denotes.
pub open spec fn decode_delivery(bytes: Seq<u8>) -> Option<DeliveryView> {
    match parsed_part(bytes, Shape::Delivery) {
        Some(j) => delivery_of_json(j),
        None => None,
    }
}

/// The text under which a dead delivery is stored.
pub open spec fn dead_bytes(d: DeadView) -> Seq<u8> {
    json_bytes(dead_json(d))
}

/// The dead delivery that a stored text denotes.
pub open spec fn decode_dead(bytes: Seq<u8>) -> Option<DeadView> {
    match parsed_part(bytes, Shape::Dead) {
        Some(j) => dead_of_json(j),
        None => None,
    }
}

/// A payload that comes back from a stored record as it was.
pub open spec fn storable_json(j: JsonView) -> bool {
    plain(j) && nested_within(j, 125)
}

/// A delivery that comes back from its stored text as it was. A JSON null as the cron payload does
/// not: it is read as none.
pub open spec fn storable(d: DeliveryView) -> bool {
    &&& storable_json(d.payload)
    &&& d.cron_payload matches Some(j) ==> storable_json(j) && j != JsonView::Null
}

pub open spec fn storable_dead(d: DeadView) -> bool {
    d.record matches Some(r) ==> storable(r)
}

/// Whether a delivery is another but for fractions in the payloads; a cron payload that is null is
/// read as none.
pub open spec fn kept(e: DeliveryView, d: DeliveryView) -> bool {
    &&& e == DeliveryView { payload: e.payload, cron_payload: e.cron_payload, ..d }
    &&& alike(d.payload, e.payload)
    &&& alike(optional_json(d.cron_payload), optional_json(e.cron_payload))
}

/// Whether a dead delivery is another but for fractions in the payloads of its record.
pub open spec fn dead_kept(e: DeadView, d: DeadView) -> bool {
    &&& e == DeadView { record: e.record, ..d }
    &&& match (e.record, d.record) {
        (Some(x), Some(y)) => kept(x, y),
        (None, None) => true,
        _ => false,
    }
}

/// Whether what is found is a delivery that was written: as it was if it is storable, and never with
/// anything else changed than fractions in the payloads.
pub open spec fn is_written(found: Option<DeliveryView>, d: DeliveryView) -> bool {
    &&& storable(d) ==> found == Some(d)
    &&& found matches Some(e) ==> kept(e, d)
}

pub open spec fn is_dead_written(found: Option<DeadView>, d: DeadView) -> bool {
    &&& storable_dead(d) ==> found == Some(d)
    &&& found matches Some(e) ==> dead_kept(e, d)
}

/// A delivery whose stored text gives it back.
pub open spec fn reads_back(d: DeliveryView) -> bool {
    is_written(decode_delivery(delivery_bytes(d)), d)
}

pub open spec fn dead_reads_back(d: DeadView) -> bool {
    is_dead_written(decode_dead(dead_bytes(d)), d)
}

pub open spec fn all_read_back(list: Seq<DeliveryView>) -> bool {
    forall|i: int| 0 <= i < list.len() ==> reads_back(#[trigger] list[i])
}

pub open spec fn all_dead_read_back(list: Seq<DeadView>) -> bool {
    forall|i: int| 0 <= i < list.len() ==> dead_reads_back(#[trigger] list[i])
}

proof fn lemma_kind(k: SourceKind)
    ensures
        kind_of_text(kind_text(k)) == Some(k),
{
    reveal_strlit("File");
    reveal_strlit("Cron");
    reveal_strlit("Git");
    reveal_strlit("External");
    assert("File"@[0] == 'F');
    assert("Cron"@[0] == 'C');
    assert("Git"@.len() == 3);
    assert("External"@.len() == 8);
}

proof fn lemma_source_round_trip(s: SourceView)
    ensures
        source_of_json(source_json(s)) == Some(s),
        readable(source_json(s)),
        nested_within(source_json(s), 1),
        plain(source_json(s)),
{
    reveal_strlit("kind");
    reveal_strlit("reference");
    assert("kind"@.len() == 4);
    assert("reference"@.len() == 9);
    lemma_kind(s.kind);
    reveal_with_fuel(nested_within, 3);
    reveal_with_fuel(plain, 3);
}

proof fn lemma_nested_more(j: JsonView, depth: nat, more: nat)
    requires
        nested_within(j, depth),
        depth <= more,
    ensures
        nested_within(j, more),
    decreases j,
{
    match j {
        JsonView::Array(items) => {
            assert forall|i: int| 0 <= i < items.len() implies nested_within(
                #[trigger] items[i],
                (more - 1) as nat,
            ) by {
                lemma_nested_more(items[i], (depth - 1) as nat, (more - 1) as nat);
            }
        },
        JsonView::Object(members) => {
            assert forall|k: Seq<char>| #[trigger] members.contains_key(k) implies nested_within(
                members[k],
                (more - 1) as nat,
            ) by {
                lemma_nested_more(members[k], (depth - 1) as nat, (more - 1) as nat);
            }
        },
        _ => {},
    }
}

proof fn lemma_delivery_keys()
    ensures
        "delivery_id"@.len() == 11,
        "queue"@.len() == 5,
        "dept"@.len() == 4,
        "payload"@.len() == 7 && "payload"@[0] == 'p',
        "source"@.len() == 6 && "source"@[0] == 's',
        "cron_payload"@.len() == 12,
        "observed_at_ms"@.len() == 14 && "observed_at_ms"@[0] == 'o',
        "attempt"@.len() == 7 && "attempt"@[0] == 'a',
        "redrive_count"@.len() == 13 && "redrive_count"@[0] == 'r',
        "collapse_by_dedup_id"@.len() == 20,
        "pending_dirty"@.len() == 13 && "pending_dirty"@[0] == 'p',
        "subscriber_absent_since_ms"@.len() == 26,
        "lease_generation"@.len() == 16,
        "lease_until_ms"@.len() == 14 && "lease_until_ms"@[0] == 'l',
        "not_before_ms"@.len() == 13 && "not_before_ms"@[0] == 'n',
        "last_error_excerpt"@.len() == 18,
{
    reveal_strlit("delivery_id");
    reveal_strlit("queue");
    reveal_strlit("dept");
    reveal_strlit("payload");
    reveal_strlit("source");
    reveal_strlit("cron_payload");
    reveal_strlit("observed_at_ms");
    reveal_strlit("attempt");
    reveal_strlit("redrive_count");
    reveal_strlit("collapse_by_dedup_id");
    reveal_strlit("pending_dirty");
    reveal_strlit("subscriber_absent_since_ms");
    reveal_strlit("lease_generation");
    reveal_strlit("lease_until_ms");
    reveal_strlit("not_before_ms");
    reveal_strlit("last_error_excerpt");
}

proof fn lemma_optional_source(s: Option<SourceView>)
    ensures
        plain(optional_source_json(s)),
        nested_within(optional_source_json(s), 1),
        s is Some ==> source_of_json(optional_source_json(s)) == s,
        s is Some ==> optional_source_json(s) != JsonView::Null,
{
    match s {
        Some(v) => lemma_source_round_trip(v),
        None => {},
    }
}

/// Every field of a delivery is read back from its JSON form.
pub proof fn lemma_delivery_round_trip(d: DeliveryView)
    requires
        d.cron_payload != Some(JsonView::Null),
    ensures
        delivery_of_json(delivery_json(d)) == Some(d),
{
    lemma_delivery_keys();
    lemma_optional_source(d.source);
    let m = delivery_members(d);
    assert(m.contains_key("delivery_id"@) && m["delivery_id"@] == JsonView::Text(d.delivery_id));
    assert(m.contains_key("queue"@) && m["queue"@] == JsonView::Text(d.queue));
    assert(m.contains_key("dept"@) && m["dept"@] == JsonView::Text(d.dept));
    assert(m.contains_key("payload"@) && m["payload"@] == d.payload);
    assert(m.contains_key("source"@) && m["source"@] == optional_source_json(d.source));
    assert(m.contains_key("cron_payload"@) && m["cron_payload"@] == optional_json(d.cron_payload));
    assert(m.contains_key("observed_at_ms"@) && m["observed_at_ms"@] == JsonView::Unsigned(
        d.observed_at_ms as nat,
    ));
    assert(m.contains_key("attempt"@) && m["attempt"@] == JsonView::Unsigned(d.attempt as nat));
    assert(m.contains_key("redrive_count"@) && m["redrive_count"@] == JsonView::Unsigned(
        d.redrive_count as nat,
    ));
}

proof fn lemma_delivery_readable(d: DeliveryView)
    requires
        storable(d),
    ensures
        plain(delivery_json(d)),
        nested_within(delivery_json(d), 126),
{
    lemma_delivery_keys();
    lemma_optional_source(d.source);
    lemma_nested_more(optional_source_json(d.source), 1, 125);
    let m = delivery_members(d);
    assert(m.dom().finite());
    assert forall|k: Seq<char>| #[trigger] m.contains_key(k) implies plain(m[k]) && nested_within(
        m[k],
        125,
    ) by {
    }
}

proof fn lemma_dead_keys()
    ensures
        "delivery_id"@.len() == 11,
        "queue"@.len() == 5,
        "dept"@.len() == 4,
        "source"@.len() == 6 && "source"@[0] == 's',
        "observed_at_ms"@.len() == 14,
        "not_before_ms"@.len() == 13 && "not_before_ms"@[0] == 'n',
        "dead_at_ms"@.len() == 10 && "dead_at_ms"@[0] == 'd',
        "attempts"@.len() == 8,
        "redrive_count"@.len() == 13 && "redrive_count"@[0] == 'r',
        "replayable"@.len() == 10 && "replayable"@[0] == 'r',
        "permanent"@.len() == 9,
        "error_excerpt"@.len() == 13 && "error_excerpt"@[0] == 'e',
        "record"@.len() == 6 && "record"@[0] == 'r',
{
    reveal_strlit("delivery_id");
    reveal_strlit("queue");
    reveal_strlit("dept");
    reveal_strlit("source");
    reveal_strlit("observed_at_ms");
    reveal_strlit("not_before_ms");
    reveal_strlit("dead_at_ms");
    reveal_strlit("attempts");
    reveal_strlit("redrive_count");
    reveal_strlit("replayable");
    reveal_strlit("permanent");
    reveal_strlit("error_excerpt");
    reveal_strlit("record");
}

/// Every field of a dead delivery is read back from its JSON form.
pub proof fn lemma_dead_round_trip(d: DeadView)
    requires
        d.record matches Some(r) ==> r.cron_payload != Some(JsonView::Null),
    ensures
        dead_of_json(dead_json(d)) == Some(d),
{
    lemma_dead_keys();
    lemma_optional_source(d.source);
    match d.record {
        Some(r) => lemma_delivery_round_trip(r),
        None => {},
    }
    let m = dead_members(d);
    assert(m.contains_key("delivery_id"@) && m["delivery_id"@] == JsonView::Text(d.delivery_id));
    assert(m.contains_key("queue"@) && m["queue"@] == JsonView::Text(d.queue));
    assert(m.contains_key("dept"@) && m["dept"@] == JsonView::Text(d.dept));
    assert(m.contains_key("source"@) && m["source"@] == optional_source_json(d.source));
    assert(m.contains_key("record"@) && m["record"@] == optional_delivery_json(d.record));
}

proof fn lemma_dead_readable(d: DeadView)
    requires
        storable_dead(d),
    ensures
        readable(dead_json(d)),
{
    lemma_dead_keys();
    lemma_optional_source(d.source);
    lemma_nested_more(optional_source_json(d.source), 1, 126);
    match d.record {
        Some(r) => lemma_delivery_readable(r),
        None => {},
    }
    let m = dead_members(d);
    assert(m.dom().finite());
    assert forall|k: Seq<char>| #[trigger] m.contains_key(k) implies plain(m[k]) && nested_within(
        m[k],
        126,
    ) by {
    }
}

proof fn lemma_alike_chain(a: JsonView, b: JsonView, c: JsonView)
    requires
        alike(a, b),
        alike(b, c),
    ensures
        alike(a, c),
    decreases a,
{
    match (a, b, c) {
        (JsonView::Array(x), JsonView::Array(y), JsonView::Array(z)) => {
            assert forall|i: int| 0 <= i < x.len() implies alike(#[trigger] x[i], z[i]) by {
                lemma_alike_chain(x[i], y[i], z[i]);
            }
        },
        (JsonView::Object(x), JsonView::Object(y), JsonView::Object(z)) => {
            assert forall|k: Seq<char>| #[trigger] x.contains_key(k) implies alike(x[k], z[k]) by {
                assert(y.contains_key(k));
                lemma_alike_chain(x[k], y[k], z[k]);
            }
        },
        _ => {},
    }
}

proof fn lemma_alike_member(
    m: Map<Seq<char>, JsonView>,
    n: Map<Seq<char>, JsonView>,
    k: Seq<char>,
)
    requires
        alike(JsonView::Object(m), JsonView::Object(n)),
        m.contains_key(k),
    ensures
        n.contains_key(k),
        alike(m[k], n[k]),
{
    reveal_with_fuel(alike, 2);
    assert(n.dom().contains(k));
}

/// A member that is a text, a number, a truth value or a null is the same in what is alike.
proof fn lemma_same_member(
    m: Map<Seq<char>, JsonView>,
    n: Map<Seq<char>, JsonView>,
    k: Seq<char>,
)
    requires
        alike(JsonView::Object(m), JsonView::Object(n)),
        m.contains_key(k),
        m[k] is Text || m[k] is Unsigned || m[k] is Bool || m[k] is Null,
    ensures
        n.contains_key(k),
        n[k] == m[k],
{
    reveal_with_fuel(alike, 2);
    assert(n.dom().contains(k));
    assert(alike(m[k], n[k]));
}

/// What is alike to a source is the source.
proof fn lemma_alike_source(s: Option<SourceView>, j: JsonView)
    requires
        alike(optional_source_json(s), j),
    ensures
        j == optional_source_json(s),
        fits(j, Shape::Source),
{
    reveal_strlit("kind");
    reveal_strlit("reference");
    match s {
        Some(v) => {
            let m = source_json(v)->Object_0;
            let n = j->Object_0;
            assert(j is Object);
            assert(m.contains_key("kind"@) && m.contains_key("reference"@));
            reveal_with_fuel(alike, 2);
            assert(m =~= n);
            assert(source_fields()[0] == "kind"@ && source_fields()[1] == "reference"@);
            assert forall|k: Seq<char>| #[trigger] n.contains_key(k) implies member_fits(
                n,
                Shape::Source,
                k,
            ) by {
                assert(k == "kind"@ || k == "reference"@);
            }
        },
        None => {},
    }
}

proof fn lemma_delivery_fields(k: Seq<char>, d: DeliveryView)
    requires
        delivery_members(d).contains_key(k),
    ensures
        delivery_fields().contains(k),
{
    let f = delivery_fields();
    assert(f[0] == "delivery_id"@ && f[1] == "queue"@ && f[2] == "dept"@ && f[3] == "payload"@);
    assert(f[4] == "source"@ && f[5] == "cron_payload"@ && f[6] == "observed_at_ms"@);
    assert(f[7] == "attempt"@ && f[8] == "redrive_count"@ && f[9] == "collapse_by_dedup_id"@);
    assert(f[10] == "pending_dirty"@ && f[11] == "subscriber_absent_since_ms"@);
    assert(f[12] == "lease_generation"@ && f[13] == "lease_until_ms"@);
    assert(f[14] == "not_before_ms"@ && f[15] == "last_error_excerpt"@);
}

/// What is alike to a delivery is read as the delivery, but for fractions in the payloads.
proof fn lemma_alike_delivery(d: DeliveryView, j: JsonView)
    requires
        alike(delivery_json(d), j),
    ensures
        fits(j, Shape::Delivery),
        delivery_of_json(j) matches Some(e) ==> kept(e, d),
{
    lemma_delivery_keys();
    lemma_optional_source(d.source);
    let m = delivery_members(d);
    let n = j->Object_0;
    assert(j is Object);
    assert(m.dom() == n.dom());
    assert(m.contains_key("source"@) && m["source"@] == optional_source_json(d.source));
    lemma_alike_source(d.source, n["source"@]);
    assert forall|k: Seq<char>| #[trigger] n.contains_key(k) implies member_fits(
        n,
        Shape::Delivery,
        k,
    ) by {
        assert(m.contains_key(k));
        lemma_delivery_fields(k, d);
    }
    assert(m.contains_key("delivery_id"@) && m["delivery_id"@] == JsonView::Text(d.delivery_id));
    assert(m.contains_key("queue"@) && m["queue"@] == JsonView::Text(d.queue));
    assert(m.contains_key("dept"@) && m["dept"@] == JsonView::Text(d.dept));
    assert(m.contains_key("observed_at_ms"@) && m["observed_at_ms"@] == JsonView::Unsigned(
        d.observed_at_ms as nat,
    ));
    assert(m.contains_key("attempt"@) && m["attempt"@] == JsonView::Unsigned(d.attempt as nat));
    assert(m.contains_key("redrive_count"@) && m["redrive_count"@] == JsonView::Unsigned(
        d.redrive_count as nat,
    ));
    assert(m.contains_key("collapse_by_dedup_id"@) && m["collapse_by_dedup_id"@] == JsonView::Bool(
        d.collapse_by_dedup_id,
    ));
    assert(m.contains_key("pending_dirty"@) && m["pending_dirty"@] == JsonView::Bool(
        d.pending_dirty,
    ));
    assert(m.contains_key("subscriber_absent_since_ms"@));
    assert(m.contains_key("lease_generation"@) && m["lease_generation"@] == JsonView::Unsigned(
        d.lease_generation as nat,
    ));
    assert(m.contains_key("lease_until_ms"@));
    assert(m.contains_key("not_before_ms"@) && m["not_before_ms"@] == JsonView::Unsigned(
        d.not_before_ms as nat,
    ));
    assert(m.contains_key("last_error_excerpt"@));
    assert(m["subscriber_absent_since_ms"@] == optional_unsigned_json(
        d.subscriber_absent_since_ms,
    ));
    assert(m["lease_until_ms"@] == optional_unsigned_json(d.lease_until_ms));
    assert(m["last_error_excerpt"@] == optional_text_json(d.last_error_excerpt));
    assert(m.contains_key("payload"@) && m["payload"@] == d.payload);
    assert(m.contains_key("cron_payload"@) && m["cron_payload"@] == optional_json(d.cron_payload));
    lemma_alike_member(m, n, "payload"@);
    lemma_alike_member(m, n, "cron_payload"@);
    lemma_same_member(m, n, "delivery_id"@);
    lemma_same_member(m, n, "queue"@);
    lemma_same_member(m, n, "dept"@);
    lemma_same_member(m, n, "observed_at_ms"@);
    lemma_same_member(m, n, "attempt"@);
    lemma_same_member(m, n, "redrive_count"@);
    lemma_same_member(m, n, "collapse_by_dedup_id"@);
    lemma_same_member(m, n, "pending_dirty"@);
    lemma_same_member(m, n, "subscriber_absent_since_ms"@);
    lemma_same_member(m, n, "lease_generation"@);
    lemma_same_member(m, n, "lease_until_ms"@);
    lemma_same_member(m, n, "not_before_ms"@);
    lemma_same_member(m, n, "last_error_excerpt"@);
    match delivery_of_json(j) {
        Some(e) => {
            assert(e.payload == n["payload"@]);
            assert(optional_json(e.cron_payload) == n["cron_payload"@]);
            assert(e.delivery_id == d.delivery_id && e.queue == d.queue && e.dept == d.dept);
            assert(e.observed_at_ms == d.observed_at_ms && e.attempt == d.attempt);
            assert(e.redrive_count == d.redrive_count);
            assert(e.collapse_by_dedup_id == d.collapse_by_dedup_id);
            assert(e.pending_dirty == d.pending_dirty);
            assert(e.lease_generation == d.lease_generation);
            assert(e.not_before_ms == d.not_before_ms);
            assert(e.source == d.source);
            assert(e.subscriber_absent_since_ms == d.subscriber_absent_since_ms);
            assert(e.lease_until_ms == d.lease_until_ms);
            assert(e.last_error_excerpt == d.last_error_excerpt);
        },
        None => {},
    }
}

proof fn lemma_dead_fields(k: Seq<char>, d: DeadView)
    requires
        dead_members(d).contains_key(k),
    ensures
        dead_fields().contains(k),
{
    let f = dead_fields();
    assert(f[0] == "delivery_id"@ && f[1] == "queue"@ && f[2] == "dept"@ && f[3] == "source"@);
    assert(f[4] == "observed_at_ms"@ && f[5] == "not_before_ms"@ && f[6] == "dead_at_ms"@);
    assert(f[7] == "attempts"@ && f[8] == "redrive_count"@ && f[9] == "replayable"@);
    assert(f[10] == "permanent"@ && f[11] == "error_excerpt"@ && f[12] == "record"@);
}

/// What is alike to a dead delivery is read as the dead delivery, but for fractions in the payloads of
/// its record.
proof fn lemma_alike_dead(d: DeadView, j: JsonView)
    requires
        alike(dead_json(d), j),
    ensures
        fits(j, Shape::Dead),
        dead_of_json(j) matches Some(e) ==> dead_kept(e, d),
{
    lemma_dead_keys();
    lemma_optional_source(d.source);
    let m = dead_members(d);
    let n = j->Object_0;
    assert(j is Object);
    assert(m.dom() == n.dom());
    assert(m.contains_key("source"@) && m["source"@] == optional_source_json(d.source));
    lemma_alike_source(d.source, n["source"@]);
    assert(m.contains_key("record"@) && m["record"@] == optional_delivery_json(d.record));
    assert(alike(optional_delivery_json(d.record), n["record"@]));
    match d.record {
        Some(r) => {
            lemma_alike_delivery(r, n["record"@]);
            assert(n["record"@] is Object);
        },
        None => {},
    }
    assert forall|k: Seq<char>| #[trigger] n.contains_key(k) implies member_fits(
        n,
        Shape::Dead,
        k,
    ) by {
        assert(m.contains_key(k));
        lemma_dead_fields(k, d);
    }
    assert(m.contains_key("delivery_id"@) && m["delivery_id"@] == JsonView::Text(d.delivery_id));
    assert(m.contains_key("queue"@) && m["queue"@] == JsonView::Text(d.queue));
    assert(m.contains_key("dept"@) && m["dept"@] == JsonView::Text(d.dept));
    assert(m.contains_key("observed_at_ms"@) && m["observed_at_ms"@] == JsonView::Unsigned(
        d.observed_at_ms as nat,
    ));
    assert(m.contains_key("not_before_ms"@) && m["not_before_ms"@] == JsonView::Unsigned(
        d.not_before_ms as nat,
    ));
    assert(m.contains_key("dead_at_ms"@) && m["dead_at_ms"@] == JsonView::Unsigned(
        d.dead_at_ms as nat,
    ));
    assert(m.contains_key("attempts"@) && m["attempts"@] == JsonView::Unsigned(d.attempts as nat));
    assert(m.contains_key("redrive_count"@) && m["redrive_count"@] == JsonView::Unsigned(
        d.redrive_count as nat,
    ));
    assert(m.contains_key("replayable"@) && m["replayable"@] == JsonView::Bool(d.replayable));
    assert(m.contains_key("permanent"@) && m["permanent"@] == JsonView::Bool(d.permanent));
    assert(m.contains_key("error_excerpt"@));
    assert(m["error_excerpt"@] == optional_text_json(d.error_excerpt));
    lemma_same_member(m, n, "delivery_id"@);
    lemma_same_member(m, n, "queue"@);
    lemma_same_member(m, n, "dept"@);
    lemma_same_member(m, n, "observed_at_ms"@);
    lemma_same_member(m, n, "not_before_ms"@);
    lemma_same_member(m, n, "dead_at_ms"@);
    lemma_same_member(m, n, "attempts"@);
    lemma_same_member(m, n, "redrive_count"@);
    lemma_same_member(m, n, "replayable"@);
    lemma_same_member(m, n, "permanent"@);
    lemma_same_member(m, n, "error_excerpt"@);
    match dead_of_json(j) {
        Some(e) => {
            assert(e.delivery_id == d.delivery_id && e.queue == d.queue && e.dept == d.dept);
            assert(e.observed_at_ms == d.observed_at_ms && e.not_before_ms == d.not_before_ms);
            assert(e.dead_at_ms == d.dead_at_ms && e.attempts == d.attempts);
            assert(e.redrive_count == d.redrive_count);
            assert(e.replayable == d.replayable && e.permanent == d.permanent);
            assert(e.source == d.source);
            assert(e.error_excerpt == d.error_excerpt);
        },
        None => {},
    }
}

/// The text under which a delivery is stored, from which it is read back.
pub fn encode_delivery(d: &DeliveryRecord) -> (r: Vec<u8>)
    ensures
        r@ == delivery_bytes(d@),
        reads_back(d@),
{
    let r: Vec<u8> = print_json(&delivery_to_json(d));
    proof {
        let content = made_value(delivery_json(d@));
        lemma_alike_delivery(d@, content);
        lemma_read_as_a_whole(content, Shape::Delivery);
        match json_parse(r@) {
            Some(w) => {
                lemma_alike_chain(delivery_json(d@), content, w);
                lemma_alike_delivery(d@, w);
            },
            None => {},
        }
        if storable(d@) {
            lemma_delivery_readable(d@);
            lemma_nested_more(delivery_json(d@), 126, 127);
            lemma_delivery_round_trip(d@);
        }
    }
    r
}

/// Reads the part of a text that is read as a record.
pub fn parse_part(bytes: &[u8], shape: Shape) -> (r: Option<Json>)
    ensures
        optional_json_view(r) == parsed_part(bytes@, shape),
{
    match readable_part(bytes, shape) {
        Some(part) => parse_json(part.as_slice()),
        None => None,
    }
}

/// Reads a stored delivery.
pub fn read_delivery(bytes: &[u8]) -> (r: Option<DeliveryRecord>)
    ensures
        delivery_view(r) == decode_delivery(bytes@),
{
    match parse_part(bytes, Shape::Delivery) {
        Some(j) => delivery_from_json(&j),
        None => None,
    }
}

/// The text under which a dead delivery is stored, from which it is read back.
pub fn encode_dead(d: &DeadRecord) -> (r: Vec<u8>)
    ensures
        r@ == dead_bytes(d@),
        dead_reads_back(d@),
{
    let r: Vec<u8> = print_json(&dead_to_json(d));
    proof {
        let content = made_value(dead_json(d@));
        lemma_alike_dead(d@, content);
        lemma_read_as_a_whole(content, Shape::Dead);
        match json_parse(r@) {
            Some(w) => {
                lemma_alike_chain(dead_json(d@), content, w);
                lemma_alike_dead(d@, w);
            },
            None => {},
        }
        if storable_dead(d@) {
            lemma_dead_readable(d@);
            lemma_dead_round_trip(d@);
        }
    }
    r
}

/// Reads a stored dead delivery.
pub fn decode_dead_record(bytes: &[u8]) -> (r: Option<DeadRecord>)
    ensures
        dead_view(r) == decode_dead(bytes@),
{
    match parse_part(bytes, Shape::Dead) {
        Some(j) => dead_from_json(&j),
        None => None,
    }
}

} // verus!
