//! Laws of records: under which names their members are written, and what is read where a member is
//! missing.

use vstd::prelude::*;
use vstd::string::*;
use crate::delivery_types::{
    by_name, dead_json, dead_members, dead_of_json, delivery_json, delivery_members,
    delivery_of_json, kind_of_json, kind_of_text, kind_text, name_alone, named_members,
    optional_delivery_at, optional_delivery_json, optional_source_at, optional_source_json,
    source_json, source_of_json, DeadView, DeliveryView, SourceKind, SourceView,
};
use crate::json::JsonView;

verus! {

proof fn lemma_names()
    ensures
        "delivery_id"@.len() == 11,
        "queue"@.len() == 5,
        "dept"@.len() == 4,
        "payload"@.len() == 7 && "payload"@[0] == 'p',
        "source"@.len() == 6 && "source"@[0] == 's',
        "cron_payload"@.len() == 12,
        "observed_at_ms"@.len() == 14 && "observed_at_ms"@[0] == 'o',
        "attempt"@.len() == 7 && "attempt"@[0] == 'a',
        "redrive_count"@.len() == 13 && "redrive_count"@[0] == 'r',
        "collapse_by_dedup_id"@.len() == 20,
        "pending_dirty"@.len() == 13 && "pending_dirty"@[0] == 'p',
        "subscriber_absent_since_ms"@.len() == 26,
        "lease_generation"@.len() == 16,
        "lease_until_ms"@.len() == 14 && "lease_until_ms"@[0] == 'l',
        "not_before_ms"@.len() == 13 && "not_before_ms"@[0] == 'n',
        "last_error_excerpt"@.len() == 18,
        "dead_at_ms"@.len() == 10 && "dead_at_ms"@[0] == 'd',
        "attempts"@.len() == 8,
        "replayable"@.len() == 10 && "replayable"@[0] == 'r',
        "permanent"@.len() == 9 && "permanent"@[0] == 'p',
        "error_excerpt"@.len() == 13 && "error_excerpt"@[0] == 'e',
        "record"@.len() == 6 && "record"@[0] == 'r',
        "kind"@.len() == 4 && "reference"@.len() == 9,
{
    reveal_strlit("delivery_id");
    reveal_strlit("queue");
    reveal_strlit("dept");
    reveal_strlit("payload");
    reveal_strlit("source");
    reveal_strlit("cron_payload");
    reveal_strlit("observed_at_ms");
    reveal_strlit("attempt");
    reveal_strlit("redrive_count");
    reveal_strlit("collapse_by_dedup_id");
    reveal_strlit("pending_dirty");
    reveal_strlit("subscriber_absent_since_ms");
    reveal_strlit("lease_generation");
    reveal_strlit("lease_until_ms");
    reveal_strlit("not_before_ms");
    reveal_strlit("last_error_excerpt");
    reveal_strlit("dead_at_ms");
    reveal_strlit("attempts");
    reveal_strlit("replayable");
    reveal_strlit("permanent");
    reveal_strlit("error_excerpt");
    reveal_strlit("record");
    reveal_strlit("kind");
    reveal_strlit("reference");
}

/// The words for kinds of sources in a record.
pub proof fn law_the_kinds_in_records(k: SourceKind, other: SourceKind)
    ensures
        kind_of_text(kind_text(k)) == Some(k),
        kind_text(k) == kind_text(other) ==> k == other,
        kind_of_json(JsonView::Text(kind_text(k))) == Some(k),
        kind_of_json(JsonView::Object(name_alone(kind_text(k)))) == Some(k),
{
    reveal_strlit("File");
    reveal_strlit("Cron");
    reveal_strlit("Git");
    reveal_strlit("External");
    assert("File"@.len() == 4 && "File"@[0] == 'F');
    assert("Cron"@.len() == 4 && "Cron"@[0] == 'C');
    assert("Git"@.len() == 3);
    assert("External"@.len() == 8);
    let own = name_alone(kind_text(k));
    assert(own.contains_key(kind_text(k)));
    assert(!name_alone("File"@).contains_key("Cron"@) && !name_alone("File"@).contains_key("Git"@)
        && !name_alone("File"@).contains_key("External"@));
    assert(!name_alone("Cron"@).contains_key("Git"@) && !name_alone("Cron"@).contains_key(
        "External"@,
    ));
    assert(!name_alone("Git"@).contains_key("External"@));
}

/// A source is read as it was written.
pub proof fn law_a_source_is_read_as_written(s: SourceView)
    ensures
        source_json(s).get("kind"@) == Some(JsonView::Text(kind_text(s.kind))),
        source_json(s).text_at("reference"@) == Some(s.reference),
        source_of_json(source_json(s)) == Some(s),
{
    lemma_names();
    law_the_kinds_in_records(s.kind, s.kind);
}

/// Under which names the members of a delivery are written.
pub proof fn law_how_a_delivery_is_written(d: DeliveryView)
    ensures
        ({
            let j = delivery_json(d);
            &&& j.text_at("delivery_id"@) == Some(d.delivery_id)
            &&& j.text_at("queue"@) == Some(d.queue)
            &&& j.text_at("dept"@) == Some(d.dept)
            &&& j.get("payload"@) == Some(d.payload)
            &&& d.source matches Some(s) ==> j.get("source"@) == Some(source_json(s))
            &&& d.source is None ==> j.get("source"@) == Some(JsonView::Null)
            &&& d.cron_payload matches Some(p) ==> j.get("cron_payload"@) == Some(p)
            &&& d.cron_payload is None ==> j.get("cron_payload"@) == Some(JsonView::Null)
            &&& j.get("observed_at_ms"@) == Some(JsonView::Unsigned(d.observed_at_ms as nat))
            &&& j.get("attempt"@) == Some(JsonView::Unsigned(d.attempt as nat))
            &&& j.get("redrive_count"@) == Some(JsonView::Unsigned(d.redrive_count as nat))
            &&& j.get("collapse_by_dedup_id"@) == Some(JsonView::Bool(d.collapse_by_dedup_id))
            &&& j.get("pending_dirty"@) == Some(JsonView::Bool(d.pending_dirty))
            &&& d.subscriber_absent_since_ms matches Some(n) ==> j.get(
                "subscriber_absent_since_ms"@,
            ) == Some(JsonView::Unsigned(n as nat))
            &&& j.get("lease_generation"@) == Some(JsonView::Unsigned(d.lease_generation as nat))
            &&& d.lease_until_ms matches Some(n) ==> j.get("lease_until_ms"@) == Some(
                JsonView::Unsigned(n as nat),
            )
            &&& d.lease_until_ms is None ==> j.get("lease_until_ms"@) == Some(JsonView::Null)
            &&& j.get("not_before_ms"@) == Some(JsonView::Unsigned(d.not_before_ms as nat))
            &&& d.last_error_excerpt matches Some(s) ==> j.text_at("last_error_excerpt"@) == Some(s)
            &&& d.last_error_excerpt is None ==> j.get("last_error_excerpt"@) == Some(
                JsonView::Null,
            )
        }),
{
    lemma_names();
}

proof fn lemma_source_read(m: Map<Seq<char>, JsonView>, source: Option<SourceView>)
    requires
        m.contains_key("source"@),
        m["source"@] == optional_source_json(source),
    ensures
        optional_source_at(JsonView::Object(m), "source"@) == Some(source),
{
    if let Some(s) = source {
        law_a_source_is_read_as_written(s);
    }
}

/// A delivery is read from a record of an older version too: what such a record does not tell is read
/// as nothing, as nought or as no. What every version tells cannot be left out.
#[verifier::rlimit(60)]
#[verifier::spinoff_prover]
pub proof fn law_what_is_read_of_an_older_delivery(d: DeliveryView)
    requires
        d.cron_payload != Some(JsonView::Null),
    ensures
        delivery_of_json(delivery_json(d)) == Some(d),
        delivery_of_json(JsonView::Object(delivery_members(d).remove("redrive_count"@))) == Some(
            DeliveryView { redrive_count: 0, ..d },
        ),
        delivery_of_json(JsonView::Object(delivery_members(d).remove("collapse_by_dedup_id"@)))
            == Some(DeliveryView { collapse_by_dedup_id: false, ..d }),
        delivery_of_json(JsonView::Object(delivery_members(d).remove("pending_dirty"@))) == Some(
            DeliveryView { pending_dirty: false, ..d },
        ),
        delivery_of_json(
            JsonView::Object(delivery_members(d).remove("subscriber_absent_since_ms"@)),
        ) == Some(DeliveryView { subscriber_absent_since_ms: None, ..d }),
        delivery_of_json(JsonView::Object(delivery_members(d).remove("cron_payload"@))) == Some(
            DeliveryView { cron_payload: None, ..d },
        ),
        delivery_of_json(JsonView::Object(delivery_members(d).remove("lease_generation"@))) is None,
        delivery_of_json(JsonView::Object(delivery_members(d).remove("attempt"@))) is None,
        delivery_of_json(JsonView::Object(delivery_members(d).remove("delivery_id"@))) is None,
        delivery_of_json(JsonView::Object(delivery_members(d).remove("payload"@))) is None,
        delivery_of_json(JsonView::Object(delivery_members(d).remove("not_before_ms"@))) is None,
{
    lemma_names();
    let m = delivery_members(d);
    assert(m.contains_key("source"@));
    lemma_source_read(m, d.source);
    lemma_source_read(m.remove("redrive_count"@), d.source);
    lemma_source_read(m.remove("collapse_by_dedup_id"@), d.source);
    lemma_source_read(m.remove("pending_dirty"@), d.source);
    lemma_source_read(m.remove("subscriber_absent_since_ms"@), d.source);
    lemma_source_read(m.remove("cron_payload"@), d.source);
}

/// Under which names the members of a dead delivery are written.
pub proof fn law_how_a_dead_delivery_is_written(d: DeadView)
    ensures
        ({
            let j = dead_json(d);
            &&& j.text_at("delivery_id"@) == Some(d.delivery_id)
            &&& j.text_at("queue"@) == Some(d.queue)
            &&& j.text_at("dept"@) == Some(d.dept)
            &&& d.source matches Some(s) ==> j.get("source"@) == Some(source_json(s))
            &&& j.get("observed_at_ms"@) == Some(JsonView::Unsigned(d.observed_at_ms as nat))
            &&& j.get("not_before_ms"@) == Some(JsonView::Unsigned(d.not_before_ms as nat))
            &&& j.get("dead_at_ms"@) == Some(JsonView::Unsigned(d.dead_at_ms as nat))
            &&& j.get("attempts"@) == Some(JsonView::Unsigned(d.attempts as nat))
            &&& j.get("redrive_count"@) == Some(JsonView::Unsigned(d.redrive_count as nat))
            &&& j.get("replayable"@) == Some(JsonView::Bool(d.replayable))
            &&& j.get("permanent"@) == Some(JsonView::Bool(d.permanent))
            &&& d.error_excerpt matches Some(s) ==> j.text_at("error_excerpt"@) == Some(s)
            &&& d.record matches Some(r) ==> j.get("record"@) == Some(delivery_json(r))
            &&& d.record is None ==> j.get("record"@) == Some(JsonView::Null)
        }),
{
    lemma_names();
}

proof fn lemma_record_read(m: Map<Seq<char>, JsonView>, record: Option<DeliveryView>)
    requires
        m.contains_key("record"@),
        m["record"@] == optional_delivery_json(record),
        record matches Some(r) ==> r.cron_payload != Some(JsonView::Null),
    ensures
        optional_delivery_at(JsonView::Object(m), "record"@) == Some(record),
{
    if let Some(r) = record {
        law_what_is_read_of_an_older_delivery(r);
    }
}

/// A dead delivery is read from a record of an older version too: where that does not tell, the
/// delivery is dead for good, cannot be sent again and was not.
#[verifier::rlimit(60)]
#[verifier::spinoff_prover]
pub proof fn law_what_is_read_of_an_older_dead_delivery(d: DeadView)
    requires
        d.record matches Some(r) ==> r.cron_payload != Some(JsonView::Null),
    ensures
        dead_of_json(dead_json(d)) == Some(d),
        dead_of_json(JsonView::Object(dead_members(d).remove("permanent"@))) == Some(
            DeadView { permanent: true, ..d },
        ),
        dead_of_json(JsonView::Object(dead_members(d).remove("replayable"@))) == Some(
            DeadView { replayable: false, ..d },
        ),
        dead_of_json(JsonView::Object(dead_members(d).remove("redrive_count"@))) == Some(
            DeadView { redrive_count: 0, ..d },
        ),
        dead_of_json(JsonView::Object(dead_members(d).remove("record"@))) == Some(
            DeadView { record: None, ..d },
        ),
        dead_of_json(JsonView::Object(dead_members(d).remove("dead_at_ms"@))) is None,
        dead_of_json(JsonView::Object(dead_members(d).remove("attempts"@))) is None,
{
    lemma_names();
    let m = dead_members(d);
    lemma_record_read(m, d.record);
    lemma_record_read(m.remove("permanent"@), d.record);
    lemma_record_read(m.remove("replayable"@), d.record);
    lemma_record_read(m.remove("redrive_count"@), d.record);
    lemma_source_read(m, d.source);
    lemma_source_read(m.remove("permanent"@), d.source);
    lemma_source_read(m.remove("replayable"@), d.source);
    lemma_source_read(m.remove("redrive_count"@), d.source);
    lemma_source_read(m.remove("record"@), d.source);
}

/// A record may be written as a list too: its items then stand for the members in the order of the
/// names.
pub proof fn law_a_list_stands_for_members(
    fields: Seq<Seq<char>>,
    items: Seq<JsonView>,
    least: nat,
    i: int,
)
    requires
        forall|a: int, b: int|
            0 <= a < b < fields.len() ==> #[trigger] fields[a] != #[trigger] fields[b],
    ensures
        least <= items.len() <= fields.len() && 0 <= i < items.len() ==> by_name(
            JsonView::Array(items),
            fields,
            least,
        ).get(fields[i]) == Some(items[i]),
        least <= items.len() <= fields.len() && items.len() <= i < fields.len() ==> by_name(
            JsonView::Array(items),
            fields,
            least,
        ).get(fields[i]) is None,
        items.len() < least || items.len() > fields.len() ==> by_name(
            JsonView::Array(items),
            fields,
            least,
        ) == JsonView::Null,
{
    if least <= items.len() <= fields.len() {
        lemma_named(fields, items, i);
    }
}

proof fn lemma_named(fields: Seq<Seq<char>>, items: Seq<JsonView>, i: int)
    requires
        items.len() <= fields.len(),
        forall|a: int, b: int|
            0 <= a < b < fields.len() ==> #[trigger] fields[a] != #[trigger] fields[b],
    ensures
        0 <= i < items.len() ==> named_members(fields, items).contains_key(fields[i])
            && named_members(fields, items)[fields[i]] == items[i],
        items.len() <= i < fields.len() ==> !named_members(fields, items).contains_key(fields[i]),
    decreases items.len(),
{
    if items.len() > 0 {
        lemma_named(fields, items.drop_last(), i);
        let last = items.len() - 1;
        if 0 <= i < last {
            assert(fields[i] != fields[last]);
        } else if i > last && i < fields.len() {
            assert(fields[last] != fields[i]);
        }
    }
}

/// A record with a member of another kind than it should be is not read.
pub proof fn law_members_of_another_kind_are_refused(m: Map<Seq<char>, JsonView>, b: bool)
    ensures
        forall|k: Seq<char>|
            is_plain_member(k) && #[trigger] m.contains_key(k) && m[k] == JsonView::Bool(b)
                ==> delivery_of_json(JsonView::Object(m)) is None,
        m.contains_key("collapse_by_dedup_id"@) && m["collapse_by_dedup_id"@] == JsonView::Null
            ==> delivery_of_json(JsonView::Object(m)) is None,
        m.contains_key("pending_dirty"@) && m["pending_dirty"@] == JsonView::Null
            ==> delivery_of_json(JsonView::Object(m)) is None,
        forall|k: Seq<char>|
            is_plain_dead_member(k) && #[trigger] m.contains_key(k) && m[k] == JsonView::Bool(b)
                ==> dead_of_json(JsonView::Object(m)) is None,
        m.contains_key("replayable"@) && m["replayable"@] == JsonView::Null ==> dead_of_json(
            JsonView::Object(m),
        ) is None,
        m.contains_key("permanent"@) && m["permanent"@] == JsonView::Null ==> dead_of_json(
            JsonView::Object(m),
        ) is None,
{
    lemma_names();
}

/// The members of a delivery that are texts, numbers or sources.
pub open spec fn is_plain_member(k: Seq<char>) -> bool {
    k == "delivery_id"@ || k == "queue"@ || k == "dept"@ || k == "source"@ || k == "observed_at_ms"@
        || k == "attempt"@ || k == "redrive_count"@ || k == "subscriber_absent_since_ms"@ || k
        == "lease_generation"@ || k == "lease_until_ms"@ || k == "not_before_ms"@ || k
        == "last_error_excerpt"@
}

/// The members of a dead delivery that are texts, numbers, sources or deliveries.
pub open spec fn is_plain_dead_member(k: Seq<char>) -> bool {
    k == "delivery_id"@ || k == "queue"@ || k == "dept"@ || k == "source"@ || k == "observed_at_ms"@
        || k == "not_before_ms"@ || k == "dead_at_ms"@ || k == "attempts"@ || k == "redrive_count"@
        || k == "error_excerpt"@ || k == "record"@
}

} // verus!
