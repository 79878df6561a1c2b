//! A snapshot of what the delivery store holds, without the payloads themselves.

use vstd::prelude::*;
use vstd::string::*;
use crate::delivery_scan::storage_text;
use crate::delivery_types::{
    copy_source, dead_views, delivery_views, source_view, DeadRecord, DeadView, DeliveryRecord,
    DeliveryView, SourceRef, SourceView,
};
use crate::digest::{digest_text, stable_digest};
use crate::json::{json_bytes, print_json, Json, JsonView};
use crate::numeral::{decimal, push_decimal};
use crate::order::{lemma_at_most_transitive, lemma_less_total, less_text, text_at_most, text_less};
use crate::record_codec::{decode_dead, decode_dead_record, decode_delivery, read_delivery};
use crate::sorting::{lemma_rearranged_map, sort, sorted, Ordered};
use crate::store_model::{dead, deliveries, lemma_tables};
use crate::tables::{ascending, lists_rows, read_rows, snapshot_rows, Row};
use crate::text::{copy_optional_text, copy_text, list_holds, same_text, text_view, texts_view};
use redb::ReadTransaction;

verus! {

// One delivery.

/// How far a delivery is.
#[derive(Clone, Copy, Debug, PartialEq, Eq, Structural)]
pub enum DeliveryObserveStatus {
    Pending,
    InFlight,
    Retrying,
}

/// In flight while it is leased; retrying while a further attempt is not due; else pending.
pub open spec fn status_of(d: DeliveryView, now_ms: u64) -> DeliveryObserveStatus {
    if d.lease_until_ms matches Some(until) && until > now_ms {
        DeliveryObserveStatus::InFlight
    } else if d.attempt > 0 && d.not_before_ms > now_ms {
        DeliveryObserveStatus::Retrying
    } else {
        DeliveryObserveStatus::Pending
    }
}

pub fn delivery_status(record: &DeliveryRecord, now_ms: u64) -> (r: DeliveryObserveStatus)
    ensures
        r == status_of(record@, now_ms),
{
    let leased: bool = match record.lease_until_ms {
        Some(until) => until > now_ms,
        None => false,
    };
    if leased {
        DeliveryObserveStatus::InFlight
    } else if record.attempt > 0 && record.not_before_ms > now_ms {
        DeliveryObserveStatus::Retrying
    } else {
        DeliveryObserveStatus::Pending
    }
}

/// What tells the holder of one lease from the holders of others.
pub open spec fn fence_of(delivery_id: Seq<char>, generation: u64) -> Seq<char> {
    delivery_id + "#"@ + decimal(generation as nat)
}

pub fn fence_token(delivery_id: &str, lease_generation: u64) -> (r: String)
    ensures
        r@ == fence_of(delivery_id@, lease_generation),
{
    let mut out: String = copy_text(delivery_id);
    out.append("#");
    push_decimal(&mut out, lease_generation);
    out
}

/// What is told of a payload.
#[derive(Debug)]
pub struct PayloadObserveSummary {
    pub schema: Option<String>,
    pub dedup_key: Option<String>,
    pub digest: String,
    pub bytes: usize,
}

pub struct SummaryView {
    pub schema: Option<Seq<char>>,
    pub dedup_key: Option<Seq<char>>,
    pub digest: Seq<char>,
    pub bytes: nat,
}

impl View for PayloadObserveSummary {
    type V = SummaryView;

    open spec fn view(&self) -> SummaryView {
        SummaryView {
            schema: text_view(self.schema),
            dedup_key: text_view(self.dedup_key),
            digest: self.digest@,
            bytes: self.bytes as nat,
        }
    }
}

/// Two texts out of the payload, and the digest and the length of its JSON text.
pub open spec fn summary_of(payload: JsonView) -> SummaryView {
    SummaryView {
        schema: payload.text_at("schema"@),
        dedup_key: payload.text_at("dedup_key"@),
        digest: digest_text(json_bytes(payload)),
        bytes: json_bytes(payload).len(),
    }
}

/// What is told where there is no payload.
pub open spec fn no_summary() -> SummaryView {
    SummaryView {
        schema: None,
        dedup_key: None,
        digest: digest_text(json_bytes(JsonView::Null)),
        bytes: 4,
    }
}

/// A payload whose text can be digested on this machine.
pub open spec fn digestible(payload: JsonView) -> bool {
    json_bytes(payload).len() + 128 <= usize::MAX
}

fn digest_of(payload: &Json) -> (r: Option<(String, usize)>)
    ensures
        match r {
            Some((digest, len)) => digestible(payload@) && digest@ == digest_text(
                json_bytes(payload@),
            ) && len == json_bytes(payload@).len(),
            None => !digestible(payload@),
        },
{
    let bytes: Vec<u8> = print_json(payload);
    if bytes.len() > usize::MAX - 128 {
        return None;
    }
    Some((stable_digest(bytes.as_slice()), bytes.len()))
}

/// What is told of a payload; nothing of one whose text is too long to be digested.
pub fn payload_summary(payload: &Json) -> (r: Option<PayloadObserveSummary>)
    ensures
        match r {
            Some(s) => digestible(payload@) && s@ == summary_of(payload@),
            None => !digestible(payload@),
        },
{
    match digest_of(payload) {
        Some((digest, bytes)) => Some(
            PayloadObserveSummary {
                schema: payload.text_at("schema"),
                dedup_key: payload.text_at("dedup_key"),
                digest,
                bytes,
            },
        ),
        None => None,
    }
}

fn empty_summary() -> (r: Option<PayloadObserveSummary>)
    ensures
        match r {
            Some(s) => digestible(JsonView::Null) && s@ == no_summary(),
            None => !digestible(JsonView::Null),
        },
{
    match digest_of(&Json::Null) {
        Some((digest, _)) => Some(
            PayloadObserveSummary { schema: None, dedup_key: None, digest, bytes: 4 },
        ),
        None => None,
    }
}

/// What is told of a delivery.
#[derive(Debug)]
pub struct DeliveryObserveEntry {
    pub delivery_id: String,
    pub queue: String,
    pub dept: String,
    pub source: Option<SourceRef>,
    pub status: DeliveryObserveStatus,
    pub observed_at_ms: u64,
    pub not_before_ms: u64,
    pub attempt: u64,
    pub redrive_count: u64,
    pub lease_generation: u64,
    pub lease_until_ms: Option<u64>,
    pub fence_token: String,
    pub subscriber_absent_since_ms: Option<u64>,
    pub payload: PayloadObserveSummary,
    pub last_error_excerpt: Option<String>,
}

pub struct EntryView {
    pub delivery_id: Seq<char>,
    pub queue: Seq<char>,
    pub dept: Seq<char>,
    pub source: Option<SourceView>,
    pub status: DeliveryObserveStatus,
    pub observed_at_ms: u64,
    pub not_before_ms: u64,
    pub attempt: u64,
    pub redrive_count: u64,
    pub lease_generation: u64,
    pub lease_until_ms: Option<u64>,
    pub fence_token: Seq<char>,
    pub subscriber_absent_since_ms: Option<u64>,
    pub payload: SummaryView,
    pub last_error_excerpt: Option<Seq<char>>,
}

impl View for DeliveryObserveEntry {
    type V = EntryView;

    open spec fn view(&self) -> EntryView {
        EntryView {
            delivery_id: self.delivery_id@,
            queue: self.queue@,
            dept: self.dept@,
            source: source_view(self.source),
            status: self.status,
            observed_at_ms: self.observed_at_ms,
            not_before_ms: self.not_before_ms,
            attempt: self.attempt,
            redrive_count: self.redrive_count,
            lease_generation: self.lease_generation,
            lease_until_ms: self.lease_until_ms,
            fence_token: self.fence_token@,
            subscriber_absent_since_ms: self.subscriber_absent_since_ms,
            payload: self.payload@,
            last_error_excerpt: text_view(self.last_error_excerpt),
        }
    }
}

pub open spec fn entry_of(d: DeliveryView, now_ms: u64) -> EntryView {
    EntryView {
        delivery_id: d.delivery_id,
        queue: d.queue,
        dept: d.dept,
        source: d.source,
        status: status_of(d, now_ms),
        observed_at_ms: d.observed_at_ms,
        not_before_ms: d.not_before_ms,
        attempt: d.attempt,
        redrive_count: d.redrive_count,
        lease_generation: d.lease_generation,
        lease_until_ms: d.lease_until_ms,
        fence_token: fence_of(d.delivery_id, d.lease_generation),
        subscriber_absent_since_ms: d.subscriber_absent_since_ms,
        payload: summary_of(d.payload),
        last_error_excerpt: d.last_error_excerpt,
    }
}

/// What is told of a delivery; nothing where the text of its payload is too long.
pub fn delivery_observe_entry(record: &DeliveryRecord, now_ms: u64) -> (r: Option<
    DeliveryObserveEntry,
>)
    ensures
        match r {
            Some(e) => digestible(record@.payload) && e@ == entry_of(record@, now_ms),
            None => !digestible(record@.payload),
        },
{
    let payload: PayloadObserveSummary = match payload_summary(&record.payload) {
        Some(payload) => payload,
        None => return None,
    };
    Some(
        DeliveryObserveEntry {
            delivery_id: copy_text(record.delivery_id.as_str()),
            queue: copy_text(record.queue.as_str()),
            dept: copy_text(record.dept.as_str()),
            source: copy_source(&record.source),
            status: delivery_status(record, now_ms),
            observed_at_ms: record.observed_at_ms,
            not_before_ms: record.not_before_ms,
            attempt: record.attempt,
            redrive_count: record.redrive_count,
            lease_generation: record.lease_generation,
            lease_until_ms: record.lease_until_ms,
            fence_token: fence_token(record.delivery_id.as_str(), record.lease_generation),
            subscriber_absent_since_ms: record.subscriber_absent_since_ms,
            payload,
            last_error_excerpt: copy_optional_text(&record.last_error_excerpt),
        },
    )
}

/// What is told of a dead delivery.
#[derive(Debug)]
pub struct DeadLetterObserveEntry {
    pub delivery_id: String,
    pub queue: String,
    pub dept: String,
    pub source: Option<SourceRef>,
    pub observed_at_ms: u64,
    pub not_before_ms: u64,
    pub dead_at_ms: u64,
    pub attempts: u64,
    pub redrive_count: u64,
    pub replayable: bool,
    pub permanent: bool,
    pub payload: PayloadObserveSummary,
    pub error_excerpt: Option<String>,
}

pub struct DeadEntryView {
    pub delivery_id: Seq<char>,
    pub queue: Seq<char>,
    pub dept: Seq<char>,
    pub source: Option<SourceView>,
    pub observed_at_ms: u64,
    pub not_before_ms: u64,
    pub dead_at_ms: u64,
    pub attempts: u64,
    pub redrive_count: u64,
    pub replayable: bool,
    pub permanent: bool,
    pub payload: SummaryView,
    pub error_excerpt: Option<Seq<char>>,
}

impl View for DeadLetterObserveEntry {
    type V = DeadEntryView;

    open spec fn view(&self) -> DeadEntryView {
        DeadEntryView {
            delivery_id: self.delivery_id@,
            queue: self.queue@,
            dept: self.dept@,
            source: source_view(self.source),
            observed_at_ms: self.observed_at_ms,
            not_before_ms: self.not_before_ms,
            dead_at_ms: self.dead_at_ms,
            attempts: self.attempts,
            redrive_count: self.redrive_count,
            replayable: self.replayable,
            permanent: self.permanent,
            payload: self.payload@,
            error_excerpt: text_view(self.error_excerpt),
        }
    }
}

/// The payload that a dead delivery is told by.
pub open spec fn dead_payload(d: DeadView) -> JsonView {
    match d.record {
        Some(r) => r.payload,
        None => JsonView::Null,
    }
}

pub open spec fn dead_entry_of(d: DeadView) -> DeadEntryView {
    DeadEntryView {
        delivery_id: d.delivery_id,
        queue: d.queue,
        dept: d.dept,
        source: d.source,
        observed_at_ms: d.observed_at_ms,
        not_before_ms: d.not_before_ms,
        dead_at_ms: d.dead_at_ms,
        attempts: d.attempts,
        redrive_count: d.redrive_count,
        replayable: d.replayable,
        permanent: d.permanent,
        payload: match d.record {
            Some(r) => summary_of(r.payload),
            None => no_summary(),
        },
        error_excerpt: d.error_excerpt,
    }
}

/// What is told of a dead delivery; nothing where the text of its payload is too long.
pub fn dead_letter_observe_entry(record: &DeadRecord) -> (r: Option<DeadLetterObserveEntry>)
    ensures
        match r {
            Some(e) => digestible(dead_payload(record@)) && e@ == dead_entry_of(record@),
            None => !digestible(dead_payload(record@)),
        },
{
    let summary: Option<PayloadObserveSummary> = match &record.record {
        Some(delivery) => payload_summary(&delivery.payload),
        None => empty_summary(),
    };
    let payload: PayloadObserveSummary = match summary {
        Some(payload) => payload,
        None => return None,
    };
    Some(
        DeadLetterObserveEntry {
            delivery_id: copy_text(record.delivery_id.as_str()),
            queue: copy_text(record.queue.as_str()),
            dept: copy_text(record.dept.as_str()),
            source: copy_source(&record.source),
            observed_at_ms: record.observed_at_ms,
            not_before_ms: record.not_before_ms,
            dead_at_ms: record.dead_at_ms,
            attempts: record.attempts,
            redrive_count: record.redrive_count,
            replayable: record.replayable,
            permanent: record.permanent,
            payload,
            error_excerpt: copy_optional_text(&record.error_excerpt),
        },
    )
}

// One queue.

/// Whether anything takes what is in a queue.
#[derive(Clone, Copy, Debug, PartialEq, Eq, Structural)]
pub enum QueueSubscriberStatus {
    Current,
    Absent,
    Unknown,
}

impl QueueSubscriberStatus {
    pub open spec fn name(self) -> Seq<char> {
        match self {
            QueueSubscriberStatus::Current => "current"@,
            QueueSubscriberStatus::Absent => "absent"@,
            QueueSubscriberStatus::Unknown => "unknown"@,
        }
    }

    pub fn as_str(&self) -> (r: &'static str)
        ensures
            r@ == self.name(),
    {
        match self {
            QueueSubscriberStatus::Current => "current",
            QueueSubscriberStatus::Absent => "absent",
            QueueSubscriberStatus::Unknown => "unknown",
        }
    }
}

/// What is told of a queue.
#[derive(Debug)]
pub struct QueueObserveState {
    pub queue: String,
    pub depth: usize,
    pub pending: usize,
    pub in_flight: usize,
    pub retrying: usize,
    pub oldest_pending_age_ms: Option<u64>,
    pub subscriber_status: QueueSubscriberStatus,
    pub has_current_subscriber: Option<bool>,
}

pub struct QueueView {
    pub queue: Seq<char>,
    pub depth: nat,
    pub pending: nat,
    pub in_flight: nat,
    pub retrying: nat,
    pub oldest_pending_age_ms: Option<u64>,
    pub subscriber_status: QueueSubscriberStatus,
    pub has_current_subscriber: Option<bool>,
}

impl View for QueueObserveState {
    type V = QueueView;

    open spec fn view(&self) -> QueueView {
        QueueView {
            queue: self.queue@,
            depth: self.depth as nat,
            pending: self.pending as nat,
            in_flight: self.in_flight as nat,
            retrying: self.retrying as nat,
            oldest_pending_age_ms: self.oldest_pending_age_ms,
            subscriber_status: self.subscriber_status,
            has_current_subscriber: self.has_current_subscriber,
        }
    }
}

/// How many deliveries of a queue are as far as a status says.
pub open spec fn count_of(
    ds: Seq<DeliveryView>,
    queue: Seq<char>,
    status: DeliveryObserveStatus,
    now_ms: u64,
) -> nat
    decreases ds.len(),
{
    if ds.len() == 0 {
        0
    } else {
        count_of(ds.drop_last(), queue, status, now_ms) + if ds.last().queue == queue && status_of(
            ds.last(),
            now_ms,
        ) == status {
            1nat
        } else {
            0nat
        }
    }
}

/// The earliest time from which a pending delivery of a queue is due.
pub open spec fn oldest_of(ds: Seq<DeliveryView>, queue: Seq<char>, now_ms: u64) -> Option<u64>
    decreases ds.len(),
{
    if ds.len() == 0 {
        None
    } else {
        let before = oldest_of(ds.drop_last(), queue, now_ms);
        if ds.last().queue == queue && status_of(ds.last(), now_ms)
            == DeliveryObserveStatus::Pending {
            match before {
                Some(oldest) => if oldest <= ds.last().not_before_ms {
                    Some(oldest)
                } else {
                    Some(ds.last().not_before_ms)
                },
                None => Some(ds.last().not_before_ms),
            }
        } else {
            before
        }
    }
}

pub open spec fn subscribers_view(queues: Option<Vec<String>>) -> Option<Seq<Seq<char>>> {
    match queues {
        Some(v) => Some(texts_view(v@)),
        None => None,
    }
}

pub open spec fn subscriber_status_of(
    queue: Seq<char>,
    subscribers: Option<Seq<Seq<char>>>,
) -> QueueSubscriberStatus {
    match subscribers {
        Some(queues) => if queues.contains(queue) {
            QueueSubscriberStatus::Current
        } else {
            QueueSubscriberStatus::Absent
        },
        None => QueueSubscriberStatus::Unknown,
    }
}

/// What is told of a queue, from the deliveries of all.
pub open spec fn queue_of(
    ds: Seq<DeliveryView>,
    queue: Seq<char>,
    now_ms: u64,
    subscribers: Option<Seq<Seq<char>>>,
) -> QueueView {
    let pending = count_of(ds, queue, DeliveryObserveStatus::Pending, now_ms);
    let in_flight = count_of(ds, queue, DeliveryObserveStatus::InFlight, now_ms);
    let retrying = count_of(ds, queue, DeliveryObserveStatus::Retrying, now_ms);
    let status = subscriber_status_of(queue, subscribers);
    QueueView {
        queue,
        depth: pending + in_flight + retrying,
        pending,
        in_flight,
        retrying,
        oldest_pending_age_ms: match oldest_of(ds, queue, now_ms) {
            Some(oldest) => Some(
                if now_ms >= oldest {
                    (now_ms - oldest) as u64
                } else {
                    0u64
                },
            ),
            None => None,
        },
        subscriber_status: status,
        has_current_subscriber: match status {
            QueueSubscriberStatus::Current => Some(true),
            QueueSubscriberStatus::Absent => Some(false),
            QueueSubscriberStatus::Unknown => None,
        },
    }
}

proof fn lemma_counts_are_bounded(ds: Seq<DeliveryView>, queue: Seq<char>, now_ms: u64)
    ensures
        count_of(ds, queue, DeliveryObserveStatus::Pending, now_ms) + count_of(
            ds,
            queue,
            DeliveryObserveStatus::InFlight,
            now_ms,
        ) + count_of(ds, queue, DeliveryObserveStatus::Retrying, now_ms) <= ds.len(),
    decreases ds.len(),
{
    if ds.len() > 0 {
        lemma_counts_are_bounded(ds.drop_last(), queue, now_ms);
    }
}

/// A queue that no delivery is in has nothing in it.
proof fn lemma_no_delivery(ds: Seq<DeliveryView>, queue: Seq<char>, now_ms: u64)
    requires
        forall|i: int| 0 <= i < ds.len() ==> (#[trigger] ds[i]).queue != queue,
    ensures
        count_of(ds, queue, DeliveryObserveStatus::Pending, now_ms) == 0,
        count_of(ds, queue, DeliveryObserveStatus::InFlight, now_ms) == 0,
        count_of(ds, queue, DeliveryObserveStatus::Retrying, now_ms) == 0,
        oldest_of(ds, queue, now_ms) is None,
    decreases ds.len(),
{
    if ds.len() > 0 {
        assert forall|i: int| 0 <= i < ds.drop_last().len() implies (
        #[trigger] ds.drop_last()[i]).queue != queue by {
            assert(ds.drop_last()[i] == ds[i]);
        }
        lemma_no_delivery(ds.drop_last(), queue, now_ms);
        assert(ds.last() == ds[ds.len() - 1]);
    }
}

/// What has been counted of a queue.
struct QueueAccumulator {
    queue: String,
    pending: usize,
    in_flight: usize,
    retrying: usize,
    oldest_pending_ms: Option<u64>,
}

spec fn counted(a: QueueAccumulator, ds: Seq<DeliveryView>, now_ms: u64) -> bool {
    &&& a.pending == count_of(ds, a.queue@, DeliveryObserveStatus::Pending, now_ms)
    &&& a.in_flight == count_of(ds, a.queue@, DeliveryObserveStatus::InFlight, now_ms)
    &&& a.retrying == count_of(ds, a.queue@, DeliveryObserveStatus::Retrying, now_ms)
    &&& a.oldest_pending_ms == oldest_of(ds, a.queue@, now_ms)
}

impl QueueAccumulator {
    fn observe_delivery(&mut self, record: &DeliveryRecord, now_ms: u64, Ghost(before): Ghost<
        Seq<DeliveryView>,
    >)
        requires
            counted(*old(self), before, now_ms),
            record@.queue == old(self).queue@,
            before.len() < usize::MAX,
        ensures
            final(self).queue@ == old(self).queue@,
            counted(*final(self), before.push(record@), now_ms),
    {
        proof {
            lemma_counts_are_bounded(before, self.queue@, now_ms);
            assert(before.push(record@).drop_last() =~= before);
        }
        match delivery_status(record, now_ms) {
            DeliveryObserveStatus::Pending => {
                self.pending = self.pending + 1;
                let oldest: u64 = match self.oldest_pending_ms {
                    Some(oldest) => if oldest <= record.not_before_ms {
                        oldest
                    } else {
                        record.not_before_ms
                    },
                    None => record.not_before_ms,
                };
                self.oldest_pending_ms = Some(oldest);
            },
            DeliveryObserveStatus::InFlight => {
                self.in_flight = self.in_flight + 1;
            },
            DeliveryObserveStatus::Retrying => {
                self.retrying = self.retrying + 1;
            },
        }
    }

    fn finish(self, now_ms: u64, subscribers: &Option<Vec<String>>, Ghost(ds): Ghost<
        Seq<DeliveryView>,
    >) -> (r: QueueObserveState)
        requires
            counted(self, ds, now_ms),
            ds.len() <= usize::MAX,
        ensures
            r@ == queue_of(ds, self.queue@, now_ms, subscribers_view(*subscribers)),
    {
        proof {
            lemma_counts_are_bounded(ds, self.queue@, now_ms);
        }
        let subscriber_status: QueueSubscriberStatus = match subscribers {
            Some(queues) => if list_holds(queues, self.queue.as_str()) {
                QueueSubscriberStatus::Current
            } else {
                QueueSubscriberStatus::Absent
            },
            None => QueueSubscriberStatus::Unknown,
        };
        QueueObserveState {
            depth: self.pending.saturating_add(self.in_flight).saturating_add(self.retrying),
            pending: self.pending,
            in_flight: self.in_flight,
            retrying: self.retrying,
            oldest_pending_age_ms: match self.oldest_pending_ms {
                Some(oldest) => Some(now_ms.saturating_sub(oldest)),
                None => None,
            },
            subscriber_status,
            has_current_subscriber: match subscriber_status {
                QueueSubscriberStatus::Current => Some(true),
                QueueSubscriberStatus::Absent => Some(false),
                QueueSubscriberStatus::Unknown => None,
            },
            queue: self.queue,
        }
    }
}

pub open spec fn queue_views(v: Seq<QueueObserveState>) -> Seq<QueueView> {
    Seq::new(v.len(), |i: int| v[i]@)
}

/// What is told of the queues of deliveries: one state for every queue, in the order of their
/// names.
pub open spec fn queues_of(
    states: Seq<QueueView>,
    ds: Seq<DeliveryView>,
    now_ms: u64,
    subscribers: Option<Seq<Seq<char>>>,
) -> bool {
    &&& forall|i: int, j: int|
        0 <= i < j < states.len() ==> text_less(
            (#[trigger] states[i]).queue,
            (#[trigger] states[j]).queue,
        )
    &&& forall|i: int|
        0 <= i < states.len() ==> #[trigger] states[i] == queue_of(
            ds,
            states[i].queue,
            now_ms,
            subscribers,
        )
    &&& forall|i: int|
        0 <= i < states.len() ==> names_queue(ds, (#[trigger] states[i]).queue)
    &&& forall|i: int|
        0 <= i < ds.len() ==> exists|j: int|
            0 <= j < states.len() && (#[trigger] states[j]).queue == (#[trigger] ds[i]).queue
}

/// Whether a delivery is in a queue.
pub open spec fn names_queue(ds: Seq<DeliveryView>, queue: Seq<char>) -> bool {
    exists|i: int| 0 <= i < ds.len() && (#[trigger] ds[i]).queue == queue
}

spec fn names(accs: Seq<QueueAccumulator>) -> Seq<Seq<char>> {
    Seq::new(accs.len(), |i: int| accs[i].queue@)
}

spec fn tallied(accs: Seq<QueueAccumulator>, ds: Seq<DeliveryView>, now_ms: u64) -> bool {
    &&& ascending(names(accs))
    &&& forall|i: int| 0 <= i < accs.len() ==> counted(#[trigger] accs[i], ds, now_ms)
    &&& forall|i: int| 0 <= i < accs.len() ==> names_queue(ds, #[trigger] names(accs)[i])
    &&& forall|i: int| 0 <= i < ds.len() ==> names(accs).contains((#[trigger] ds[i]).queue)
}

/// A delivery of another queue changes nothing that is counted of a queue.
proof fn lemma_counted_other(a: QueueAccumulator, ds: Seq<DeliveryView>, d: DeliveryView, now_ms: u64)
    requires
        counted(a, ds, now_ms),
        a.queue@ != d.queue,
    ensures
        counted(a, ds.push(d), now_ms),
{
    assert(ds.push(d).drop_last() =~= ds);
    assert(ds.push(d).last() == d);
}

proof fn lemma_still_named(ds: Seq<DeliveryView>, d: DeliveryView, queue: Seq<char>)
    ensures
        names_queue(ds, queue) ==> names_queue(ds.push(d), queue),
        names_queue(ds.push(d), d.queue),
{
    assert(ds.push(d)[ds.len() as int].queue == d.queue);
    if names_queue(ds, queue) {
        let k = choose|k: int| 0 <= k < ds.len() && (#[trigger] ds[k]).queue == queue;
        assert(ds.push(d)[k].queue == queue);
    }
}

/// Names stay in order when one is put where it belongs.
proof fn lemma_ascending_insert(s: Seq<Seq<char>>, at: int, x: Seq<char>)
    requires
        ascending(s),
        0 <= at <= s.len(),
        forall|j: int| 0 <= j < at ==> text_less(#[trigger] s[j], x),
        forall|j: int| at <= j < s.len() ==> text_less(x, #[trigger] s[j]),
    ensures
        ascending(s.insert(at, x)),
{
    let t = s.insert(at, x);
    assert forall|i: int, j: int| 0 <= i < j < t.len() implies text_less(
        #[trigger] t[i],
        #[trigger] t[j],
    ) by {
        let a = if i < at {
            i
        } else {
            i - 1
        };
        let b = if j < at {
            j
        } else {
            j - 1
        };
        if i == at {
            assert(t[j] == s[b]);
        } else if j == at {
            assert(t[i] == s[a]);
        } else {
            assert(t[i] == s[a] && t[j] == s[b]);
        }
    }
}

proof fn lemma_tally_update(
    had: Seq<QueueAccumulator>,
    now: Seq<QueueAccumulator>,
    at: int,
    ds: Seq<DeliveryView>,
    d: DeliveryView,
    now_ms: u64,
)
    requires
        tallied(had, ds, now_ms),
        0 <= at < had.len(),
        had[at].queue@ == d.queue,
        now == had.update(at, now[at]),
        now[at].queue@ == d.queue,
        counted(now[at], ds.push(d), now_ms),
    ensures
        tallied(now, ds.push(d), now_ms),
{
    assert(names(now) =~= names(had));
    assert forall|i: int| 0 <= i < now.len() implies counted(
        #[trigger] now[i],
        ds.push(d),
        now_ms,
    ) by {
        if i != at {
            lemma_ascending_differ(names(had), i, at);
            assert(names(had)[i] == had[i].queue@ && names(had)[at] == d.queue);
            lemma_counted_other(had[i], ds, d, now_ms);
        }
    }
    assert forall|i: int| 0 <= i < now.len() implies names_queue(
        ds.push(d),
        #[trigger] names(now)[i],
    ) by {
        lemma_still_named(ds, d, names(had)[i]);
    }
    assert forall|i: int| 0 <= i < ds.push(d).len() implies names(now).contains(
        (#[trigger] ds.push(d)[i]).queue,
    ) by {
        if i < ds.len() {
            assert(ds.push(d)[i] == ds[i]);
        } else {
            assert(names(now)[at] == d.queue);
        }
    }
}

proof fn lemma_ascending_differ(s: Seq<Seq<char>>, i: int, j: int)
    requires
        ascending(s),
        0 <= i < s.len(),
        0 <= j < s.len(),
        i != j,
    ensures
        s[i] != s[j],
{
    crate::order::lemma_less_irreflexive(s[i]);
    if i < j {
        assert(text_less(s[i], s[j]));
    } else {
        assert(text_less(s[j], s[i]));
    }
}

proof fn lemma_tally_insert(
    had: Seq<QueueAccumulator>,
    now: Seq<QueueAccumulator>,
    at: int,
    ds: Seq<DeliveryView>,
    d: DeliveryView,
    now_ms: u64,
)
    requires
        tallied(had, ds, now_ms),
        0 <= at <= had.len(),
        now == had.insert(at, now[at]),
        now[at].queue@ == d.queue,
        counted(now[at], ds.push(d), now_ms),
        forall|j: int| 0 <= j < at ==> text_less(#[trigger] names(had)[j], d.queue),
        forall|j: int| at <= j < had.len() ==> text_less(d.queue, #[trigger] names(had)[j]),
    ensures
        tallied(now, ds.push(d), now_ms),
{
    assert(names(now) =~= names(had).insert(at, d.queue));
    lemma_ascending_insert(names(had), at, d.queue);
    assert forall|i: int| 0 <= i < now.len() implies counted(
        #[trigger] now[i],
        ds.push(d),
        now_ms,
    ) by {
        if i != at {
            let a = if i < at {
                i
            } else {
                i - 1
            };
            assert(now[i] == had[a]);
            lemma_ascending_differ(names(now), i, at);
            assert(names(now)[i] == now[i].queue@);
            lemma_counted_other(had[a], ds, d, now_ms);
        }
    }
    assert forall|i: int| 0 <= i < now.len() implies names_queue(
        ds.push(d),
        #[trigger] names(now)[i],
    ) by {
        lemma_still_named(ds, d, names(now)[i]);
        if i < at {
            assert(names(now)[i] == names(had)[i]);
        } else if i > at {
            assert(names(now)[i] == names(had)[i - 1]);
        }
    }
    assert forall|i: int| 0 <= i < ds.push(d).len() implies names(now).contains(
        (#[trigger] ds.push(d)[i]).queue,
    ) by {
        if i < ds.len() {
            assert(ds.push(d)[i] == ds[i]);
            let j = choose|j: int| 0 <= j < names(had).len() && names(had)[j] == ds[i].queue;
            if j < at {
                assert(names(now)[j] == ds[i].queue);
            } else {
                assert(names(now)[j + 1] == ds[i].queue);
            }
        } else {
            assert(names(now)[at] == d.queue);
        }
    }
}

/// Counts what is in the queues of deliveries.
pub fn observe_queues(
    records: &Vec<DeliveryRecord>,
    now_ms: u64,
    subscribers: &Option<Vec<String>>,
) -> (r: Vec<QueueObserveState>)
    ensures
        queues_of(
            queue_views(r@),
            delivery_views(records@),
            now_ms,
            subscribers_view(*subscribers),
        ),
{
    let ghost ds = delivery_views(records@);
    let len: usize = records.len();
    let mut accs: Vec<QueueAccumulator> = Vec::new();
    let mut i: usize = 0;
    while i < len
        invariant
            len == records@.len(),
            ds == delivery_views(records@),
            i <= len,
            tallied(accs@, ds.take(i as int), now_ms),
        decreases len - i,
    {
        let record: &DeliveryRecord = &records[i];
        let ghost front = ds.take(i as int);
        let ghost had = accs@;
        let mut at: usize = 0;
        while at < accs.len() && less_text(accs[at].queue.as_str(), record.queue.as_str())
            invariant
                accs@ == had,
                at <= had.len(),
                forall|j: int|
                    0 <= j < at ==> text_less(#[trigger] names(had)[j], record@.queue),
            decreases had.len() - at,
        {
            assert(names(had)[at as int] == had[at as int].queue@);
            at = at + 1;
        }
        if at < accs.len() && same_text(accs[at].queue.as_str(), record.queue.as_str()) {
            let mut acc: QueueAccumulator = accs.remove(at);
            acc.observe_delivery(record, now_ms, Ghost(front));
            accs.insert(at, acc);
            proof {
                assert(accs@ =~= had.update(at as int, accs@[at as int]));
                lemma_tally_update(had, accs@, at as int, front, record@, now_ms);
            }
        } else {
            let mut acc: QueueAccumulator = QueueAccumulator {
                queue: copy_text(record.queue.as_str()),
                pending: 0,
                in_flight: 0,
                retrying: 0,
                oldest_pending_ms: None,
            };
            proof {
                let known = names(had);
                assert forall|j: int| at <= j < had.len() implies text_less(
                    record@.queue,
                    #[trigger] known[j],
                ) by {
                    assert(known[at as int] == had[at as int].queue@);
                    lemma_less_total(known[at as int], record@.queue);
                    if j > at {
                        assert(text_less(known[at as int], known[j]));
                        crate::order::lemma_less_transitive(
                            record@.queue,
                            known[at as int],
                            known[j],
                        );
                    }
                }
                assert forall|k: int| 0 <= k < front.len() implies (#[trigger] front[k]).queue
                    != record@.queue by {
                    assert(known.contains(front[k].queue));
                    let j = choose|j: int| 0 <= j < known.len() && known[j] == front[k].queue;
                    crate::order::lemma_less_irreflexive(record@.queue);
                }
                lemma_no_delivery(front, record@.queue, now_ms);
            }
            acc.observe_delivery(record, now_ms, Ghost(front));
            accs.insert(at, acc);
            proof {
                assert(accs@ =~= had.insert(at as int, accs@[at as int]));
                lemma_tally_insert(had, accs@, at as int, front, record@, now_ms);
            }
        }
        proof {
            assert(ds.take(i + 1) =~= front.push(record@));
        }
        i = i + 1;
    }
    assert(ds.take(ds.len() as int) =~= ds);
    let ghost all = accs@;
    let mut out: Vec<QueueObserveState> = Vec::new();
    let mut rest: Vec<QueueAccumulator> = accs;
    while rest.len() > 0
        invariant
            ds.len() == len,
            tallied(all, ds, now_ms),
            rest@.len() + out@.len() == all.len(),
            rest@ == all.skip(out@.len() as int),
            forall|k: int|
                0 <= k < out@.len() ==> (#[trigger] out@[k])@ == queue_of(
                    ds,
                    all[k].queue@,
                    now_ms,
                    subscribers_view(*subscribers),
                ),
        decreases rest@.len(),
    {
        let ghost at = out@.len() as int;
        let acc: QueueAccumulator = rest.remove(0);
        assert(acc == all[at]);
        assert(rest@ =~= all.skip(at + 1));
        let state: QueueObserveState = acc.finish(now_ms, subscribers, Ghost(ds));
        out.push(state);
    }
    proof {
        let states = queue_views(out@);
        let subs = subscribers_view(*subscribers);
        assert forall|k: int| 0 <= k < states.len() implies #[trigger] states[k] == queue_of(
            ds,
            all[k].queue@,
            now_ms,
            subs,
        ) by {
            assert(states[k] == out@[k]@);
        }
        assert forall|k: int| 0 <= k < ds.len() implies exists|j: int|
            0 <= j < states.len() && (#[trigger] states[j]).queue == (#[trigger] ds[k]).queue by {
            assert(names(all).contains(ds[k].queue));
            let j = choose|j: int| 0 <= j < names(all).len() && names(all)[j] == ds[k].queue;
            assert(states[j].queue == all[j].queue@);
        }
        assert forall|a: int, b: int| 0 <= a < b < states.len() implies text_less(
            (#[trigger] states[a]).queue,
            (#[trigger] states[b]).queue,
        ) by {
            assert(states[a].queue == names(all)[a] && states[b].queue == names(all)[b]);
        }
        assert forall|k: int| 0 <= k < states.len() implies names_queue(
            ds,
            (#[trigger] states[k]).queue,
        ) by {
            assert(states[k].queue == names(all)[k]);
        }
    }
    out
}

// The order in which deliveries are told.

/// By queue, department, due time and id.
pub open spec fn told_before(a: DeliveryView, b: DeliveryView) -> bool {
    if a.queue != b.queue {
        text_less(a.queue, b.queue)
    } else if a.dept != b.dept {
        text_less(a.dept, b.dept)
    } else if a.not_before_ms != b.not_before_ms {
        a.not_before_ms < b.not_before_ms
    } else {
        text_at_most(a.delivery_id, b.delivery_id)
    }
}

impl Ordered for DeliveryRecord {
    open spec fn le(&self, other: &Self) -> bool {
        told_before(self@, other@)
    }

    fn at_most(&self, other: &Self) -> (r: bool) {
        if !same_text(self.queue.as_str(), other.queue.as_str()) {
            less_text(self.queue.as_str(), other.queue.as_str())
        } else if !same_text(self.dept.as_str(), other.dept.as_str()) {
            less_text(self.dept.as_str(), other.dept.as_str())
        } else if self.not_before_ms != other.not_before_ms {
            self.not_before_ms < other.not_before_ms
        } else {
            proof {
                lemma_less_total(self.delivery_id@, other.delivery_id@);
            }
            !less_text(other.delivery_id.as_str(), self.delivery_id.as_str())
        }
    }

    proof fn lemma_total(a: &Self, b: &Self) {
        lemma_less_total(a.queue@, b.queue@);
        lemma_less_total(a.dept@, b.dept@);
        lemma_less_total(a.delivery_id@, b.delivery_id@);
    }

    proof fn lemma_transitive(a: &Self, b: &Self, c: &Self) {
        lemma_at_most_transitive(a.queue@, b.queue@, c.queue@);
        lemma_at_most_transitive(a.dept@, b.dept@, c.dept@);
        lemma_at_most_transitive(a.delivery_id@, b.delivery_id@, c.delivery_id@);
        lemma_less_total(a.queue@, b.queue@);
        lemma_less_total(b.queue@, c.queue@);
        lemma_less_total(a.queue@, c.queue@);
        lemma_less_total(a.dept@, b.dept@);
        lemma_less_total(b.dept@, c.dept@);
        lemma_less_total(a.dept@, c.dept@);
    }
}

/// By the time of death and the id.
pub open spec fn died_before(a: DeadView, b: DeadView) -> bool {
    if a.dead_at_ms != b.dead_at_ms {
        a.dead_at_ms < b.dead_at_ms
    } else {
        text_at_most(a.delivery_id, b.delivery_id)
    }
}

impl Ordered for DeadRecord {
    open spec fn le(&self, other: &Self) -> bool {
        died_before(self@, other@)
    }

    fn at_most(&self, other: &Self) -> (r: bool) {
        if self.dead_at_ms != other.dead_at_ms {
            self.dead_at_ms < other.dead_at_ms
        } else {
            proof {
                lemma_less_total(self.delivery_id@, other.delivery_id@);
            }
            !less_text(other.delivery_id.as_str(), self.delivery_id.as_str())
        }
    }

    proof fn lemma_total(a: &Self, b: &Self) {
        lemma_less_total(a.delivery_id@, b.delivery_id@);
    }

    proof fn lemma_transitive(a: &Self, b: &Self, c: &Self) {
        lemma_at_most_transitive(a.delivery_id@, b.delivery_id@, c.delivery_id@);
    }
}

pub open spec fn told_in_order(s: Seq<DeliveryView>) -> bool {
    forall|i: int, j: int| 0 <= i < j < s.len() ==> told_before(#[trigger] s[i], #[trigger] s[j])
}

pub open spec fn died_in_order(s: Seq<DeadView>) -> bool {
    forall|i: int, j: int| 0 <= i < j < s.len() ==> died_before(#[trigger] s[i], #[trigger] s[j])
}

/// The same deliveries in the order in which they are told.
pub open spec fn ordered_deliveries(s: Seq<DeliveryView>, of: Seq<DeliveryView>) -> bool {
    told_in_order(s) && s.to_multiset() == of.to_multiset()
}

/// The same dead deliveries in the order in which they are told.
pub open spec fn ordered_dead(s: Seq<DeadView>, of: Seq<DeadView>) -> bool {
    died_in_order(s) && s.to_multiset() == of.to_multiset()
}

fn sort_deliveries(records: Vec<DeliveryRecord>) -> (r: Vec<DeliveryRecord>)
    ensures
        ordered_deliveries(delivery_views(r@), delivery_views(records@)),
        r@.len() == records@.len(),
{
    let ghost before = records@;
    let out: Vec<DeliveryRecord> = sort(records);
    proof {
        let f = |d: DeliveryRecord| d@;
        lemma_rearranged_map(out@, before, f);
        assert(out@.map_values(f) =~= delivery_views(out@));
        assert(before.map_values(f) =~= delivery_views(before));
        assert(sorted(out@));
        assert forall|i: int, j: int| 0 <= i < j < out@.len() implies told_before(
            #[trigger] delivery_views(out@)[i],
            #[trigger] delivery_views(out@)[j],
        ) by {
            assert(out@[i].le(&out@[j]));
        }
    }
    out
}

fn sort_dead(records: Vec<DeadRecord>) -> (r: Vec<DeadRecord>)
    ensures
        ordered_dead(dead_views(r@), dead_views(records@)),
        r@.len() == records@.len(),
{
    let ghost before = records@;
    let out: Vec<DeadRecord> = sort(records);
    proof {
        let f = |d: DeadRecord| d@;
        lemma_rearranged_map(out@, before, f);
        assert(out@.map_values(f) =~= dead_views(out@));
        assert(before.map_values(f) =~= dead_views(before));
        assert(sorted(out@));
        assert forall|i: int, j: int| 0 <= i < j < out@.len() implies died_before(
            #[trigger] dead_views(out@)[i],
            #[trigger] dead_views(out@)[j],
        ) by {
            assert(out@[i].le(&out@[j]));
        }
    }
    out
}

// What is asked for.

/// The times between which dead deliveries are asked for; the end does not count.
#[derive(Clone, Copy, Debug, PartialEq, Eq, Structural)]
pub struct DeadLetterWindow {
    pub start_ms: u64,
    pub end_ms: u64,
}

/// The dead delivery behind which a page starts.
#[derive(Debug)]
pub struct DeadLetterPageCursor {
    pub dead_at_ms: u64,
    pub delivery_id: String,
}

pub struct CursorView {
    pub dead_at_ms: u64,
    pub delivery_id: Seq<char>,
}

impl View for DeadLetterPageCursor {
    type V = CursorView;

    open spec fn view(&self) -> CursorView {
        CursorView { dead_at_ms: self.dead_at_ms, delivery_id: self.delivery_id@ }
    }
}

pub open spec fn cursor_view(c: Option<DeadLetterPageCursor>) -> Option<CursorView> {
    match c {
        Some(c) => Some(c@),
        None => None,
    }
}

/// A page of dead deliveries.
#[derive(Debug)]
pub struct DeadLetterPageOptions {
    pub after: Option<DeadLetterPageCursor>,
}

#[derive(Debug)]
pub struct DeliveryObserveOptions {
    pub now_ms: u64,
    pub limit: usize,
    pub since: Option<String>,
    pub dead_letter_page: Option<DeadLetterPageOptions>,
    pub dead_letter_window: Option<DeadLetterWindow>,
    pub current_subscriber_queues: Option<Vec<String>>,
}

impl DeliveryObserveOptions {
    /// The dead delivery behind which what is told starts.
    pub open spec fn after(self) -> Option<CursorView> {
        match self.dead_letter_page {
            Some(page) => cursor_view(page.after),
            None => None,
        }
    }
}

/// Whether a dead delivery is asked for.
pub open spec fn asked_for(
    d: DeadView,
    window: Option<DeadLetterWindow>,
    after: Option<CursorView>,
) -> bool {
    &&& window matches Some(w) ==> w.start_ms <= d.dead_at_ms < w.end_ms
    &&& after matches Some(c) ==> c.dead_at_ms < d.dead_at_ms || (c.dead_at_ms == d.dead_at_ms
        && text_less(c.delivery_id, d.delivery_id))
}

/// The dead deliveries that are asked for.
pub open spec fn dead_asked_for(
    all: Seq<DeadView>,
    window: Option<DeadLetterWindow>,
    after: Option<CursorView>,
) -> Seq<DeadView>
    decreases all.len(),
{
    if all.len() == 0 {
        Seq::empty()
    } else {
        let front = dead_asked_for(all.drop_last(), window, after);
        if asked_for(all.last(), window, after) {
            front.push(all.last())
        } else {
            front
        }
    }
}

fn is_asked_for(
    d: &DeadRecord,
    window: &Option<DeadLetterWindow>,
    after: &Option<DeadLetterPageCursor>,
) -> (r: bool)
    ensures
        r == asked_for(d@, *window, cursor_view(*after)),
{
    let inside: bool = match window {
        Some(w) => w.start_ms <= d.dead_at_ms && d.dead_at_ms < w.end_ms,
        None => true,
    };
    let behind: bool = match after {
        Some(c) => c.dead_at_ms < d.dead_at_ms || (c.dead_at_ms == d.dead_at_ms && less_text(
            c.delivery_id.as_str(),
            d.delivery_id.as_str(),
        )),
        None => true,
    };
    inside && behind
}

fn keep_asked_for(
    all: Vec<DeadRecord>,
    window: &Option<DeadLetterWindow>,
    after: &Option<DeadLetterPageCursor>,
) -> (r: Vec<DeadRecord>)
    ensures
        dead_views(r@) == dead_asked_for(dead_views(all@), *window, cursor_view(*after)),
{
    let ghost views = dead_views(all@);
    let len: usize = all.len();
    let mut rest: Vec<DeadRecord> = all;
    let mut out: Vec<DeadRecord> = Vec::new();
    let mut i: usize = 0;
    assert(dead_views(out@) =~= Seq::<DeadView>::empty());
    assert(views.skip(0) =~= views);
    while i < len
        invariant
            len == views.len(),
            i <= len,
            dead_views(rest@) == views.skip(i as int),
            dead_views(out@) == dead_asked_for(
                views.take(i as int),
                *window,
                cursor_view(*after),
            ),
        decreases len - i,
    {
        let ghost had = dead_views(out@);
        let ghost left = rest@;
        assert(dead_views(rest@).len() == len - i);
        let d: DeadRecord = rest.remove(0);
        proof {
            assert(dead_views(left)[0] == views[i as int]);
            assert(d@ == views[i as int]);
            assert(dead_views(rest@) =~= views.skip(i + 1)) by {
                assert forall|k: int| 0 <= k < rest@.len() implies #[trigger] rest@[k]@
                    == views.skip(i + 1)[k] by {
                    assert(rest@[k] == left[k + 1]);
                    assert(dead_views(left)[k + 1] == views.skip(i as int)[k + 1]);
                }
            }
            assert(views.take(i + 1).drop_last() =~= views.take(i as int));
        }
        if is_asked_for(&d, window, after) {
            let ghost v = d@;
            out.push(d);
            assert(dead_views(out@) =~= had.push(v));
        }
        i = i + 1;
    }
    assert(views.take(len as int) =~= views);
    out
}

// Where to go on.

/// What stands behind the first delivery with an id.
pub open spec fn behind(s: Seq<DeliveryView>, id: Seq<char>) -> Option<Seq<DeliveryView>>
    decreases s.len(),
{
    if s.len() == 0 {
        None
    } else if s[0].delivery_id == id {
        Some(s.drop_first())
    } else {
        behind(s.drop_first(), id)
    }
}

/// What is told where an id is known already: what stands behind it, or everything where it is not
/// found.
pub open spec fn told_since(s: Seq<DeliveryView>, since: Option<Seq<char>>) -> Seq<DeliveryView> {
    match since {
        Some(id) => match behind(s, id) {
            Some(rest) => rest,
            None => s,
        },
        None => s,
    }
}

/// What stands behind the first dead delivery with an id.
pub open spec fn dead_behind(s: Seq<DeadView>, id: Seq<char>) -> Option<Seq<DeadView>>
    decreases s.len(),
{
    if s.len() == 0 {
        None
    } else if s[0].delivery_id == id {
        Some(s.drop_first())
    } else {
        dead_behind(s.drop_first(), id)
    }
}

pub open spec fn dead_told_since(s: Seq<DeadView>, since: Option<Seq<char>>) -> Seq<DeadView> {
    match since {
        Some(id) => match dead_behind(s, id) {
            Some(rest) => rest,
            None => s,
        },
        None => s,
    }
}

fn trim_deliveries_after_cursor(entries: Vec<DeliveryRecord>, since: &Option<String>) -> (r: Vec<
    DeliveryRecord,
>)
    ensures
        delivery_views(r@) == told_since(delivery_views(entries@), text_view(*since)),
{
    let ghost views = delivery_views(entries@);
    let id: &str = match since {
        Some(id) => id.as_str(),
        None => return entries,
    };
    let mut at: usize = 0;
    assert(views.skip(0) =~= views);
    while at < entries.len() && !same_text(entries[at].delivery_id.as_str(), id)
        invariant
            views == delivery_views(entries@),
            at <= entries@.len(),
            behind(views, id@) == behind(views.skip(at as int), id@),
        decreases entries@.len() - at,
    {
        proof {
            assert(views.skip(at as int)[0] == entries@[at as int]@);
            assert(views.skip(at as int).drop_first() =~= views.skip(at + 1));
        }
        at = at + 1;
    }
    if at == entries.len() {
        assert(views.skip(at as int).len() == 0);
        return entries;
    }
    let mut all: Vec<DeliveryRecord> = entries;
    let rest: Vec<DeliveryRecord> = all.split_off(at + 1);
    proof {
        assert(views.skip(at as int)[0] == entries@[at as int]@);
        assert(views.skip(at as int).drop_first() =~= delivery_views(rest@));
    }
    rest
}

fn trim_dead_letters_after_cursor(entries: Vec<DeadRecord>, since: &Option<String>) -> (r: Vec<
    DeadRecord,
>)
    ensures
        dead_views(r@) == dead_told_since(dead_views(entries@), text_view(*since)),
{
    let ghost views = dead_views(entries@);
    let id: &str = match since {
        Some(id) => id.as_str(),
        None => return entries,
    };
    let mut at: usize = 0;
    assert(views.skip(0) =~= views);
    while at < entries.len() && !same_text(entries[at].delivery_id.as_str(), id)
        invariant
            views == dead_views(entries@),
            at <= entries@.len(),
            dead_behind(views, id@) == dead_behind(views.skip(at as int), id@),
        decreases entries@.len() - at,
    {
        proof {
            assert(views.skip(at as int)[0] == entries@[at as int]@);
            assert(views.skip(at as int).drop_first() =~= views.skip(at + 1));
        }
        at = at + 1;
    }
    if at == entries.len() {
        assert(views.skip(at as int).len() == 0);
        return entries;
    }
    let mut all: Vec<DeadRecord> = entries;
    let rest: Vec<DeadRecord> = all.split_off(at + 1);
    proof {
        assert(views.skip(at as int)[0] == entries@[at as int]@);
        assert(views.skip(at as int).drop_first() =~= dead_views(rest@));
    }
    rest
}

/// The first of a list, up to a limit.
pub open spec fn up_to<T>(s: Seq<T>, limit: nat) -> Seq<T> {
    if s.len() <= limit {
        s
    } else {
        s.take(limit as int)
    }
}

/// Cuts a list down to a limit, and says whether anything was cut off.
fn apply_limit<T>(entries: &mut Vec<T>, limit: usize) -> (r: bool)
    ensures
        final(entries)@ == up_to(old(entries)@, limit as nat),
        r == (old(entries)@.len() > limit),
{
    if entries.len() <= limit {
        return false;
    }
    entries.truncate(limit);
    true
}

// The snapshot.

#[derive(Debug)]
pub struct DeliveryObserveSource {
    pub durable_root: String,
    pub database: String,
    pub read_semantics: String,
    pub history_semantics: String,
}

#[derive(Clone, Copy, Debug, PartialEq, Eq, Structural)]
pub struct DeliveryObserveLimits {
    pub max_deliveries: usize,
    pub max_dead_letters: usize,
}

#[derive(Clone, Copy, Debug, PartialEq, Eq, Structural)]
pub struct DeliveryObserveTruncated {
    pub deliveries: bool,
    pub dead_letters: bool,
}

/// Where the next page of dead deliveries starts, if there is one.
#[derive(Debug)]
pub struct DeliveryObservePage {
    pub section: String,
    pub next: Option<DeadLetterPageCursor>,
}

#[derive(Debug)]
pub struct DeliveryObserveSnapshot {
    pub schema_version: u32,
    pub generated_at_ms: u64,
    pub source: DeliveryObserveSource,
    pub limits: DeliveryObserveLimits,
    pub truncated: DeliveryObserveTruncated,
    pub dead_letters_complete: Option<bool>,
    pub queues: Vec<QueueObserveState>,
    pub deliveries: Vec<DeliveryObserveEntry>,
    pub dead_letters: Vec<DeadLetterObserveEntry>,
    pub page: Option<DeliveryObservePage>,
}

/// Why there is no snapshot.
#[derive(Debug)]
pub enum ObserveError {
    /// The storage failed.
    Storage(redb::Error),
    /// The id to go on from is empty.
    EmptyCursor,
    /// A page was asked for together with an id to go on from.
    PageWithCursor,
    /// The text of the payload of the delivery with this id is too long to be digested.
    OversizedPayload(String),
}

impl ObserveError {
    /// What is told of the error.
    pub fn message(&self) -> (r: String)
        ensures
            match *self {
                ObserveError::Storage(_) => true,
                ObserveError::EmptyCursor => r@ == "observe since cursor must not be empty"@,
                ObserveError::PageWithCursor => r@
                    == "fkst.observe page cannot be combined with since"@,
                ObserveError::OversizedPayload(id) => r@ == "payload too long to be digested: "@
                    + id@,
            },
    {
        match self {
            ObserveError::Storage(e) => storage_text(e),
            ObserveError::EmptyCursor => copy_text("observe since cursor must not be empty"),
            ObserveError::PageWithCursor => copy_text(
                "fkst.observe page cannot be combined with since",
            ),
            ObserveError::OversizedPayload(id) => {
                let mut out: String = copy_text("payload too long to be digested: ");
                out.append(id.as_str());
                out
            },
        }
    }
}

pub open spec fn entry_views(v: Seq<DeliveryObserveEntry>) -> Seq<EntryView> {
    Seq::new(v.len(), |i: int| v[i]@)
}

pub open spec fn dead_entry_views(v: Seq<DeadLetterObserveEntry>) -> Seq<DeadEntryView> {
    Seq::new(v.len(), |i: int| v[i]@)
}

pub open spec fn entries_of(ds: Seq<DeliveryView>, now_ms: u64) -> Seq<EntryView> {
    Seq::new(ds.len(), |i: int| entry_of(ds[i], now_ms))
}

pub open spec fn dead_entries_of(ds: Seq<DeadView>) -> Seq<DeadEntryView> {
    Seq::new(ds.len(), |i: int| dead_entry_of(ds[i]))
}

fn delivery_entries(records: &Vec<DeliveryRecord>, now_ms: u64) -> (r: Result<
    Vec<DeliveryObserveEntry>,
    ObserveError,
>)
    ensures
        match r {
            Ok(entries) => entry_views(entries@) == entries_of(delivery_views(records@), now_ms),
            Err(e) => e is OversizedPayload && exists|i: int|
                0 <= i < records@.len() && !digestible((#[trigger] records@[i])@.payload)
                    && records@[i]@.delivery_id == e->OversizedPayload_0@,
        },
{
    let mut out: Vec<DeliveryObserveEntry> = Vec::new();
    let mut i: usize = 0;
    while i < records.len()
        invariant
            i <= records@.len(),
            out@.len() == i,
            forall|k: int| 0 <= k < i ==> (#[trigger] out@[k])@ == entry_of(records@[k]@, now_ms),
        decreases records@.len() - i,
    {
        match delivery_observe_entry(&records[i], now_ms) {
            Some(entry) => {
                out.push(entry);
            },
            None => {
                assert(!digestible(records@[i as int]@.payload));
                return Err(
                    ObserveError::OversizedPayload(copy_text(records[i].delivery_id.as_str())),
                );
            },
        }
        i = i + 1;
    }
    assert(entry_views(out@) =~= entries_of(delivery_views(records@), now_ms));
    Ok(out)
}

fn dead_entries(records: &Vec<DeadRecord>) -> (r: Result<
    Vec<DeadLetterObserveEntry>,
    ObserveError,
>)
    ensures
        match r {
            Ok(entries) => dead_entry_views(entries@) == dead_entries_of(dead_views(records@)),
            Err(e) => e is OversizedPayload && exists|i: int|
                0 <= i < records@.len() && !digestible(dead_payload((#[trigger] records@[i])@))
                    && records@[i]@.delivery_id == e->OversizedPayload_0@,
        },
{
    let mut out: Vec<DeadLetterObserveEntry> = Vec::new();
    let mut i: usize = 0;
    while i < records.len()
        invariant
            i <= records@.len(),
            out@.len() == i,
            forall|k: int| 0 <= k < i ==> (#[trigger] out@[k])@ == dead_entry_of(records@[k]@),
        decreases records@.len() - i,
    {
        match dead_letter_observe_entry(&records[i]) {
            Some(entry) => {
                out.push(entry);
            },
            None => {
                assert(!digestible(dead_payload(records@[i as int]@)));
                return Err(
                    ObserveError::OversizedPayload(copy_text(records[i].delivery_id.as_str())),
                );
            },
        }
        i = i + 1;
    }
    assert(dead_entry_views(out@) =~= dead_entries_of(dead_views(records@)));
    Ok(out)
}

fn observe_source(durable_root: &str, database: &str) -> (r: DeliveryObserveSource)
    ensures
        is_source(r, durable_root@, database@),
{
    DeliveryObserveSource {
        durable_root: copy_text(durable_root),
        database: copy_text(database),
        read_semantics: copy_text(
            "single read transaction over the owner redb handle for live supervise snapshots or over an offline database open",
        ),
        history_semantics: copy_text(
            "delivery queue snapshot only; acked deliveries are removed and historical timelines require a journal",
        ),
    }
}

pub open spec fn is_source(
    source: DeliveryObserveSource,
    durable_root: Seq<char>,
    database: Seq<char>,
) -> bool {
    &&& source.durable_root@ == durable_root
    &&& source.database@ == database
    &&& source.read_semantics@
        == "single read transaction over the owner redb handle for live supervise snapshots or over an offline database open"@
    &&& source.history_semantics@
        == "delivery queue snapshot only; acked deliveries are removed and historical timelines require a journal"@
}

/// What the last dead delivery of a page says of where the next page starts.
pub open spec fn next_page(told: Seq<DeadView>, cut: bool) -> Option<CursorView> {
    if cut && told.len() > 0 {
        Some(
            CursorView {
                dead_at_ms: told.last().dead_at_ms,
                delivery_id: told.last().delivery_id,
            },
        )
    } else {
        None
    }
}

/// Whether a snapshot tells deliveries and dead deliveries that stand in order.
pub open spec fn tells(
    snapshot: DeliveryObserveSnapshot,
    told: Seq<DeliveryView>,
    dead_told: Seq<DeadView>,
    options: DeliveryObserveOptions,
) -> bool {
    let cut = dead_told.len() > options.limit;
    let shown = up_to(dead_told, options.limit as nat);
    &&& snapshot.truncated.deliveries == (told.len() > options.limit)
    &&& snapshot.truncated.dead_letters == cut
    &&& snapshot.dead_letters_complete == (if options.dead_letter_window is Some {
        Some(!cut)
    } else {
        None
    })
    &&& entry_views(snapshot.deliveries@) == entries_of(
        up_to(told, options.limit as nat),
        options.now_ms,
    )
    &&& dead_entry_views(snapshot.dead_letters@) == dead_entries_of(shown)
    &&& match snapshot.page {
        Some(page) => options.dead_letter_page is Some && page.section@ == "dead_letters"@
            && cursor_view(page.next) == next_page(shown, cut),
        None => options.dead_letter_page is None,
    }
}

/// Whether a snapshot tells what is asked for of deliveries and dead deliveries.
pub open spec fn observed(
    snapshot: DeliveryObserveSnapshot,
    live: Seq<DeliveryView>,
    gone: Seq<DeadView>,
    durable_root: Seq<char>,
    database: Seq<char>,
    options: DeliveryObserveOptions,
) -> bool {
    &&& snapshot.schema_version == 1
    &&& snapshot.generated_at_ms == options.now_ms
    &&& is_source(snapshot.source, durable_root, database)
    &&& snapshot.limits == (DeliveryObserveLimits {
        max_deliveries: options.limit,
        max_dead_letters: options.limit,
    })
    &&& queues_of(
        queue_views(snapshot.queues@),
        live,
        options.now_ms,
        subscribers_view(options.current_subscriber_queues),
    )
    &&& exists|told: Seq<DeliveryView>, dead_told: Seq<DeadView>|
        #![trigger ordered_deliveries(told, live), ordered_dead(dead_told, dead_asked_for(gone, options.dead_letter_window, options.after()))]
        ordered_deliveries(told, live) && ordered_dead(
            dead_told,
            dead_asked_for(gone, options.dead_letter_window, options.after()),
        ) && tells(
            snapshot,
            told_since(told, text_view(options.since)),
            dead_told_since(dead_told, text_view(options.since)),
            options,
        )
}

/// Whether the text of the payload of a delivery or of a dead delivery is too long.
pub open spec fn oversized(live: Seq<DeliveryView>, gone: Seq<DeadView>, id: Seq<char>) -> bool {
    ||| exists|d: DeliveryView| #[trigger]
        live.contains(d) && !digestible(d.payload) && d.delivery_id == id
    ||| exists|d: DeadView| #[trigger]
        gone.contains(d) && !digestible(dead_payload(d)) && d.delivery_id == id
}

proof fn lemma_same_members<T>(a: Seq<T>, b: Seq<T>, x: T)
    requires
        a.to_multiset() == b.to_multiset(),
        a.contains(x),
    ensures
        b.contains(x),
{
    broadcast use vstd::seq_lib::group_to_multiset_ensures;

    assert(a.to_multiset().count(x) > 0);
}

proof fn lemma_behind_is_part(s: Seq<DeliveryView>, id: Seq<char>, x: DeliveryView)
    requires
        behind(s, id) matches Some(rest) && rest.contains(x),
    ensures
        s.contains(x),
    decreases s.len(),
{
    if s.len() > 0 {
        let rest = s.drop_first();
        if s[0].delivery_id != id {
            lemma_behind_is_part(rest, id, x);
        }
        let k = choose|k: int| 0 <= k < rest.len() && rest[k] == x;
        assert(s[k + 1] == x);
    }
}

proof fn lemma_dead_behind_is_part(s: Seq<DeadView>, id: Seq<char>, x: DeadView)
    requires
        dead_behind(s, id) matches Some(rest) && rest.contains(x),
    ensures
        s.contains(x),
    decreases s.len(),
{
    if s.len() > 0 {
        let rest = s.drop_first();
        if s[0].delivery_id != id {
            lemma_dead_behind_is_part(rest, id, x);
        }
        let k = choose|k: int| 0 <= k < rest.len() && rest[k] == x;
        assert(s[k + 1] == x);
    }
}

proof fn lemma_asked_for_is_part(
    all: Seq<DeadView>,
    window: Option<DeadLetterWindow>,
    after: Option<CursorView>,
    x: DeadView,
)
    requires
        dead_asked_for(all, window, after).contains(x),
    ensures
        all.contains(x),
    decreases all.len(),
{
    if all.len() > 0 {
        let front = dead_asked_for(all.drop_last(), window, after);
        let k = choose|k: int|
            0 <= k < dead_asked_for(all, window, after).len() && dead_asked_for(
                all,
                window,
                after,
            )[k] == x;
        if k < front.len() {
            assert(front[k] == x);
            lemma_asked_for_is_part(all.drop_last(), window, after, x);
            let j = choose|j: int| 0 <= j < all.drop_last().len() && all.drop_last()[j] == x;
            assert(all[j] == x);
        } else {
            assert(all[all.len() - 1] == x);
        }
    }
}

fn page_of(shown: &Vec<DeadRecord>, cut: bool) -> (r: DeliveryObservePage)
    ensures
        r.section@ == "dead_letters"@,
        cursor_view(r.next) == next_page(dead_views(shown@), cut),
{
    let next: Option<DeadLetterPageCursor> = if cut && shown.len() > 0 {
        let last: &DeadRecord = &shown[shown.len() - 1];
        Some(
            DeadLetterPageCursor {
                dead_at_ms: last.dead_at_ms,
                delivery_id: copy_text(last.delivery_id.as_str()),
            },
        )
    } else {
        None
    };
    DeliveryObservePage { section: copy_text("dead_letters"), next }
}

/// Whether the id to go on from is empty.
pub open spec fn has_empty_cursor(options: DeliveryObserveOptions) -> bool {
    text_view(options.since) == Some(Seq::<char>::empty())
}

/// Whether both an id to go on from and a page are asked for.
pub open spec fn pages_with_cursor(options: DeliveryObserveOptions) -> bool {
    !has_empty_cursor(options) && options.dead_letter_page is Some && options.since is Some
}

/// Refuses options that do not go together.
pub fn check_options(options: &DeliveryObserveOptions) -> (r: Result<(), ObserveError>)
    ensures
        has_empty_cursor(*options) ==> (r matches Err(e) && e is EmptyCursor),
        pages_with_cursor(*options) ==> (r matches Err(e) && e is PageWithCursor),
        !has_empty_cursor(*options) && !pages_with_cursor(*options) ==> r is Ok,
{
    match &options.since {
        Some(since) => {
            if since.as_str().unicode_len() == 0 {
                assert(since@ =~= Seq::<char>::empty());
                return Err(ObserveError::EmptyCursor);
            }
            if options.dead_letter_page.is_some() {
                return Err(ObserveError::PageWithCursor);
            }
        },
        None => {},
    }
    Ok(())
}

/// Tells what is asked for of deliveries and dead deliveries: in order, behind the id to go on
/// from, and up to a limit.
pub fn observe_records(
    live: Vec<DeliveryRecord>,
    gone: Vec<DeadRecord>,
    durable_root: &str,
    database: &str,
    options: &DeliveryObserveOptions,
) -> (r: Result<DeliveryObserveSnapshot, ObserveError>)
    ensures
        match r {
            Ok(snapshot) => observed(
                snapshot,
                delivery_views(live@),
                dead_views(gone@),
                durable_root@,
                database@,
                *options,
            ),
            Err(ObserveError::EmptyCursor) => has_empty_cursor(*options),
            Err(ObserveError::PageWithCursor) => pages_with_cursor(*options),
            Err(ObserveError::OversizedPayload(id)) => oversized(
                delivery_views(live@),
                dead_views(gone@),
                id@,
            ),
            Err(ObserveError::Storage(_)) => false,
        },
        has_empty_cursor(*options) ==> (r matches Err(e) && e is EmptyCursor),
        pages_with_cursor(*options) ==> (r matches Err(e) && e is PageWithCursor),
{
    match check_options(options) {
        Ok(_) => {},
        Err(e) => return Err(e),
    }
    let ghost all = delivery_views(live@);
    let ghost all_dead = dead_views(gone@);
    let ghost asked = dead_asked_for(all_dead, options.dead_letter_window, options.after());
    let queues: Vec<QueueObserveState> = observe_queues(
        &live,
        options.now_ms,
        &options.current_subscriber_queues,
    );
    let sorted_live: Vec<DeliveryRecord> = sort_deliveries(live);
    let ghost told = delivery_views(sorted_live@);
    let kept: Vec<DeadRecord> = match &options.dead_letter_page {
        Some(page) => keep_asked_for(gone, &options.dead_letter_window, &page.after),
        None => keep_asked_for(gone, &options.dead_letter_window, &None),
    };
    let sorted_dead: Vec<DeadRecord> = sort_dead(kept);
    let ghost dead_told = dead_views(sorted_dead@);
    let mut shown: Vec<DeliveryRecord> = trim_deliveries_after_cursor(sorted_live, &options.since);
    let mut dead_shown: Vec<DeadRecord> = trim_dead_letters_after_cursor(
        sorted_dead,
        &options.since,
    );
    let ghost told_rest = delivery_views(shown@);
    let ghost dead_rest = dead_views(dead_shown@);
    let cut: bool = apply_limit(&mut shown, options.limit);
    let dead_cut: bool = apply_limit(&mut dead_shown, options.limit);
    proof {
        assert(delivery_views(shown@) =~= up_to(told_rest, options.limit as nat));
        assert(dead_views(dead_shown@) =~= up_to(dead_rest, options.limit as nat));
    }
    let deliveries: Vec<DeliveryObserveEntry> = match delivery_entries(&shown, options.now_ms) {
        Ok(entries) => entries,
        Err(e) => {
            proof {
                let i = choose|i: int|
                    0 <= i < shown@.len() && !digestible((#[trigger] shown@[i])@.payload)
                        && shown@[i]@.delivery_id == e->OversizedPayload_0@;
                let x = shown@[i]@;
                assert(delivery_views(shown@)[i] == x);
                assert(told_rest[i] == x);
                assert(told_rest.contains(x));
                if options.since is Some && behind(told, text_view(options.since)->0) is Some {
                    lemma_behind_is_part(told, text_view(options.since)->0, x);
                }
                assert(told.contains(x));
                lemma_same_members(told, all, x);
            }
            return Err(e);
        },
    };
    let dead_letters: Vec<DeadLetterObserveEntry> = match dead_entries(&dead_shown) {
        Ok(entries) => entries,
        Err(e) => {
            proof {
                let i = choose|i: int|
                    0 <= i < dead_shown@.len() && !digestible(
                        dead_payload((#[trigger] dead_shown@[i])@),
                    ) && dead_shown@[i]@.delivery_id == e->OversizedPayload_0@;
                let x = dead_shown@[i]@;
                assert(dead_views(dead_shown@)[i] == x);
                assert(dead_rest[i] == x);
                assert(dead_rest.contains(x));
                if options.since is Some && dead_behind(
                    dead_told,
                    text_view(options.since)->0,
                ) is Some {
                    lemma_dead_behind_is_part(dead_told, text_view(options.since)->0, x);
                }
                assert(dead_told.contains(x));
                lemma_same_members(dead_told, asked, x);
                lemma_asked_for_is_part(
                    all_dead,
                    options.dead_letter_window,
                    options.after(),
                    x,
                );
            }
            return Err(e);
        },
    };
    let page: Option<DeliveryObservePage> = match &options.dead_letter_page {
        Some(_) => Some(page_of(&dead_shown, dead_cut)),
        None => None,
    };
    let dead_letters_complete: Option<bool> = match &options.dead_letter_window {
        Some(_) => Some(!dead_cut),
        None => None,
    };
    let snapshot: DeliveryObserveSnapshot = DeliveryObserveSnapshot {
        schema_version: 1,
        generated_at_ms: options.now_ms,
        source: observe_source(durable_root, database),
        limits: DeliveryObserveLimits {
            max_deliveries: options.limit,
            max_dead_letters: options.limit,
        },
        truncated: DeliveryObserveTruncated { deliveries: cut, dead_letters: dead_cut },
        dead_letters_complete,
        queues,
        deliveries,
        dead_letters,
        page,
    };
    proof {
        assert(ordered_deliveries(told, all));
        assert(ordered_dead(dead_told, asked));
        assert(tells(snapshot, told_rest, dead_rest, *options));
    }
    Ok(snapshot)
}

// What is read from the store.

/// The deliveries of rows, where they can be read.
pub open spec fn decoded_deliveries(rows: Seq<Row>) -> Seq<DeliveryView>
    decreases rows.len(),
{
    if rows.len() == 0 {
        Seq::empty()
    } else {
        let front = decoded_deliveries(rows.drop_last());
        match decode_delivery(rows.last().value@) {
            Some(d) => front.push(d),
            None => front,
        }
    }
}

/// The dead deliveries of rows, where they can be read.
pub open spec fn decoded_dead(rows: Seq<Row>) -> Seq<DeadView>
    decreases rows.len(),
{
    if rows.len() == 0 {
        Seq::empty()
    } else {
        let front = decoded_dead(rows.drop_last());
        match decode_dead(rows.last().value@) {
            Some(d) => front.push(d),
            None => front,
        }
    }
}

/// The deliveries that a store holds, in the order of the rows; rows that cannot be read are
/// passed over.
pub open spec fn stored_deliveries(
    found: Seq<DeliveryView>,
    rows: Map<(Seq<char>, Seq<char>), Seq<u8>>,
) -> bool {
    exists|list: Seq<Row>| #[trigger]
        lists_rows(list, rows, deliveries()) && found == decoded_deliveries(list)
}

/// The dead deliveries that a store holds, in the order of the rows; rows that cannot be read are
/// passed over.
pub open spec fn stored_dead(
    found: Seq<DeadView>,
    rows: Map<(Seq<char>, Seq<char>), Seq<u8>>,
) -> bool {
    exists|list: Seq<Row>| #[trigger]
        lists_rows(list, rows, dead()) && found == decoded_dead(list)
}

/// The deliveries of rows, where they can be read.
pub fn deliveries_in(rows: &Vec<Row>) -> (r: Vec<DeliveryRecord>)
    ensures
        delivery_views(r@) == decoded_deliveries(rows@),
{
    let mut out: Vec<DeliveryRecord> = Vec::new();
    let mut i: usize = 0;
    assert(delivery_views(out@) =~= Seq::<DeliveryView>::empty());
    while i < rows.len()
        invariant
            i <= rows@.len(),
            delivery_views(out@) == decoded_deliveries(rows@.take(i as int)),
        decreases rows@.len() - i,
    {
        let ghost had = delivery_views(out@);
        assert(rows@.take(i + 1).drop_last() =~= rows@.take(i as int));
        match read_delivery(rows[i].value.as_slice()) {
            Some(record) => {
                let ghost v = record@;
                out.push(record);
                assert(delivery_views(out@) =~= had.push(v));
            },
            None => {},
        }
        i = i + 1;
    }
    assert(rows@.take(rows@.len() as int) =~= rows@);
    out
}

/// The dead deliveries of rows, where they can be read.
pub fn dead_in(rows: &Vec<Row>) -> (r: Vec<DeadRecord>)
    ensures
        dead_views(r@) == decoded_dead(rows@),
{
    let mut out: Vec<DeadRecord> = Vec::new();
    let mut i: usize = 0;
    assert(dead_views(out@) =~= Seq::<DeadView>::empty());
    while i < rows.len()
        invariant
            i <= rows@.len(),
            dead_views(out@) == decoded_dead(rows@.take(i as int)),
        decreases rows@.len() - i,
    {
        let ghost had = dead_views(out@);
        assert(rows@.take(i + 1).drop_last() =~= rows@.take(i as int));
        match decode_dead_record(rows[i].value.as_slice()) {
            Some(record) => {
                let ghost v = record@;
                out.push(record);
                assert(dead_views(out@) =~= had.push(v));
            },
            None => {},
        }
        i = i + 1;
    }
    assert(rows@.take(rows@.len() as int) =~= rows@);
    out
}

/// Reads all deliveries.
pub fn scan_deliveries(txn: &ReadTransaction) -> (r: Result<Vec<DeliveryRecord>, redb::Error>)
    ensures
        r matches Ok(found) ==> stored_deliveries(delivery_views(found@), snapshot_rows(*txn)),
{
    proof {
        lemma_tables();
    }
    match read_rows(txn, "delivery_by_id") {
        Ok(rows) => Ok(deliveries_in(&rows)),
        Err(e) => Err(e),
    }
}

/// Reads all dead deliveries.
pub fn scan_dead(txn: &ReadTransaction) -> (r: Result<Vec<DeadRecord>, redb::Error>)
    ensures
        r matches Ok(found) ==> stored_dead(dead_views(found@), snapshot_rows(*txn)),
{
    proof {
        lemma_tables();
    }
    match read_rows(txn, "dead_by_id") {
        Ok(rows) => Ok(dead_in(&rows)),
        Err(e) => Err(e),
    }
}

/// Whether a snapshot tells what is asked for of a store.
pub open spec fn observed_store(
    snapshot: DeliveryObserveSnapshot,
    rows: Map<(Seq<char>, Seq<char>), Seq<u8>>,
    durable_root: Seq<char>,
    database: Seq<char>,
    options: DeliveryObserveOptions,
) -> bool {
    exists|live: Seq<DeliveryView>, gone: Seq<DeadView>|
        #![trigger stored_deliveries(live, rows), stored_dead(gone, rows)]
        stored_deliveries(live, rows) && stored_dead(gone, rows) && observed(
            snapshot,
            live,
            gone,
            durable_root,
            database,
            options,
        )
}

/// A snapshot of the store as a transaction sees it.
pub fn observe_snapshot(
    txn: &ReadTransaction,
    durable_root: &str,
    database: &str,
    options: &DeliveryObserveOptions,
) -> (r: Result<DeliveryObserveSnapshot, ObserveError>)
    ensures
        match r {
            Ok(snapshot) => observed_store(
                snapshot,
                snapshot_rows(*txn),
                durable_root@,
                database@,
                *options,
            ),
            Err(ObserveError::EmptyCursor) => has_empty_cursor(*options),
            Err(ObserveError::PageWithCursor) => pages_with_cursor(*options),
            Err(ObserveError::OversizedPayload(id)) => exists|
                live: Seq<DeliveryView>,
                gone: Seq<DeadView>,
            |
                #![trigger stored_deliveries(live, snapshot_rows(*txn)), stored_dead(gone, snapshot_rows(*txn))]
                stored_deliveries(live, snapshot_rows(*txn)) && stored_dead(
                    gone,
                    snapshot_rows(*txn),
                ) && oversized(live, gone, id@),
            Err(ObserveError::Storage(_)) => true,
        },
        has_empty_cursor(*options) ==> (r matches Err(e) && e is EmptyCursor),
        pages_with_cursor(*options) ==> (r matches Err(e) && e is PageWithCursor),
{
    match check_options(options) {
        Ok(_) => {},
        Err(e) => return Err(e),
    }
    let live: Vec<DeliveryRecord> = match scan_deliveries(txn) {
        Ok(live) => live,
        Err(e) => return Err(ObserveError::Storage(e)),
    };
    let gone: Vec<DeadRecord> = match scan_dead(txn) {
        Ok(gone) => gone,
        Err(e) => return Err(ObserveError::Storage(e)),
    };
    assert(stored_deliveries(delivery_views(live@), snapshot_rows(*txn)));
    assert(stored_dead(dead_views(gone@), snapshot_rows(*txn)));
    observe_records(live, gone, durable_root, database, options)
}

// The whole store at once.

/// Whether a snapshot tells the first deliveries and dead deliveries of a store, up to a limit.
pub open spec fn observed_first(
    snapshot: DeliveryObserveSnapshot,
    live: Seq<DeliveryView>,
    gone: Seq<DeadView>,
    durable_root: Seq<char>,
    database: Seq<char>,
    now_ms: u64,
    limit: usize,
) -> bool {
    &&& snapshot.schema_version == 1
    &&& snapshot.generated_at_ms == now_ms
    &&& is_source(snapshot.source, durable_root, database)
    &&& snapshot.limits == (DeliveryObserveLimits {
        max_deliveries: limit,
        max_dead_letters: limit,
    })
    &&& snapshot.truncated == (DeliveryObserveTruncated {
        deliveries: live.len() > limit,
        dead_letters: gone.len() > limit,
    })
    &&& snapshot.dead_letters_complete is None
    &&& snapshot.page is None
    &&& queues_of(queue_views(snapshot.queues@), live, now_ms, None)
    &&& exists|told: Seq<DeliveryView>, dead_told: Seq<DeadView>| #[trigger]
        ordered_deliveries(told, up_to(live, limit as nat)) && #[trigger] ordered_dead(
            dead_told,
            up_to(gone, limit as nat),
        ) && entry_views(snapshot.deliveries@) == entries_of(told, now_ms) && dead_entry_views(
            snapshot.dead_letters@,
        ) == dead_entries_of(dead_told)
}

/// Tells the first deliveries and dead deliveries of those that are given, up to a limit.
pub fn observe_first(
    live: Vec<DeliveryRecord>,
    gone: Vec<DeadRecord>,
    durable_root: &str,
    database: &str,
    now_ms: u64,
    limit: usize,
) -> (r: Result<DeliveryObserveSnapshot, ObserveError>)
    ensures
        match r {
            Ok(snapshot) => observed_first(
                snapshot,
                delivery_views(live@),
                dead_views(gone@),
                durable_root@,
                database@,
                now_ms,
                limit,
            ),
            Err(e) => e is OversizedPayload && oversized(
                delivery_views(live@),
                dead_views(gone@),
                e->OversizedPayload_0@,
            ),
        },
{
    let ghost all = delivery_views(live@);
    let ghost all_dead = dead_views(gone@);
    let queues: Vec<QueueObserveState> = observe_queues(&live, now_ms, &None);
    let mut first: Vec<DeliveryRecord> = live;
    let mut first_dead: Vec<DeadRecord> = gone;
    let cut: bool = apply_limit(&mut first, limit);
    let dead_cut: bool = apply_limit(&mut first_dead, limit);
    let ghost shown = delivery_views(first@);
    let ghost dead_shown = dead_views(first_dead@);
    proof {
        assert(shown =~= up_to(all, limit as nat));
        assert(dead_shown =~= up_to(all_dead, limit as nat));
    }
    let told: Vec<DeliveryRecord> = sort_deliveries(first);
    let dead_told: Vec<DeadRecord> = sort_dead(first_dead);
    let deliveries: Vec<DeliveryObserveEntry> = match delivery_entries(&told, now_ms) {
        Ok(entries) => entries,
        Err(e) => {
            proof {
                let i = choose|i: int|
                    0 <= i < told@.len() && !digestible((#[trigger] told@[i])@.payload)
                        && told@[i]@.delivery_id == e->OversizedPayload_0@;
                let x = told@[i]@;
                assert(delivery_views(told@)[i] == x);
                assert(delivery_views(told@).contains(x));
                lemma_same_members(delivery_views(told@), shown, x);
                let k = choose|k: int| 0 <= k < shown.len() && shown[k] == x;
                assert(all[k] == x);
                assert(all.contains(x));
            }
            return Err(e);
        },
    };
    let dead_letters: Vec<DeadLetterObserveEntry> = match dead_entries(&dead_told) {
        Ok(entries) => entries,
        Err(e) => {
            proof {
                let i = choose|i: int|
                    0 <= i < dead_told@.len() && !digestible(
                        dead_payload((#[trigger] dead_told@[i])@),
                    ) && dead_told@[i]@.delivery_id == e->OversizedPayload_0@;
                let x = dead_told@[i]@;
                assert(dead_views(dead_told@)[i] == x);
                assert(dead_views(dead_told@).contains(x));
                lemma_same_members(dead_views(dead_told@), dead_shown, x);
                let k = choose|k: int| 0 <= k < dead_shown.len() && dead_shown[k] == x;
                assert(all_dead[k] == x);
                assert(all_dead.contains(x));
            }
            return Err(e);
        },
    };
    Ok(
        DeliveryObserveSnapshot {
            schema_version: 1,
            generated_at_ms: now_ms,
            source: observe_source(durable_root, database),
            limits: DeliveryObserveLimits { max_deliveries: limit, max_dead_letters: limit },
            truncated: DeliveryObserveTruncated { deliveries: cut, dead_letters: dead_cut },
            dead_letters_complete: None,
            queues,
            deliveries,
            dead_letters,
            page: None,
        },
    )
}

/// A snapshot of the first deliveries and dead deliveries of the store, up to a limit.
pub fn observe_store(
    txn: &ReadTransaction,
    durable_root: &str,
    database: &str,
    now_ms: u64,
    limit: usize,
) -> (r: Result<DeliveryObserveSnapshot, ObserveError>)
    ensures
        match r {
            Ok(snapshot) => exists|live: Seq<DeliveryView>, gone: Seq<DeadView>|
                #![trigger stored_deliveries(live, snapshot_rows(*txn)), stored_dead(gone, snapshot_rows(*txn))]
                stored_deliveries(live, snapshot_rows(*txn)) && stored_dead(
                    gone,
                    snapshot_rows(*txn),
                ) && observed_first(
                    snapshot,
                    live,
                    gone,
                    durable_root@,
                    database@,
                    now_ms,
                    limit,
                ),
            Err(ObserveError::OversizedPayload(id)) => exists|
                live: Seq<DeliveryView>,
                gone: Seq<DeadView>,
            |
                #![trigger stored_deliveries(live, snapshot_rows(*txn)), stored_dead(gone, snapshot_rows(*txn))]
                stored_deliveries(live, snapshot_rows(*txn)) && stored_dead(
                    gone,
                    snapshot_rows(*txn),
                ) && oversized(live, gone, id@),
            Err(e) => e is Storage,
        },
{
    let live: Vec<DeliveryRecord> = match scan_deliveries(txn) {
        Ok(live) => live,
        Err(e) => return Err(ObserveError::Storage(e)),
    };
    let gone: Vec<DeadRecord> = match scan_dead(txn) {
        Ok(gone) => gone,
        Err(e) => return Err(ObserveError::Storage(e)),
    };
    assert(stored_deliveries(delivery_views(live@), snapshot_rows(*txn)));
    assert(stored_dead(dead_views(gone@), snapshot_rows(*txn)));
    observe_first(live, gone, durable_root, database, now_ms, limit)
}

// One line of deliveries.

/// What is told of the deliveries that one source sent to one department.
#[derive(Debug)]
pub struct LineageObserveResult {
    pub live_delivery: Option<DeliveryObserveEntry>,
    pub terminal_dead_letter: Option<DeadLetterObserveEntry>,
}

/// What is told of a live delivery and of a dead one, where they are there. Nothing is told where a
/// payload is too large to be summed up.
pub open spec fn tells_lineage(
    live: Option<DeliveryView>,
    gone: Option<DeadView>,
    now_ms: u64,
    told: Result<LineageObserveResult, ObserveError>,
) -> bool {
    match told {
        Ok(told) => {
            &&& match (live, told.live_delivery) {
                (Some(d), Some(e)) => digestible(d.payload) && e@ == entry_of(d, now_ms),
                (None, None) => true,
                _ => false,
            }
            &&& match (gone, told.terminal_dead_letter) {
                (Some(d), Some(e)) => digestible(dead_payload(d)) && e@ == dead_entry_of(d),
                (None, None) => true,
                _ => false,
            }
        },
        Err(ObserveError::OversizedPayload(id)) => if live matches Some(d) && !digestible(
            d.payload,
        ) {
            live matches Some(d) && d.delivery_id == id@
        } else {
            gone matches Some(d) && !digestible(dead_payload(d)) && d.delivery_id == id@
        },
        Err(_) => false,
    }
}

/// Tells of a live delivery and of a dead one, where they are there.
pub fn observe_lineage(
    live: &Option<DeliveryRecord>,
    gone: &Option<DeadRecord>,
    now_ms: u64,
) -> (r: Result<LineageObserveResult, ObserveError>)
    ensures
        tells_lineage(
            match *live {
                Some(d) => Some(d@),
                None => None,
            },
            match *gone {
                Some(d) => Some(d@),
                None => None,
            },
            now_ms,
            r,
        ),
{
    let live_delivery: Option<DeliveryObserveEntry> = match live {
        Some(d) => match delivery_observe_entry(d, now_ms) {
            Some(entry) => Some(entry),
            None => {
                return Err(ObserveError::OversizedPayload(copy_text(d.delivery_id.as_str())));
            },
        },
        None => None,
    };
    let terminal_dead_letter: Option<DeadLetterObserveEntry> = match gone {
        Some(d) => match dead_letter_observe_entry(d) {
            Some(entry) => Some(entry),
            None => {
                return Err(ObserveError::OversizedPayload(copy_text(d.delivery_id.as_str())));
            },
        },
        None => None,
    };
    Ok(LineageObserveResult { live_delivery, terminal_dead_letter })
}

/// How many entries are told where a number was asked for: at least one, and no more than the
/// largest number that is allowed.
pub fn observe_limit(asked: usize, max_limit: usize) -> (r: usize)
    requires
        max_limit >= 1,
    ensures
        r == if asked < 1 {
            1
        } else if asked > max_limit {
            max_limit
        } else {
            asked
        },
{
    if asked < 1 {
        1
    } else if asked > max_limit {
        max_limit
    } else {
        asked
    }
}

} // verus!
