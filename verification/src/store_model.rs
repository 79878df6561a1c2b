//! What the delivery store holds, and what its operations do to it.

use vstd::prelude::*;
use crate::delivery_index::{
    dead_index_key, index_key, parsed_dead_key, time_code, DueView,
};
use crate::delivery_retry::{backoff_millis, excerpt, ERROR_EXCERPT_LIMIT};
use crate::delivery_scan::first_keys;
use crate::delivery_types::{DeadView, DeliveryView, RedrivePolicy, RetryPolicy};
use crate::digest::{fnv1a, FNV_OFFSET};
use crate::duration::millis;
use crate::numeral::{hex, zero_padded};
use crate::record_codec::{dead_bytes, decode_dead, decode_delivery, delivery_bytes};
use crate::tables::StoreState;
use vstd::utf8::encode_utf8;

verus! {

// The tables.

pub open spec fn deliveries() -> Seq<char> {
    "delivery_by_id"@
}

pub open spec fn ready() -> Seq<char> {
    "ready_by_dept_due"@
}

pub open spec fn leased() -> Seq<char> {
    "leased_by_dept_until"@
}

pub open spec fn dead_due() -> Seq<char> {
    "dead_by_dept_due"@
}

pub open spec fn dead() -> Seq<char> {
    "dead_by_id"@
}

pub open spec fn terminal() -> Seq<char> {
    "terminal_dead_by_time"@
}

pub open spec fn suppression() -> Seq<char> {
    "terminal_suppression_by_slot"@
}

pub open spec fn meta() -> Seq<char> {
    "meta"@
}

/// The names of the tables are different, and none is empty.
pub proof fn lemma_tables()
    ensures
        deliveries().len() == 14,
        ready().len() == 17,
        leased().len() == 20,
        dead_due().len() == 16,
        dead().len() == 10,
        terminal().len() == 21,
        suppression().len() == 28,
        meta().len() == 4,
{
    reveal_strlit("delivery_by_id");
    reveal_strlit("ready_by_dept_due");
    reveal_strlit("leased_by_dept_until");
    reveal_strlit("dead_by_dept_due");
    reveal_strlit("dead_by_id");
    reveal_strlit("terminal_dead_by_time");
    reveal_strlit("terminal_suppression_by_slot");
    reveal_strlit("meta");
}

pub open spec fn plus_capped(a: u64, b: nat) -> u64 {
    if a + b <= u64::MAX {
        (a + b) as u64
    } else {
        u64::MAX
    }
}

// Suppression of deliveries that are dead for good.

pub const TERMINAL_SUPPRESSION_SLOTS: u64 = 16_777_216;

/// The slot where the search for an id starts.
pub open spec fn first_slot(delivery_id: Seq<char>) -> nat {
    fnv1a(FNV_OFFSET, encode_utf8(delivery_id)) as nat % TERMINAL_SUPPRESSION_SLOTS as nat
}

/// The key of the slot that is `offset` slots behind the first, in the ring of all slots.
pub open spec fn slot_key(delivery_id: Seq<char>, offset: nat) -> Seq<char> {
    zero_padded(
        hex((first_slot(delivery_id) + offset) % TERMINAL_SUPPRESSION_SLOTS as nat),
        5,
    )
}

/// Whether an id is found from some slot on: no slot up to it is empty.
pub open spec fn found_from(s: StoreState, delivery_id: Seq<char>, offset: nat) -> bool
    decreases TERMINAL_SUPPRESSION_SLOTS - offset,
{
    if offset >= TERMINAL_SUPPRESSION_SLOTS {
        false
    } else {
        match s.text(suppression(), slot_key(delivery_id, offset)) {
            None => false,
            Some(held) => held == delivery_id || found_from(s, delivery_id, offset + 1),
        }
    }
}

/// Whether a delivery must not come back.
pub open spec fn suppressed(s: StoreState, delivery_id: Seq<char>) -> bool {
    found_from(s, delivery_id, 0)
}

/// The store with an id put into the first empty slot from some slot on, unless it is there
/// already; nothing where every slot holds another id.
pub open spec fn suppressing_from(s: StoreState, delivery_id: Seq<char>, offset: nat) -> Option<
    StoreState,
>
    decreases TERMINAL_SUPPRESSION_SLOTS - offset,
{
    if offset >= TERMINAL_SUPPRESSION_SLOTS {
        None
    } else {
        match s.text(suppression(), slot_key(delivery_id, offset)) {
            None => Some(
                s.with_text(suppression(), slot_key(delivery_id, offset), delivery_id),
            ),
            Some(held) => if held == delivery_id {
                Some(s)
            } else {
                suppressing_from(s, delivery_id, offset + 1)
            },
        }
    }
}

pub open spec fn suppressing(s: StoreState, delivery_id: Seq<char>) -> Option<StoreState> {
    suppressing_from(s, delivery_id, 0)
}

proof fn lemma_suppressing_from(s: StoreState, delivery_id: Seq<char>, offset: nat)
    requires
        suppressing_from(s, delivery_id, offset) is Some,
    ensures
        found_from(suppressing_from(s, delivery_id, offset)->0, delivery_id, offset),
        suppressing_from(s, delivery_id, offset)->0.rows == s.rows,
        suppressing_from(s, delivery_id, offset)->0.keys == s.keys,
        forall|k: (Seq<char>, Seq<char>)| #[trigger]
            s.texts.contains_key(k) ==> suppressing_from(s, delivery_id, offset)->0.texts.contains_key(
                k,
            ) && suppressing_from(s, delivery_id, offset)->0.texts[k] == s.texts[k],
    decreases TERMINAL_SUPPRESSION_SLOTS - offset,
{
    match s.text(suppression(), slot_key(delivery_id, offset)) {
        None => {},
        Some(held) => {
            if held != delivery_id {
                lemma_suppressing_from(s, delivery_id, offset + 1);
                let t = suppressing_from(s, delivery_id, offset)->0;
                assert(s.texts.contains_key((suppression(), slot_key(delivery_id, offset))));
                assert(t.text(suppression(), slot_key(delivery_id, offset)) == Some(held));
            }
        },
    }
}

/// What is found stays found where texts are only put into empty slots.
proof fn lemma_found_stays(s: StoreState, t: StoreState, delivery_id: Seq<char>, offset: nat)
    requires
        found_from(s, delivery_id, offset),
        forall|k: (Seq<char>, Seq<char>)| #[trigger]
            s.texts.contains_key(k) ==> t.texts.contains_key(k) && t.texts[k] == s.texts[k],
    ensures
        found_from(t, delivery_id, offset),
    decreases TERMINAL_SUPPRESSION_SLOTS - offset,
{
    let slot = (suppression(), slot_key(delivery_id, offset));
    assert(s.texts.contains_key(slot));
    if s.texts[slot] != delivery_id {
        lemma_found_stays(s, t, delivery_id, offset + 1);
    }
}

/// An id that is suppressed is found from then on, and so is every id that was found before; no
/// delivery and no index is touched.
pub proof fn law_suppression_holds(s: StoreState, delivery_id: Seq<char>)
    requires
        suppressing(s, delivery_id) is Some,
    ensures
        suppressed(suppressing(s, delivery_id)->0, delivery_id),
        forall|other: Seq<char>| #[trigger]
            suppressed(s, other) ==> suppressed(suppressing(s, delivery_id)->0, other),
        suppressing(s, delivery_id)->0.rows == s.rows,
        suppressing(s, delivery_id)->0.keys == s.keys,
{
    lemma_suppressing_from(s, delivery_id, 0);
    let t = suppressing(s, delivery_id)->0;
    assert forall|other: Seq<char>| #[trigger] suppressed(s, other) implies suppressed(t, other) by {
        lemma_found_stays(s, t, other, 0);
    }
}

/// Suppressing an id twice is suppressing it once.
pub proof fn law_suppression_is_idempotent(s: StoreState, delivery_id: Seq<char>)
    requires
        suppressed(s, delivery_id),
    ensures
        suppressing(s, delivery_id) == Some(s),
{
    lemma_found_is_kept(s, delivery_id, 0);
}

proof fn lemma_found_is_kept(s: StoreState, delivery_id: Seq<char>, offset: nat)
    requires
        found_from(s, delivery_id, offset),
    ensures
        suppressing_from(s, delivery_id, offset) == Some(s),
    decreases TERMINAL_SUPPRESSION_SLOTS - offset,
{
    match s.text(suppression(), slot_key(delivery_id, offset)) {
        None => {},
        Some(held) => {
            if held != delivery_id {
                lemma_found_is_kept(s, delivery_id, offset + 1);
            }
        },
    }
}

// Dead deliveries.

/// A dead delivery that waits to be sent again.
pub open spec fn awaits_redrive(d: DeadView) -> bool {
    !d.permanent && d.replayable && d.record is Some
}

/// A dead delivery that stays dead.
pub open spec fn is_terminal(d: DeadView) -> bool {
    d.permanent || !d.replayable
}

/// The dead delivery under an id, where there is one that can be read.
pub open spec fn dead_at(s: StoreState, delivery_id: Seq<char>) -> Option<DeadView> {
    match s.row(dead(), delivery_id) {
        Some(bytes) => decode_dead(bytes),
        None => None,
    }
}

pub const TERMINAL_DEAD_RETENTION_MS: u64 = 86_400_000;

pub const TERMINAL_DEAD_COMPACTION_LIMIT: usize = 1_024;

/// The bounds of the keys of dead deliveries up to a time.
pub open spec fn dead_range_start() -> Seq<char> {
    time_code(0) + "/"@
}

pub open spec fn dead_range_end(ms: u64) -> Seq<char> {
    time_code(ms) + "/"@ + "\u{10ffff}"@
}

/// What every key of a list says, where every one can be read.
pub open spec fn parsed_dead_all(list: Seq<Seq<char>>) -> Option<Seq<DueView>>
    decreases list.len(),
{
    if list.len() == 0 {
        Some(Seq::empty())
    } else {
        match (parsed_dead_all(list.drop_last()), parsed_dead_key(list.last())) {
            (Some(front), Some(last)) => Some(front.push(last)),
            _ => None,
        }
    }
}

/// What is left after one key of a dead delivery that stays dead has been looked at: a key without
/// such a delivery goes, a key at the wrong time moves, and a delivery that is old enough goes
/// with its keys. The inner `None` ends the walk; the outer one says that no slot is left.
#[verifier::opaque]
pub open spec fn compaction_step(s: StoreState, key: DueView, cutoff_ms: u64) -> Option<
    Option<StoreState>,
> {
    let id = key.delivery_id;
    let unindexed = s.without_key(terminal(), key.key);
    match dead_at(s, id) {
        None => Some(Some(unindexed)),
        Some(d) => if d.dead_at_ms != key.due_ms || !is_terminal(d) {
            if is_terminal(d) {
                match suppressing(
                    unindexed.with_key(terminal(), dead_index_key(d.dept, d.dead_at_ms, id)),
                    id,
                ) {
                    Some(t) => Some(Some(t)),
                    None => None,
                }
            } else {
                Some(Some(unindexed))
            }
        } else if d.dead_at_ms > cutoff_ms {
            Some(None)
        } else {
            Some(
                Some(
                    s.without_row(dead(), id).without_key(terminal(), key.key).without_key(
                        dead_due(),
                        dead_index_key(d.dept, d.dead_at_ms, id),
                    ),
                ),
            )
        },
    }
}

/// What is left after the keys have been looked at one after the other, and how many were.
pub open spec fn compaction_run(
    s: StoreState,
    keys: Seq<DueView>,
    cutoff_ms: u64,
    count: nat,
) -> Option<(StoreState, nat)>
    decreases keys.len(),
{
    if keys.len() == 0 {
        Some((s, count))
    } else {
        match compaction_step(s, keys[0], cutoff_ms) {
            None => None,
            Some(None) => Some((s, count)),
            Some(Some(t)) => compaction_run(t, keys.drop_first(), cutoff_ms, count + 1),
        }
    }
}

/// The first delivery, in the order of the keys, for which a compaction finds no slot.
pub open spec fn compaction_stuck(s: StoreState, keys: Seq<DueView>, cutoff_ms: u64) -> Option<
    Seq<char>,
>
    decreases keys.len(),
{
    if keys.len() == 0 {
        None
    } else {
        match compaction_step(s, keys[0], cutoff_ms) {
            None => Some(keys[0].delivery_id),
            Some(None) => None,
            Some(Some(t)) => compaction_stuck(t, keys.drop_first(), cutoff_ms),
        }
    }
}

/// A compaction comes to nothing where it finds no slot for a delivery, and only there.
pub proof fn law_compaction_stops_where_stuck(
    s: StoreState,
    keys: Seq<DueView>,
    cutoff_ms: u64,
    count: nat,
)
    ensures
        compaction_run(s, keys, cutoff_ms, count) is None <==> compaction_stuck(
            s,
            keys,
            cutoff_ms,
        ) is Some,
    decreases keys.len(),
{
    if keys.len() > 0 {
        match compaction_step(s, keys[0], cutoff_ms) {
            Some(Some(t)) => {
                law_compaction_stops_where_stuck(t, keys.drop_first(), cutoff_ms, count + 1);
            },
            _ => {},
        }
    }
}

/// The keys that a compaction looks at: the first up to the time that is one retention ago.
pub open spec fn compactable(keys: Seq<DueView>, s: StoreState, cutoff_ms: u64) -> bool {
    exists|list: Seq<Seq<char>>| #[trigger]
        first_keys(
            list,
            s.keys,
            terminal(),
            dead_range_start(),
            dead_range_end(cutoff_ms),
            TERMINAL_DEAD_COMPACTION_LIMIT as nat,
        ) && parsed_dead_all(list) == Some(keys)
}

/// The store after deliveries that have been dead for longer than the retention are dropped, and
/// how many keys were looked at.
pub open spec fn compacted(s: StoreState, now_ms: u64, t: StoreState, count: nat) -> bool {
    if now_ms < TERMINAL_DEAD_RETENTION_MS {
        t == s && count == 0
    } else {
        let cutoff_ms = (now_ms - TERMINAL_DEAD_RETENTION_MS) as u64;
        exists|keys: Seq<DueView>| #[trigger]
            compactable(keys, s, cutoff_ms) && compaction_run(s, keys, cutoff_ms, 0) == Some(
                (t, count),
            )
    }
}

// Live deliveries.

/// The delivery under an id, where there is one that can be read.
pub open spec fn live_at(s: StoreState, delivery_id: Seq<char>) -> Option<DeliveryView> {
    match s.row(deliveries(), delivery_id) {
        Some(bytes) => decode_delivery(bytes),
        None => None,
    }
}

/// A row that cannot be read as a delivery.
pub open spec fn corrupt(s: StoreState, delivery_id: Seq<char>) -> bool {
    s.row(deliveries(), delivery_id) is Some && live_at(s, delivery_id) is None
}

/// Whether two records are the same delivery, apart from how far it has come.
pub open spec fn same_content(a: DeliveryView, b: DeliveryView) -> bool {
    &&& a.delivery_id == b.delivery_id
    &&& a.queue == b.queue
    &&& a.dept == b.dept
    &&& a.payload == b.payload
    &&& a.source == b.source
    &&& a.cron_payload == b.cron_payload
}

/// The store with a delivery put in.
pub open spec fn with_delivery(s: StoreState, d: DeliveryView) -> StoreState {
    s.with_row(deliveries(), d.delivery_id, delivery_bytes(d)).with_key(
        ready(),
        index_key(d.dept, d.not_before_ms, d.delivery_id),
    )
}

/// Whether a delivery meets another with its id and other contents.
pub open spec fn conflicts(s: StoreState, d: DeliveryView) -> bool {
    live_at(s, d.delivery_id) matches Some(current) && !current.collapse_by_dedup_id
        && !d.collapse_by_dedup_id && !same_content(current, d)
}

/// Whether a delivery is a duplicate, by its key, of one that is leased.
pub open spec fn duplicates_leased(s: StoreState, d: DeliveryView) -> bool {
    live_at(s, d.delivery_id) matches Some(c) && c.lease_until_ms is Some && (
    c.collapse_by_dedup_id || d.collapse_by_dedup_id)
}

/// A leased delivery of which a duplicate has arrived.
pub open spec fn marked_dirty(d: DeliveryView) -> DeliveryView {
    DeliveryView { pending_dirty: true, ..d }
}

/// The store after a delivery is put in: with a mark where the delivery is there, leased, and the
/// same by its key; as it was where the delivery is there otherwise; else compacted, with the
/// delivery unless it must not come back.
pub open spec fn enqueued(s: StoreState, d: DeliveryView, t: StoreState) -> bool {
    if duplicates_leased(s, d) {
        t == s.with_row(
            deliveries(),
            d.delivery_id,
            delivery_bytes(marked_dirty(live_at(s, d.delivery_id)->0)),
        )
    } else if s.row(deliveries(), d.delivery_id) is Some {
        t == s
    } else {
        exists|mid: StoreState, count: nat| #[trigger]
            compacted(s, d.observed_at_ms, mid, count) && t == if suppressed(mid, d.delivery_id) {
                mid
            } else {
                with_delivery(mid, d)
            }
    }
}

/// A delivery with a lease on it.
pub open spec fn with_lease(d: DeliveryView, lease_until_ms: u64) -> DeliveryView {
    DeliveryView {
        lease_generation: plus_capped(d.lease_generation, 1),
        lease_until_ms: Some(lease_until_ms),
        ..d
    }
}

/// What comes of one key of an index on the way to a lease.
pub struct LeaseStep {
    pub state: StoreState,
    pub record: Option<DeliveryView>,
    pub mutated: bool,
}

/// What comes of one key: nothing where the delivery is left out or belongs to another department;
/// the key goes where it says nothing true; else the delivery is leased. `None` where the delivery
/// cannot be read.
#[verifier::opaque]
pub open spec fn lease_step(
    s: StoreState,
    key: DueView,
    now_ms: u64,
    lease_until_ms: u64,
    dept: Option<Seq<char>>,
    excluded: Seq<Seq<char>>,
    expired: bool,
) -> Option<LeaseStep> {
    let id = key.delivery_id;
    let unindexed = if expired {
        s.without_key(leased(), key.key)
    } else {
        s.without_key(ready(), key.key)
    };
    if excluded.contains(id) {
        Some(LeaseStep { state: s, record: None, mutated: false })
    } else if s.row(deliveries(), id) is None {
        Some(LeaseStep { state: unindexed, record: None, mutated: true })
    } else {
        match live_at(s, id) {
            None => None,
            Some(d) => if dept matches Some(wanted) && d.dept != wanted {
                Some(LeaseStep { state: s, record: None, mutated: false })
            } else if (expired && d.lease_until_ms != Some(key.due_ms)) || (!expired
                && d.lease_until_ms is Some) {
                Some(LeaseStep { state: unindexed, record: None, mutated: true })
            } else if d.not_before_ms > now_ms && !expired {
                Some(
                    LeaseStep {
                        state: unindexed.with_key(
                            ready(),
                            index_key(d.dept, d.not_before_ms, id),
                        ),
                        record: None,
                        mutated: true,
                    },
                )
            } else {
                let unleased = match d.lease_until_ms {
                    Some(old) => unindexed.without_key(leased(), index_key(d.dept, old, id)),
                    None => unindexed,
                };
                Some(
                    LeaseStep {
                        state: unleased.with_row(
                            deliveries(),
                            id,
                            delivery_bytes(with_lease(d, lease_until_ms)),
                        ).with_key(leased(), index_key(d.dept, lease_until_ms, id)),
                        record: Some(with_lease(d, lease_until_ms)),
                        mutated: true,
                    },
                )
            },
        }
    }
}

/// What comes of many keys.
pub struct LeaseRun {
    pub state: StoreState,
    pub leased: Seq<DeliveryView>,
    pub mutated: bool,
}

/// What comes of keys one after the other, until `stop` deliveries are leased.
pub open spec fn lease_run(
    run: LeaseRun,
    keys: Seq<DueView>,
    stop: nat,
    now_ms: u64,
    lease_until_ms: u64,
    dept: Option<Seq<char>>,
    excluded: Seq<Seq<char>>,
    expired: bool,
) -> Option<LeaseRun>
    decreases keys.len(),
{
    if keys.len() == 0 || run.leased.len() >= stop {
        Some(run)
    } else {
        match lease_step(run.state, keys[0], now_ms, lease_until_ms, dept, excluded, expired) {
            None => None,
            Some(step) => lease_run(
                LeaseRun {
                    state: step.state,
                    leased: match step.record {
                        Some(d) => run.leased.push(d),
                        None => run.leased,
                    },
                    mutated: run.mutated || step.mutated,
                },
                keys.drop_first(),
                stop,
                now_ms,
                lease_until_ms,
                dept,
                excluded,
                expired,
            ),
        }
    }
}

/// How many deliveries of a batch may be ones whose lease has run out: half of them, and one at
/// the least.
pub open spec fn expired_quota(batch_limit: nat) -> nat {
    if batch_limit == 0 {
        0
    } else if batch_limit / 2 >= 1 {
        batch_limit / 2
    } else {
        1
    }
}

/// What comes of the keys of a batch: first those whose lease has run out, up to their quota, then
/// those that are ready.
pub open spec fn lease_batch(
    s: StoreState,
    expired_keys: Seq<DueView>,
    ready_keys: Seq<DueView>,
    batch_limit: nat,
    now_ms: u64,
    lease_until_ms: u64,
    dept: Option<Seq<char>>,
    excluded: Seq<Seq<char>>,
) -> Option<LeaseRun> {
    let start = LeaseRun { state: s, leased: Seq::empty(), mutated: false };
    match lease_run(
        start,
        expired_keys,
        expired_quota(batch_limit),
        now_ms,
        lease_until_ms,
        dept,
        excluded,
        true,
    ) {
        None => None,
        Some(run) => lease_run(
            run,
            ready_keys,
            batch_limit,
            now_ms,
            lease_until_ms,
            dept,
            excluded,
            false,
        ),
    }
}

/// The lease that a generation holds on a delivery.
pub open spec fn held_lease(s: StoreState, delivery_id: Seq<char>, generation: u64) -> Option<
    DeliveryView,
> {
    match live_at(s, delivery_id) {
        Some(d) => if d.lease_generation == generation && d.lease_until_ms is Some {
            Some(d)
        } else {
            None
        },
        None => None,
    }
}

/// The store after a lease is renewed.
pub open spec fn renewed(
    s: StoreState,
    delivery_id: Seq<char>,
    d: DeliveryView,
    until_ms: u64,
) -> StoreState {
    s.without_key(leased(), index_key(d.dept, d.lease_until_ms->0, delivery_id)).with_row(
        deliveries(),
        delivery_id,
        delivery_bytes(DeliveryView { lease_until_ms: Some(until_ms), ..d }),
    ).with_key(leased(), index_key(d.dept, until_ms, delivery_id))
}

/// The store after leases are renewed one after the other, those that are held alone.
pub open spec fn renewed_all(
    s: StoreState,
    renewals: Seq<(Seq<char>, u64)>,
    until_ms: u64,
) -> StoreState
    decreases renewals.len(),
{
    if renewals.len() == 0 {
        s
    } else {
        let front = renewed_all(s, renewals.drop_last(), until_ms);
        let (id, generation) = renewals.last();
        match held_lease(front, id, generation) {
            Some(d) => renewed(front, id, d, until_ms),
            None => front,
        }
    }
}

/// The deliveries whose leases were renewed.
pub open spec fn renewed_records(
    s: StoreState,
    renewals: Seq<(Seq<char>, u64)>,
    until_ms: u64,
) -> Map<Seq<char>, DeliveryView>
    decreases renewals.len(),
{
    if renewals.len() == 0 {
        Map::empty()
    } else {
        let front = renewed_records(s, renewals.drop_last(), until_ms);
        let (id, generation) = renewals.last();
        match held_lease(renewed_all(s, renewals.drop_last(), until_ms), id, generation) {
            Some(d) => front.insert(id, DeliveryView { lease_until_ms: Some(until_ms), ..d }),
            None => front,
        }
    }
}

/// Whether a delivery that is to be renewed cannot be read.
pub open spec fn renewal_corrupt(
    s: StoreState,
    renewals: Seq<(Seq<char>, u64)>,
    until_ms: u64,
) -> bool
    decreases renewals.len(),
{
    renewals.len() > 0 && (renewal_corrupt(s, renewals.drop_last(), until_ms) || corrupt(
        renewed_all(s, renewals.drop_last(), until_ms),
        renewals.last().0,
    ))
}

/// The store after a held delivery is done.
pub open spec fn acked(s: StoreState, delivery_id: Seq<char>, d: DeliveryView) -> StoreState {
    s.without_key(leased(), index_key(d.dept, d.lease_until_ms->0, delivery_id)).without_row(
        deliveries(),
        delivery_id,
    )
}

// Retries.

/// What came of a failed delivery.
#[derive(Clone, Copy, Debug, PartialEq, Eq, Structural)]
pub enum RetryOutcome {
    Scheduled,
    DeadPendingRedrive,
    PermanentDead,
    Stale,
    Missing,
}

pub struct FailureView {
    pub message: Seq<char>,
    pub replayable: bool,
}

/// The delivery after a failed attempt, its lease given up.
pub open spec fn after_failure(d: DeliveryView, failure: FailureView) -> DeliveryView {
    DeliveryView {
        attempt: plus_capped(d.attempt, 1),
        last_error_excerpt: Some(excerpt(failure.message, ERROR_EXCERPT_LIMIT as nat)),
        lease_until_ms: None,
        ..d
    }
}

/// What is left of a delivery that has run out of attempts.
pub open spec fn tombstone(d: DeliveryView, replayable: bool, now_ms: u64) -> DeadView {
    DeadView {
        delivery_id: d.delivery_id,
        queue: d.queue,
        dept: d.dept,
        source: d.source,
        observed_at_ms: d.observed_at_ms,
        not_before_ms: d.not_before_ms,
        dead_at_ms: now_ms,
        attempts: d.attempt,
        redrive_count: d.redrive_count,
        replayable,
        permanent: !replayable,
        error_excerpt: d.last_error_excerpt,
        record: if replayable {
            Some(d)
        } else {
            None
        },
    }
}

/// The dead delivery that is left of one without attempts.
pub open spec fn dead_of(d: DeliveryView, failure: FailureView, now_ms: u64) -> DeadView {
    tombstone(after_failure(d, failure), failure.replayable, now_ms)
}

/// When the next attempt is due.
pub open spec fn retry_at(
    policy: RetryPolicy,
    attempt: u64,
    now_ms: u64,
    jitter_ms: nat,
) -> u64 {
    plus_capped(
        plus_capped(
            now_ms,
            backoff_millis(policy.base@ / 1_000_000, policy.cap@ / 1_000_000, attempt as nat),
        ),
        jitter_ms,
    )
}

/// The outcome for a delivery that a generation gives back as failed.
pub open spec fn retry_outcome(
    s: StoreState,
    delivery_id: Seq<char>,
    generation: u64,
    failure: FailureView,
    policy: RetryPolicy,
) -> RetryOutcome {
    match live_at(s, delivery_id) {
        None => RetryOutcome::Missing,
        Some(d) => if d.lease_until_ms is None || d.lease_generation != generation {
            RetryOutcome::Stale
        } else if plus_capped(d.attempt, 1) < policy.max_attempts {
            RetryOutcome::Scheduled
        } else if failure.replayable {
            RetryOutcome::DeadPendingRedrive
        } else {
            RetryOutcome::PermanentDead
        },
    }
}

/// The store after a failed delivery is given back, before it is compacted; nothing where no slot
/// is left.
pub open spec fn retried(
    s: StoreState,
    delivery_id: Seq<char>,
    generation: u64,
    failure: FailureView,
    policy: RetryPolicy,
    now_ms: u64,
    jitter_ms: nat,
) -> Option<StoreState> {
    match held_lease(s, delivery_id, generation) {
        None => Some(s),
        Some(d) => {
            let unleased = s.without_key(
                leased(),
                index_key(d.dept, d.lease_until_ms->0, delivery_id),
            );
            let failed = after_failure(d, failure);
            if failed.attempt >= policy.max_attempts {
                let tombstone = unleased.with_row(
                    dead(),
                    delivery_id,
                    dead_bytes(dead_of(d, failure, now_ms)),
                );
                let key = dead_index_key(d.dept, now_ms, delivery_id);
                if failure.replayable {
                    Some(
                        tombstone.with_key(dead_due(), key).without_row(deliveries(), delivery_id),
                    )
                } else {
                    match suppressing(tombstone.with_key(terminal(), key), delivery_id) {
                        Some(t) => Some(t.without_row(deliveries(), delivery_id)),
                        None => None,
                    }
                }
            } else {
                let due = retry_at(policy, failed.attempt, now_ms, jitter_ms);
                Some(
                    unleased.with_row(
                        deliveries(),
                        delivery_id,
                        delivery_bytes(DeliveryView { not_before_ms: due, ..failed }),
                    ).with_key(ready(), index_key(d.dept, due, delivery_id)),
                )
            }
        },
    }
}

/// What came of a delivery whose run found a lock busy.
#[derive(Clone, Copy, Debug, PartialEq, Eq, Structural)]
pub enum LockBusyDeferOutcome {
    Scheduled,
    Stale,
    Missing,
}

/// The outcome for a delivery that a generation gives back because a lock was busy.
pub open spec fn defer_outcome(s: StoreState, delivery_id: Seq<char>, generation: u64) ->
    LockBusyDeferOutcome {
    match live_at(s, delivery_id) {
        None => LockBusyDeferOutcome::Missing,
        Some(d) => if d.lease_until_ms is None || d.lease_generation != generation {
            LockBusyDeferOutcome::Stale
        } else {
            LockBusyDeferOutcome::Scheduled
        },
    }
}

/// The delivery that is put off because a lock was busy: no attempt is counted.
pub open spec fn put_off(
    d: DeliveryView,
    lock: Seq<char>,
    policy: RetryPolicy,
    now_ms: u64,
) -> DeliveryView {
    DeliveryView {
        last_error_excerpt: Some(excerpt("lock_busy: "@ + lock, ERROR_EXCERPT_LIMIT as nat)),
        lease_until_ms: None,
        not_before_ms: retry_at(policy, 1, now_ms, 0),
        ..d
    }
}

/// The store after a delivery is put off because a lock was busy.
pub open spec fn deferred(
    s: StoreState,
    delivery_id: Seq<char>,
    generation: u64,
    lock: Seq<char>,
    policy: RetryPolicy,
    now_ms: u64,
) -> StoreState {
    match held_lease(s, delivery_id, generation) {
        None => s,
        Some(d) => {
            let new = put_off(d, lock, policy, now_ms);
            s.without_key(leased(), index_key(d.dept, d.lease_until_ms->0, delivery_id)).with_row(
                deliveries(),
                delivery_id,
                delivery_bytes(new),
            ).with_key(ready(), index_key(d.dept, new.not_before_ms, delivery_id))
        },
    }
}

// Redrives.

/// A dead delivery that stays dead from now on.
pub open spec fn given_up(d: DeadView) -> DeadView {
    DeadView { permanent: true, replayable: false, record: None, ..d }
}

/// The delivery that a dead one is sent again as.
pub open spec fn redriven(d: DeadView, record: DeliveryView, now_ms: u64) -> DeliveryView {
    DeliveryView {
        redrive_count: plus_capped(d.redrive_count, 1),
        attempt: 0,
        lease_until_ms: None,
        lease_generation: plus_capped(record.lease_generation, 1),
        not_before_ms: now_ms,
        last_error_excerpt: None,
        ..record
    }
}

/// What comes of one key of a dead delivery.
pub struct RedriveStep {
    pub state: StoreState,
    pub redriven: Option<DeliveryView>,
    pub permanent: Option<DeadView>,
    pub mutated: bool,
}

pub open spec fn cooled_down(dead_at_ms: u64, cooldown_ms: u64, now_ms: u64) -> bool {
    plus_capped(dead_at_ms, cooldown_ms as nat) <= now_ms
}

/// The store after a dead delivery is given up for good: its key moves to the index of those that
/// stay dead, and its id is suppressed.
pub open spec fn giving_up(s: StoreState, key: DueView, d: DeadView) -> Option<RedriveStep> {
    let id = key.delivery_id;
    match suppressing(
        s.without_key(dead_due(), key.key).with_row(dead(), id, dead_bytes(d)).with_key(
            terminal(),
            dead_index_key(d.dept, d.dead_at_ms, id),
        ),
        id,
    ) {
        Some(t) => Some(
            RedriveStep { state: t, redriven: None, permanent: Some(d), mutated: true },
        ),
        None => None,
    }
}

/// What comes of one key of a dead delivery: the key goes or moves where it says nothing true; a
/// delivery that has not rested waits; one that has been sent again too often, that has no record
/// or that is live again is given up; any other is sent again. `None` where no slot is left.
#[verifier::opaque]
pub open spec fn redrive_step(
    s: StoreState,
    key: DueView,
    policy: RedrivePolicy,
    now_ms: u64,
) -> Option<RedriveStep> {
    let id = key.delivery_id;
    let unindexed = s.without_key(dead_due(), key.key);
    let moved = RedriveStep { state: unindexed, redriven: None, permanent: None, mutated: true };
    match dead_at(s, id) {
        None => Some(moved),
        Some(d) => if d.dead_at_ms != key.due_ms {
            if awaits_redrive(d) {
                Some(
                    RedriveStep {
                        state: unindexed.with_key(
                            dead_due(),
                            dead_index_key(d.dept, d.dead_at_ms, id),
                        ),
                        ..moved
                    },
                )
            } else {
                Some(moved)
            }
        } else if !cooled_down(d.dead_at_ms, millis(policy.cooldown@) as u64, now_ms) {
            Some(RedriveStep { state: s, redriven: None, permanent: None, mutated: false })
        } else if is_terminal(d) {
            Some(moved)
        } else if d.record is None || d.redrive_count >= policy.max_redrives {
            giving_up(s, key, given_up(d))
        } else if s.row(deliveries(), id) is Some {
            giving_up(
                s,
                key,
                DeadView {
                    error_excerpt: Some(
                        excerpt(
                            "redrive collision with live delivery"@,
                            ERROR_EXCERPT_LIMIT as nat,
                        ),
                    ),
                    ..given_up(d)
                },
            )
        } else {
            let record = redriven(d, d.record->0, now_ms);
            Some(
                RedriveStep {
                    state: unindexed.with_row(deliveries(), id, delivery_bytes(record)).with_key(
                        ready(),
                        index_key(record.dept, now_ms, id),
                    ).without_row(dead(), id),
                    redriven: Some(record),
                    permanent: None,
                    mutated: true,
                },
            )
        },
    }
}

/// What comes of many keys of dead deliveries.
pub struct RedriveRun {
    pub state: StoreState,
    pub redriven: Seq<DeliveryView>,
    pub permanent: Seq<DeadView>,
    pub mutated: bool,
}

/// What comes of keys one after the other.
pub open spec fn redrive_run(
    run: RedriveRun,
    keys: Seq<DueView>,
    policy: RedrivePolicy,
    now_ms: u64,
) -> Option<RedriveRun>
    decreases keys.len(),
{
    if keys.len() == 0 {
        Some(run)
    } else {
        match redrive_step(run.state, keys[0], policy, now_ms) {
            None => None,
            Some(step) => redrive_run(
                RedriveRun {
                    state: step.state,
                    redriven: match step.redriven {
                        Some(d) => run.redriven.push(d),
                        None => run.redriven,
                    },
                    permanent: match step.permanent {
                        Some(d) => run.permanent.push(d),
                        None => run.permanent,
                    },
                    mutated: run.mutated || step.mutated,
                },
                keys.drop_first(),
                policy,
                now_ms,
            ),
        }
    }
}

/// The first delivery, in the order of the keys, for which a redrive finds no slot.
pub open spec fn redrive_stuck(
    s: StoreState,
    keys: Seq<DueView>,
    policy: RedrivePolicy,
    now_ms: u64,
) -> Option<Seq<char>>
    decreases keys.len(),
{
    if keys.len() == 0 {
        None
    } else {
        match redrive_step(s, keys[0], policy, now_ms) {
            None => Some(keys[0].delivery_id),
            Some(step) => redrive_stuck(step.state, keys.drop_first(), policy, now_ms),
        }
    }
}

/// A redrive comes to nothing where it finds no slot for a delivery, and only there.
pub proof fn law_redrive_stops_where_stuck(
    run: RedriveRun,
    keys: Seq<DueView>,
    policy: RedrivePolicy,
    now_ms: u64,
)
    ensures
        redrive_run(run, keys, policy, now_ms) is None <==> redrive_stuck(
            run.state,
            keys,
            policy,
            now_ms,
        ) is Some,
    decreases keys.len(),
{
    if keys.len() > 0 {
        match redrive_step(run.state, keys[0], policy, now_ms) {
            None => {},
            Some(step) => {
                law_redrive_stops_where_stuck(
                    RedriveRun {
                        state: step.state,
                        redriven: match step.redriven {
                            Some(d) => run.redriven.push(d),
                            None => run.redriven,
                        },
                        permanent: match step.permanent {
                            Some(d) => run.permanent.push(d),
                            None => run.permanent,
                        },
                        mutated: run.mutated || step.mutated,
                    },
                    keys.drop_first(),
                    policy,
                    now_ms,
                );
            },
        }
    }
}

} // verus!
