//! Laws of what the store keeps: whatever becomes of a delivery, it stays the delivery that it is.

use vstd::prelude::*;
use crate::delivery_index::{dead_index_key, index_key, DueView};
use crate::delivery_retry::backoff_millis;
use crate::delivery_store::{holds_retried, retry_done};
use crate::delivery_types::{DeadView, DeliveryView, RedrivePolicy, RetryPolicy};
use crate::json::alike;
use crate::record_codec::{dead_bytes, dead_reads_back, delivery_bytes, storable};
use crate::store_laws::{law_compaction_keeps, law_compaction_spares_the_recent};
use crate::store_model::{
    acked, compactable, compacted, compaction_run, compaction_step, dead, dead_at, dead_due,
    defer_outcome, deferred, deliveries, enqueued, expired_quota, held_lease, law_suppression_holds,
    lease_step, leased, lemma_tables, live_at, ready, redrive_step, renewed_all, renewed_records,
    retried, retry_outcome, suppressed, suppressing, terminal, with_delivery, FailureView,
    LeaseStep, LockBusyDeferOutcome, RedriveStep, RetryOutcome,
};
use crate::store_redrives::told_truly;
use crate::tables::StoreState;

verus! {

/// Whether two deliveries are one: what is delivered, to whom, and where it comes from.
pub open spec fn same_delivery(a: DeliveryView, b: DeliveryView) -> bool {
    &&& a.delivery_id == b.delivery_id
    &&& a.queue == b.queue
    &&& a.dept == b.dept
    &&& a.payload == b.payload
    &&& a.source == b.source
    &&& a.cron_payload == b.cron_payload
    &&& a.observed_at_ms == b.observed_at_ms
    &&& a.collapse_by_dedup_id == b.collapse_by_dedup_id
    &&& a.pending_dirty == b.pending_dirty
    &&& a.subscriber_absent_since_ms == b.subscriber_absent_since_ms
}

/// Whether a store holds a delivery under an id, as it is written.
pub open spec fn holds(s: StoreState, delivery_id: Seq<char>, w: DeliveryView) -> bool {
    s.row(deliveries(), delivery_id) == Some(delivery_bytes(w))
}

/// Whether the rows of all deliveries but one are the same.
pub open spec fn others_stay(s: StoreState, t: StoreState, delivery_id: Seq<char>) -> bool {
    forall|id: Seq<char>|
        id != delivery_id ==> #[trigger] t.row(deliveries(), id) == s.row(deliveries(), id)
}

/// Whether a delivery is held by a generation.
pub open spec fn is_held(d: DeliveryView, generation: u64) -> bool {
    d.lease_generation == generation && d.lease_until_ms is Some
}

/// The least of a sum and the largest time.
pub open spec fn capped_time(ms: int) -> int {
    if ms <= u64::MAX {
        ms
    } else {
        u64::MAX as int
    }
}

// Compaction.

/// Whether the indexes of live deliveries are the same.
pub open spec fn live_indexes_stay(s: StoreState, t: StoreState) -> bool {
    &&& forall|k: Seq<char>| #[trigger] t.has_key(ready(), k) == s.has_key(ready(), k)
    &&& forall|k: Seq<char>| #[trigger] t.has_key(leased(), k) == s.has_key(leased(), k)
}

proof fn lemma_compaction_step_keys(s: StoreState, key: DueView, cutoff_ms: u64)
    ensures
        compaction_step(s, key, cutoff_ms) matches Some(Some(t)) ==> live_indexes_stay(s, t),
{
    reveal(compaction_step);
    lemma_tables();
    match dead_at(s, key.delivery_id) {
        None => {},
        Some(d) => {
            let own = dead_index_key(d.dept, d.dead_at_ms, key.delivery_id);
            let b = s.without_key(terminal(), key.key).with_key(terminal(), own);
            if suppressing(b, key.delivery_id) is Some {
                law_suppression_holds(b, key.delivery_id);
            }
        },
    }
}

proof fn lemma_compaction_run_keys(s: StoreState, keys: Seq<DueView>, cutoff_ms: u64, count: nat)
    ensures
        compaction_run(s, keys, cutoff_ms, count) matches Some((t, n)) ==> live_indexes_stay(s, t),
    decreases keys.len(),
{
    if keys.len() > 0 {
        lemma_compaction_step_keys(s, keys[0], cutoff_ms);
        match compaction_step(s, keys[0], cutoff_ms) {
            Some(Some(t)) => {
                lemma_compaction_run_keys(t, keys.drop_first(), cutoff_ms, count + 1);
                if compaction_run(s, keys, cutoff_ms, count) is Some {
                    let u = (compaction_run(s, keys, cutoff_ms, count)->0).0;
                    assert forall|k: Seq<char>| #[trigger]
                        u.has_key(ready(), k) == s.has_key(ready(), k) by {
                        assert(t.has_key(ready(), k) == s.has_key(ready(), k));
                    }
                    assert forall|k: Seq<char>| #[trigger]
                        u.has_key(leased(), k) == s.has_key(leased(), k) by {
                        assert(t.has_key(leased(), k) == s.has_key(leased(), k));
                    }
                }
            },
            _ => {},
        }
    }
}

/// A compaction touches no index but those of dead deliveries.
pub proof fn law_compaction_leaves_the_live_indexes(
    s: StoreState,
    now_ms: u64,
    t: StoreState,
    count: nat,
)
    requires
        compacted(s, now_ms, t, count),
    ensures
        live_indexes_stay(s, t),
{
    if now_ms >= crate::store_model::TERMINAL_DEAD_RETENTION_MS {
        let cutoff_ms = (now_ms - crate::store_model::TERMINAL_DEAD_RETENTION_MS) as u64;
        let keys = choose|keys: Seq<DueView>| #[trigger]
            compactable(keys, s, cutoff_ms) && compaction_run(s, keys, cutoff_ms, 0) == Some(
                (t, count),
            );
        lemma_compaction_run_keys(s, keys, cutoff_ms, 0);
    }
}

/// A delivery that is dead for good is kept for a day and no longer: one day after its death the
/// first look at its key drops it, and a look before that leaves it as it is.
pub proof fn law_the_dead_are_kept_for_a_day(
    s: StoreState,
    key: DueView,
    d: DeadView,
    now_ms: u64,
)
    requires
        dead_at(s, key.delivery_id) == Some(d),
        d.permanent || !d.replayable,
        key.due_ms == d.dead_at_ms,
        now_ms >= 86_400_000,
    ensures
        ({
            let cutoff_ms = (now_ms - crate::store_model::TERMINAL_DEAD_RETENTION_MS) as u64;
            if d.dead_at_ms + 24 * 60 * 60 * 1_000 <= now_ms {
                compaction_step(s, key, cutoff_ms) matches Some(Some(t)) && t.row(
                    dead(),
                    key.delivery_id,
                ) is None && !t.has_key(terminal(), key.key) && forall|id: Seq<char>|
                    id != key.delivery_id ==> #[trigger] t.row(dead(), id) == s.row(dead(), id)
            } else {
                compaction_step(s, key, cutoff_ms) == Some(None::<StoreState>)
            }
        }),
{
    reveal(compaction_step);
    lemma_tables();
}

// Retries.

/// A delivery that failed and has attempts left is scheduled again as the delivery that it is: with
/// one attempt more, without a lease, and due after the delay for its attempts and the jitter. No
/// other delivery is touched.
pub proof fn law_a_failed_delivery_is_scheduled_again(
    s: StoreState,
    delivery_id: Seq<char>,
    generation: u64,
    failure: FailureView,
    policy: RetryPolicy,
    now_ms: u64,
    jitter_ms: nat,
    t: StoreState,
    d: DeliveryView,
)
    requires
        live_at(s, delivery_id) == Some(d),
        is_held(d, generation),
        d.attempt + 1 < policy.max_attempts,
        retry_done(s, delivery_id, generation, failure, policy, now_ms, jitter_ms, t),
    ensures
        retry_outcome(s, delivery_id, generation, failure, policy) == RetryOutcome::Scheduled,
        exists|w: DeliveryView| #[trigger]
            holds(t, delivery_id, w) && same_delivery(w, d) && w.redrive_count == d.redrive_count
                && w.lease_generation == d.lease_generation && w.lease_until_ms is None && w.attempt
                == d.attempt + 1 && w.not_before_ms == capped_time(
                now_ms + backoff_millis(
                    policy.base@ / 1_000_000,
                    policy.cap@ / 1_000_000,
                    (d.attempt + 1) as nat,
                ) + jitter_ms,
            ) && t.has_key(ready(), index_key(d.dept, w.not_before_ms, delivery_id)),
        !t.has_key(leased(), index_key(d.dept, d.lease_until_ms->0, delivery_id)),
        others_stay(s, t, delivery_id),
        forall|id: Seq<char>|
            (#[trigger] t.row(dead(), id)) is Some ==> t.row(dead(), id) == s.row(dead(), id),
{
    lemma_tables();
    let (mid, count) = choose|mid: StoreState, count: nat|
        retried(s, delivery_id, generation, failure, policy, now_ms, jitter_ms) == Some(mid)
            && #[trigger] compacted(mid, now_ms, t, count);
    law_compaction_keeps(mid, now_ms, t, count);
    law_compaction_leaves_the_live_indexes(mid, now_ms, t, count);
    let due = crate::store_model::retry_at(
        policy,
        (d.attempt + 1) as u64,
        now_ms,
        jitter_ms,
    );
    let w = DeliveryView {
        not_before_ms: due,
        ..crate::store_model::after_failure(d, failure)
    };
    assert(mid.row(deliveries(), delivery_id) == Some(delivery_bytes(w)));
    assert(t.row(deliveries(), delivery_id) == mid.row(deliveries(), delivery_id));
    assert(holds(t, delivery_id, w));
    assert(mid.has_key(ready(), index_key(d.dept, due, delivery_id)));
    assert(t.has_key(ready(), index_key(d.dept, due, delivery_id)));
    let old = index_key(d.dept, d.lease_until_ms->0, delivery_id);
    assert(!mid.has_key(leased(), old));
    assert(t.has_key(leased(), old) == mid.has_key(leased(), old));
    assert forall|id: Seq<char>| id != delivery_id implies #[trigger] t.row(deliveries(), id)
        == s.row(deliveries(), id) by {
        assert(mid.row(deliveries(), id) == s.row(deliveries(), id));
    }
    assert forall|id: Seq<char>| (#[trigger] t.row(dead(), id)) is Some implies t.row(dead(), id)
        == s.row(dead(), id) by {
        assert(mid.row(dead(), id) == s.row(dead(), id));
    }
}

/// Whether a dead delivery is what is left of a delivery that failed at its last attempt.
pub open spec fn is_left_of(
    g: DeadView,
    d: DeliveryView,
    replayable: bool,
    now_ms: u64,
) -> bool {
    &&& g.delivery_id == d.delivery_id
    &&& g.queue == d.queue
    &&& g.dept == d.dept
    &&& g.source == d.source
    &&& g.observed_at_ms == d.observed_at_ms
    &&& g.not_before_ms == d.not_before_ms
    &&& g.redrive_count == d.redrive_count
    &&& g.attempts == capped_time(d.attempt + 1)
    &&& g.dead_at_ms == now_ms
    &&& g.replayable == replayable
    &&& g.permanent == !replayable
    &&& match g.record {
        Some(r) => replayable && same_delivery(r, d) && r.redrive_count == d.redrive_count
            && r.lease_generation == d.lease_generation && r.not_before_ms == d.not_before_ms
            && r.lease_until_ms is None,
        None => !replayable,
    }
}

/// A delivery that failed at its last attempt is buried as the delivery that it is: what is left of
/// it says where it came from and when it died, and keeps the delivery where it is worth another
/// try; otherwise its id must not come back. No other delivery is touched.
pub proof fn law_a_failed_delivery_is_buried(
    s: StoreState,
    delivery_id: Seq<char>,
    generation: u64,
    failure: FailureView,
    policy: RetryPolicy,
    now_ms: u64,
    jitter_ms: nat,
    t: StoreState,
    d: DeliveryView,
)
    requires
        live_at(s, delivery_id) == Some(d),
        is_held(d, generation),
        d.attempt + 1 >= policy.max_attempts,
        retry_done(s, delivery_id, generation, failure, policy, now_ms, jitter_ms, t),
    ensures
        retry_outcome(s, delivery_id, generation, failure, policy) == if failure.replayable {
            RetryOutcome::DeadPendingRedrive
        } else {
            RetryOutcome::PermanentDead
        },
        t.row(deliveries(), delivery_id) is None,
        !t.has_key(leased(), index_key(d.dept, d.lease_until_ms->0, delivery_id)),
        exists|g: DeadView| #[trigger]
            is_left_of(g, d, failure.replayable, now_ms) && (dead_reads_back(g) && dead_bytes_read(
                g,
            ) ==> t.row(dead(), delivery_id) == Some(dead_bytes(g))),
        !failure.replayable ==> suppressed(t, delivery_id),
        others_stay(s, t, delivery_id),
{
    lemma_tables();
    let (mid, count) = choose|mid: StoreState, count: nat|
        retried(s, delivery_id, generation, failure, policy, now_ms, jitter_ms) == Some(mid)
            && #[trigger] compacted(mid, now_ms, t, count);
    law_compaction_keeps(mid, now_ms, t, count);
    law_compaction_leaves_the_live_indexes(mid, now_ms, t, count);
    let g = crate::store_model::dead_of(d, failure, now_ms);
    let old = index_key(d.dept, d.lease_until_ms->0, delivery_id);
    let key = dead_index_key(d.dept, now_ms, delivery_id);
    let a = s.without_key(leased(), old).with_row(dead(), delivery_id, dead_bytes(g));
    if failure.replayable {
        assert(mid == a.with_key(dead_due(), key).without_row(deliveries(), delivery_id));
    } else {
        let b = a.with_key(terminal(), key);
        law_suppression_holds(b, delivery_id);
        let c = suppressing(b, delivery_id)->0;
        assert(mid == c.without_row(deliveries(), delivery_id));
        crate::store_invariant::lemma_suppressed_same(c, mid);
        assert(suppressed(c, delivery_id));
        assert(suppressed(mid, delivery_id));
    }
    assert(mid.row(deliveries(), delivery_id) is None);
    assert(t.row(deliveries(), delivery_id) == mid.row(deliveries(), delivery_id));
    assert(mid.row(dead(), delivery_id) == Some(dead_bytes(g)));
    assert(!mid.has_key(leased(), old));
    assert(t.has_key(leased(), old) == mid.has_key(leased(), old));
    assert(is_left_of(g, d, failure.replayable, now_ms));
    if dead_reads_back(g) && dead_bytes_read(g) {
        let e = dead_at(mid, delivery_id)->0;
        assert(e.dead_at_ms == now_ms);
        law_compaction_spares_the_recent(mid, now_ms, t, count, delivery_id);
        lemma_spared_row(mid, now_ms, t, count, delivery_id);
    }
    assert forall|id: Seq<char>| id != delivery_id implies #[trigger] t.row(deliveries(), id)
        == s.row(deliveries(), id) by {
        assert(mid.row(deliveries(), id) == s.row(deliveries(), id));
    }
}

/// A dead delivery whose text can be read.
pub open spec fn dead_bytes_read(g: DeadView) -> bool {
    crate::record_codec::decode_dead(dead_bytes(g)) is Some
}

proof fn lemma_spared_row(
    s: StoreState,
    now_ms: u64,
    t: StoreState,
    count: nat,
    id: Seq<char>,
)
    requires
        compacted(s, now_ms, t, count),
        dead_at(t, id) is Some,
    ensures
        t.row(dead(), id) == s.row(dead(), id),
{
    law_compaction_keeps(s, now_ms, t, count);
    assert(t.row(dead(), id) is Some);
}

/// Whether what is read is a delivery, but for fractions in the payloads.
pub open spec fn reads_as(e: DeliveryView, d: DeliveryView) -> bool {
    &&& e.delivery_id == d.delivery_id
    &&& e.queue == d.queue
    &&& e.dept == d.dept
    &&& alike(d.payload, e.payload)
    &&& e.source == d.source
    &&& e.observed_at_ms == d.observed_at_ms
    &&& e.redrive_count == d.redrive_count
    &&& e.collapse_by_dedup_id == d.collapse_by_dedup_id
    &&& e.pending_dirty == d.pending_dirty
    &&& e.lease_generation == d.lease_generation
    &&& storable(d) ==> e.payload == d.payload && e.cron_payload == d.cron_payload
}

/// What is read of a delivery that failed and was given back is what was given out: the delivery
/// itself where it is scheduled again, and the record that the dead one keeps where it is buried as
/// worth another try.
pub proof fn law_what_is_given_back_is_what_was_given_out(
    s: StoreState,
    delivery_id: Seq<char>,
    generation: u64,
    failure: FailureView,
    policy: RetryPolicy,
    now_ms: u64,
    jitter_ms: nat,
    t: StoreState,
    d: DeliveryView,
)
    requires
        live_at(s, delivery_id) == Some(d),
        is_held(d, generation),
        holds_retried(s, delivery_id, generation, failure, policy, now_ms, jitter_ms, t),
    ensures
        d.attempt + 1 < policy.max_attempts ==> {
            &&& storable(d) ==> live_at(t, delivery_id) is Some
            &&& live_at(t, delivery_id) matches Some(e) ==> reads_as(e, d) && e.attempt == d.attempt
                + 1 && e.lease_until_ms is None
        },
        d.attempt + 1 >= policy.max_attempts && failure.replayable ==> {
            &&& storable(d) ==> dead_at(t, delivery_id) is Some
            &&& dead_at(t, delivery_id) matches Some(g) ==> (g.record matches Some(e) && reads_as(
                e,
                d,
            ) && e.lease_until_ms is None)
        },
{
}

// Leases.

/// A lease changes nothing of a delivery but its lease: it is given out as it is, up to the time of
/// the lease and with the next generation, and written so. It was due, is not left out, and belongs
/// to the department that asked.
pub proof fn law_a_lease_gives_out_what_is_there(
    s: StoreState,
    key: DueView,
    now_ms: u64,
    until_ms: u64,
    dept: Option<Seq<char>>,
    excluded: Seq<Seq<char>>,
    expired: bool,
    step: LeaseStep,
    w: DeliveryView,
)
    requires
        lease_step(s, key, now_ms, until_ms, dept, excluded, expired) == Some(step),
        step.record == Some(w),
    ensures
        live_at(s, key.delivery_id) matches Some(d) && {
            &&& same_delivery(w, d)
            &&& w.attempt == d.attempt
            &&& w.redrive_count == d.redrive_count
            &&& w.not_before_ms == d.not_before_ms
            &&& w.last_error_excerpt == d.last_error_excerpt
            &&& w.lease_until_ms == Some(until_ms)
            &&& w.lease_generation == capped_time(d.lease_generation + 1)
            &&& expired ==> d.lease_until_ms == Some(key.due_ms)
            &&& !expired ==> d.lease_until_ms is None && d.not_before_ms <= now_ms
            &&& dept matches Some(wanted) ==> d.dept == wanted
        },
        !excluded.contains(key.delivery_id),
        holds(step.state, key.delivery_id, w),
        step.state.has_key(leased(), index_key(w.dept, until_ms, key.delivery_id)),
        others_stay(s, step.state, key.delivery_id),
        forall|id: Seq<char>| #[trigger] step.state.row(dead(), id) == s.row(dead(), id),
{
    reveal(lease_step);
    lemma_tables();
}

/// A delivery that is ready and due, or whose lease ran out when the key says, is given out to
/// whoever asks for its department or for any, unless it is left out.
pub proof fn law_a_due_delivery_is_given_out(
    s: StoreState,
    key: DueView,
    now_ms: u64,
    until_ms: u64,
    dept: Option<Seq<char>>,
    excluded: Seq<Seq<char>>,
    expired: bool,
    d: DeliveryView,
)
    requires
        live_at(s, key.delivery_id) == Some(d),
        !excluded.contains(key.delivery_id),
        dept matches Some(wanted) ==> d.dept == wanted,
        if expired {
            d.lease_until_ms == Some(key.due_ms)
        } else {
            d.lease_until_ms is None && d.not_before_ms <= now_ms
        },
    ensures
        lease_step(s, key, now_ms, until_ms, dept, excluded, expired) matches Some(step)
            && step.record is Some && step.mutated,
{
    reveal(lease_step);
}

/// A key that gives out nothing changes no delivery.
pub proof fn law_a_key_without_a_lease_changes_no_delivery(
    s: StoreState,
    key: DueView,
    now_ms: u64,
    until_ms: u64,
    dept: Option<Seq<char>>,
    excluded: Seq<Seq<char>>,
    expired: bool,
    step: LeaseStep,
)
    requires
        lease_step(s, key, now_ms, until_ms, dept, excluded, expired) == Some(step),
        step.record is None,
    ensures
        forall|id: Seq<char>| #[trigger]
            step.state.row(deliveries(), id) == s.row(deliveries(), id),
        forall|id: Seq<char>| #[trigger] step.state.row(dead(), id) == s.row(dead(), id),
        !step.mutated ==> step.state == s,
{
    reveal(lease_step);
    lemma_tables();
}

/// Half of a batch, rounded down, may be deliveries whose lease ran out, and one at the least.
pub proof fn law_half_a_batch_is_for_leases_that_ran_out(batch_limit: nat)
    ensures
        batch_limit == 0 ==> expired_quota(batch_limit) == 0,
        batch_limit == 1 ==> expired_quota(batch_limit) == 1,
        batch_limit >= 2 ==> 2 * expired_quota(batch_limit) <= batch_limit < 2 * expired_quota(
            batch_limit,
        ) + 2,
{
}

/// Renewing a lease changes nothing of a delivery but when its lease runs out, and tells what is then
/// stored.
pub proof fn law_a_renewal_changes_the_lease_alone(
    s: StoreState,
    delivery_id: Seq<char>,
    generation: u64,
    until_ms: u64,
    d: DeliveryView,
)
    requires
        live_at(s, delivery_id) == Some(d),
        is_held(d, generation),
    ensures
        ({
            let renewals = seq![(delivery_id, generation)];
            let t = renewed_all(s, renewals, until_ms);
            exists|w: DeliveryView| #[trigger]
                holds(t, delivery_id, w) && same_delivery(w, d) && w.attempt == d.attempt
                    && w.redrive_count == d.redrive_count && w.lease_generation
                    == d.lease_generation && w.not_before_ms == d.not_before_ms
                    && w.last_error_excerpt == d.last_error_excerpt && w.lease_until_ms == Some(
                    until_ms,
                ) && renewed_records(s, renewals, until_ms) == Map::<
                    Seq<char>,
                    DeliveryView,
                >::empty().insert(delivery_id, w) && t.has_key(
                    leased(),
                    index_key(d.dept, until_ms, delivery_id),
                ) && others_stay(s, t, delivery_id)
        }),
{
    lemma_tables();
    let renewals = seq![(delivery_id, generation)];
    assert(renewals.drop_last() =~= Seq::<(Seq<char>, u64)>::empty());
    assert(renewals.last() == (delivery_id, generation));
    assert(renewed_all(s, renewals.drop_last(), until_ms) == s);
    assert(renewed_records(s, renewals.drop_last(), until_ms) == Map::<
        Seq<char>,
        DeliveryView,
    >::empty());
    let w = DeliveryView { lease_until_ms: Some(until_ms), ..d };
    assert(holds(renewed_all(s, renewals, until_ms), delivery_id, w));
}

/// A delivery whose run found a lock busy is put off as the delivery that it is: no attempt is
/// counted, its lease is given up, and it is due after the delay for a first attempt.
pub proof fn law_a_delivery_that_is_put_off_stays_as_it_is(
    s: StoreState,
    delivery_id: Seq<char>,
    generation: u64,
    lock: Seq<char>,
    policy: RetryPolicy,
    now_ms: u64,
    d: DeliveryView,
)
    requires
        live_at(s, delivery_id) == Some(d),
        is_held(d, generation),
    ensures
        defer_outcome(s, delivery_id, generation) == LockBusyDeferOutcome::Scheduled,
        ({
            let t = deferred(s, delivery_id, generation, lock, policy, now_ms);
            exists|w: DeliveryView| #[trigger]
                holds(t, delivery_id, w) && same_delivery(w, d) && w.attempt == d.attempt
                    && w.redrive_count == d.redrive_count && w.lease_generation
                    == d.lease_generation && w.lease_until_ms is None && w.not_before_ms
                    == capped_time(
                    now_ms + backoff_millis(
                        policy.base@ / 1_000_000,
                        policy.cap@ / 1_000_000,
                        1,
                    ),
                ) && t.has_key(ready(), index_key(d.dept, w.not_before_ms, delivery_id))
                    && others_stay(s, t, delivery_id)
        }),
        !deferred(s, delivery_id, generation, lock, policy, now_ms).has_key(
            leased(),
            index_key(d.dept, d.lease_until_ms->0, delivery_id),
        ),
{
    lemma_tables();
    let w = crate::store_model::put_off(d, lock, policy, now_ms);
    assert(holds(deferred(s, delivery_id, generation, lock, policy, now_ms), delivery_id, w));
}

/// A delivery that is done is out of the index of leases too.
pub proof fn law_done_is_out_of_the_index(s: StoreState, delivery_id: Seq<char>, d: DeliveryView)
    requires
        live_at(s, delivery_id) == Some(d),
        d.lease_until_ms is Some,
    ensures
        acked(s, delivery_id, d).row(deliveries(), delivery_id) is None,
        !acked(s, delivery_id, d).has_key(
            leased(),
            index_key(d.dept, d.lease_until_ms->0, delivery_id),
        ),
        others_stay(s, acked(s, delivery_id, d), delivery_id),
{
    lemma_tables();
}

/// Who says what came of a delivery that is not there, or whose lease another holds, is told so.
pub proof fn law_who_does_not_hold_is_told(
    s: StoreState,
    delivery_id: Seq<char>,
    generation: u64,
    failure: FailureView,
    policy: RetryPolicy,
)
    ensures
        live_at(s, delivery_id) is None ==> retry_outcome(
            s,
            delivery_id,
            generation,
            failure,
            policy,
        ) == RetryOutcome::Missing && defer_outcome(s, delivery_id, generation)
            == LockBusyDeferOutcome::Missing && held_lease(s, delivery_id, generation) is None,
        live_at(s, delivery_id) matches Some(d) ==> {
            &&& !is_held(d, generation) ==> retry_outcome(
                s,
                delivery_id,
                generation,
                failure,
                policy,
            ) == RetryOutcome::Stale && defer_outcome(s, delivery_id, generation)
                == LockBusyDeferOutcome::Stale && held_lease(s, delivery_id, generation) is None
            &&& is_held(d, generation) ==> held_lease(s, delivery_id, generation) == Some(d)
        },
{
}

// Enqueuing.

/// A delivery that is put in, where nothing is known of its id, is stored as it is and stands in the
/// index of those that are ready from its time on. No other delivery is touched.
pub proof fn law_a_new_delivery_is_stored_as_it_is(s: StoreState, d: DeliveryView, t: StoreState)
    requires
        s.row(deliveries(), d.delivery_id) is None,
        enqueued(s, d, t),
    ensures
        !suppressed(t, d.delivery_id) ==> holds(t, d.delivery_id, d) && t.has_key(
            ready(),
            index_key(d.dept, d.not_before_ms, d.delivery_id),
        ),
        suppressed(t, d.delivery_id) ==> t.row(deliveries(), d.delivery_id) is None,
        others_stay(s, t, d.delivery_id),
        forall|k: Seq<char>|
            k != index_key(d.dept, d.not_before_ms, d.delivery_id) ==> #[trigger] t.has_key(
                ready(),
                k,
            ) == s.has_key(ready(), k),
        forall|k: Seq<char>| #[trigger] t.has_key(leased(), k) == s.has_key(leased(), k),
{
    lemma_tables();
    let (mid, count) = choose|mid: StoreState, count: nat| #[trigger]
        compacted(s, d.observed_at_ms, mid, count) && t == if suppressed(mid, d.delivery_id) {
            mid
        } else {
            with_delivery(mid, d)
        };
    law_compaction_keeps(s, d.observed_at_ms, mid, count);
    law_compaction_leaves_the_live_indexes(s, d.observed_at_ms, mid, count);
    crate::store_invariant::lemma_suppressed_same(mid, with_delivery(mid, d));
    assert(mid.row(deliveries(), d.delivery_id) == s.row(deliveries(), d.delivery_id));
    assert forall|id: Seq<char>| id != d.delivery_id implies #[trigger] t.row(deliveries(), id)
        == s.row(deliveries(), id) by {
        assert(mid.row(deliveries(), id) == s.row(deliveries(), id));
    }
    assert forall|k: Seq<char>|
        k != index_key(d.dept, d.not_before_ms, d.delivery_id) implies #[trigger] t.has_key(
        ready(),
        k,
    ) == s.has_key(ready(), k) by {
        assert(mid.has_key(ready(), k) == s.has_key(ready(), k));
    }
    assert forall|k: Seq<char>| #[trigger] t.has_key(leased(), k) == s.has_key(leased(), k) by {
        assert(mid.has_key(leased(), k) == s.has_key(leased(), k));
    }
}

// Redrives.

/// Whether a delivery that is sent again is the one that a dead delivery kept.
pub open spec fn is_sent_again(c: DeliveryView, was: DeadView, now_ms: u64) -> bool {
    was.record matches Some(r) && {
        &&& same_delivery(c, r)
        &&& c.redrive_count == was.redrive_count + 1
        &&& c.attempt == 0
        &&& c.lease_until_ms is None
        &&& c.lease_generation == capped_time(r.lease_generation + 1)
        &&& c.not_before_ms == now_ms
        &&& c.last_error_excerpt is None
    }
}

/// Whether what is left of a dead delivery that is given up is that dead delivery.
pub open spec fn is_given_up(d: DeadView, was: DeadView) -> bool {
    &&& d.delivery_id == was.delivery_id
    &&& d.queue == was.queue
    &&& d.dept == was.dept
    &&& d.source == was.source
    &&& d.observed_at_ms == was.observed_at_ms
    &&& d.not_before_ms == was.not_before_ms
    &&& d.dead_at_ms == was.dead_at_ms
    &&& d.attempts == was.attempts
    &&& d.redrive_count == was.redrive_count
    &&& d.permanent
    &&& !d.replayable
    &&& d.record is None
}

/// A delivery that is sent again is the one that died, and one that is given up is the one that was
/// dead. No other delivery is touched, and nothing is where nothing is told.
pub proof fn law_what_is_sent_again_is_what_died(
    s: StoreState,
    key: DueView,
    policy: RedrivePolicy,
    now_ms: u64,
    step: RedriveStep,
)
    requires
        redrive_step(s, key, policy, now_ms) == Some(step),
    ensures
        step.redriven matches Some(c) ==> {
            &&& dead_at(s, key.delivery_id) matches Some(was) && is_sent_again(c, was, now_ms)
                && !was.permanent && was.replayable && was.redrive_count < policy.max_redrives
            &&& s.row(deliveries(), key.delivery_id) is None
            &&& holds(step.state, key.delivery_id, c)
            &&& step.state.row(dead(), key.delivery_id) is None
            &&& step.state.has_key(ready(), index_key(c.dept, now_ms, key.delivery_id))
            &&& !step.state.has_key(dead_due(), key.key)
        },
        step.permanent matches Some(d) ==> {
            &&& dead_at(s, key.delivery_id) matches Some(was) && is_given_up(d, was)
            &&& step.state.row(dead(), key.delivery_id) == Some(dead_bytes(d))
            &&& step.state.row(deliveries(), key.delivery_id) == s.row(
                deliveries(),
                key.delivery_id,
            )
            &&& suppressed(step.state, key.delivery_id)
        },
        step.redriven is None ==> step.state.row(deliveries(), key.delivery_id) == s.row(
            deliveries(),
            key.delivery_id,
        ),
        step.redriven is None && step.permanent is None ==> step.state.row(dead(), key.delivery_id)
            == s.row(dead(), key.delivery_id),
        others_stay(s, step.state, key.delivery_id),
        forall|id: Seq<char>|
            id != key.delivery_id ==> #[trigger] step.state.row(dead(), id) == s.row(dead(), id),
{
    reveal(redrive_step);
    lemma_tables();
    let id = key.delivery_id;
    match step.permanent {
        Some(d) => {
            assert(crate::store_model::giving_up(s, key, d) == Some(step));
            let a = s.without_key(dead_due(), key.key).with_row(dead(), id, dead_bytes(d)).with_key(
                terminal(),
                dead_index_key(d.dept, d.dead_at_ms, id),
            );
            law_suppression_holds(a, id);
            assert(step.state == suppressing(a, id)->0);
        },
        None => {},
    }
}

/// A dead delivery that is worth another try, whose time is the one that the key says and has come,
/// is sent again where it is not live and has redrives left.
pub proof fn law_a_rested_delivery_is_sent_again(
    s: StoreState,
    key: DueView,
    policy: RedrivePolicy,
    now_ms: u64,
    was: DeadView,
)
    requires
        dead_at(s, key.delivery_id) == Some(was),
        was.dead_at_ms == key.due_ms,
        !was.permanent,
        was.replayable,
        was.record is Some,
        was.redrive_count < policy.max_redrives,
        policy.cooldown@ / 1_000_000 <= u64::MAX,
        was.dead_at_ms + policy.cooldown@ / 1_000_000 <= now_ms,
        s.row(deliveries(), key.delivery_id) is None,
    ensures
        redrive_step(s, key, policy, now_ms) matches Some(step) && step.redriven is Some
            && step.permanent is None && step.mutated,
{
    reveal(redrive_step);
}

/// A dead delivery that has not rested for as long as the policy asks is left as it is.
pub proof fn law_a_delivery_that_has_not_rested_waits(
    s: StoreState,
    key: DueView,
    policy: RedrivePolicy,
    now_ms: u64,
    was: DeadView,
)
    requires
        dead_at(s, key.delivery_id) == Some(was),
        was.dead_at_ms == key.due_ms,
        policy.cooldown@ / 1_000_000 <= u64::MAX,
        now_ms < was.dead_at_ms + policy.cooldown@ / 1_000_000,
        now_ms < u64::MAX,
    ensures
        redrive_step(s, key, policy, now_ms) matches Some(step) && step.state == s
            && step.redriven is None && step.permanent is None && !step.mutated,
{
    reveal(redrive_step);
}

/// A rested dead delivery that was sent again as often as the policy allows, that has no record, or
/// that is live again is given up.
pub proof fn law_a_delivery_without_redrives_is_given_up(
    s: StoreState,
    key: DueView,
    policy: RedrivePolicy,
    now_ms: u64,
    was: DeadView,
)
    requires
        dead_at(s, key.delivery_id) == Some(was),
        was.dead_at_ms == key.due_ms,
        !was.permanent,
        was.replayable,
        policy.cooldown@ / 1_000_000 <= u64::MAX,
        was.dead_at_ms + policy.cooldown@ / 1_000_000 <= now_ms,
        was.record is None || was.redrive_count >= policy.max_redrives || s.row(
            deliveries(),
            key.delivery_id,
        ) is Some,
    ensures
        redrive_step(s, key, policy, now_ms) matches Some(step) ==> step.permanent is Some
            && step.redriven is None,
{
    reveal(redrive_step);
}

/// What a redrive reports as sent again are the deliveries that died: each is the one that the dead
/// delivery under its id kept.
pub proof fn law_what_a_redrive_reports_is_what_died(
    s: StoreState,
    policy: RedrivePolicy,
    now_ms: u64,
    again: Seq<DeliveryView>,
    permanent: Seq<DeadView>,
    t: StoreState,
    i: int,
)
    requires
        told_truly(s, policy, now_ms, again, permanent, t),
    ensures
        0 <= i < again.len() ==> (dead_at(s, again[i].delivery_id) matches Some(was)
            && is_sent_again(again[i], was, now_ms) && was.redrive_count < policy.max_redrives),
        0 <= i < permanent.len() ==> (dead_at(s, permanent[i].delivery_id) matches Some(was)
            && is_given_up(permanent[i], was)),
{
}

} // verus!
