//! What holds over any row of calls of the delivery store.

use vstd::prelude::*;
use crate::delivery_index::{dead_index_key, index_key, DueView};
use crate::delivery_store::{redrive_start, retry_done};
use crate::delivery_types::{DeliveryView, RedrivePolicy, RetryPolicy};
use crate::record_codec::{all_read_back, dead_bytes, dead_reads_back, delivery_bytes};
use crate::store_invariant::{lemma_suppressed_same, named, sound_at};
use crate::store_laws::law_compaction_keeps;
use crate::store_leases::{
    batch_done, law_a_batch_leaves_out_what_is_not_live, BatchCall,
};
use crate::store_model::{
    acked, after_failure, compacted, dead, dead_at, dead_due, dead_of, deferred, deliveries,
    enqueued, found_from, giving_up, held_lease, is_terminal, law_suppression_holds, leased,
    lemma_tables, live_at, ready, redrive_run, redrive_step, renewed, renewed_all, retried,
    retry_outcome, slot_key, suppressed, suppressing, suppressing_from, suppression, terminal,
    with_delivery, with_lease, FailureView, RedriveRun, RetryOutcome,
    TERMINAL_SUPPRESSION_SLOTS,
};
use crate::tables::StoreState;

verus! {

/// A call that changes what the store holds.
pub enum StoreCall {
    Enqueue { record: DeliveryView },
    Lease { call: BatchCall },
    LeaseOne { delivery_id: Seq<char>, now_ms: u64, until_ms: u64 },
    Renew { renewals: Seq<(Seq<char>, u64)>, until_ms: u64 },
    Ack { delivery_id: Seq<char>, generation: u64 },
    Retry {
        delivery_id: Seq<char>,
        generation: u64,
        failure: FailureView,
        policy: RetryPolicy,
        now_ms: u64,
        jitter_ms: nat,
    },
    Defer {
        delivery_id: Seq<char>,
        generation: u64,
        lock: Seq<char>,
        policy: RetryPolicy,
        now_ms: u64,
    },
    Redrive { keys: Seq<DueView>, limits: RedrivePolicy, now_ms: u64 },
    Suppress { delivery_id: Seq<char> },
    Compact { now_ms: u64 },
}

/// The store after one delivery is leased, where it is not leased and is due.
pub open spec fn leased_one(
    s: StoreState,
    delivery_id: Seq<char>,
    now_ms: u64,
    until_ms: u64,
) -> StoreState {
    match live_at(s, delivery_id) {
        Some(d) => if d.lease_until_ms is Some || d.not_before_ms > now_ms {
            s
        } else {
            s.without_key(ready(), index_key(d.dept, d.not_before_ms, delivery_id)).with_row(
                deliveries(),
                delivery_id,
                delivery_bytes(with_lease(d, until_ms)),
            ).with_key(leased(), index_key(d.dept, until_ms, delivery_id))
        },
        None => s,
    }
}

/// The store after a compaction.
pub open spec fn after_compaction(s: StoreState, now_ms: u64, t: StoreState) -> bool {
    exists|count: nat| #[trigger] compacted(s, now_ms, t, count)
}

/// Whether a call that is done takes the store from one state to another.
pub open spec fn call_done(s: StoreState, call: StoreCall, t: StoreState) -> bool {
    match call {
        StoreCall::Enqueue { record } => enqueued(s, record, t),
        StoreCall::Lease { call } => batch_done(s, call) matches Some(run) && all_read_back(
            run.leased,
        ) && t == run.state,
        StoreCall::LeaseOne { delivery_id, now_ms, until_ms } => t == leased_one(
            s,
            delivery_id,
            now_ms,
            until_ms,
        ),
        StoreCall::Renew { renewals, until_ms } => t == renewed_all(s, renewals, until_ms),
        StoreCall::Ack { delivery_id, generation } => t == match held_lease(
            s,
            delivery_id,
            generation,
        ) {
            Some(d) => acked(s, delivery_id, d),
            None => s,
        },
        StoreCall::Retry { delivery_id, generation, failure, policy, now_ms, jitter_ms } =>
            retry_done(s, delivery_id, generation, failure, policy, now_ms, jitter_ms, t),
        StoreCall::Defer { delivery_id, generation, lock, policy, now_ms } => t == deferred(
            s,
            delivery_id,
            generation,
            lock,
            policy,
            now_ms,
        ),
        StoreCall::Redrive { keys, limits, now_ms } => redrive_run(
            redrive_start(s),
            keys,
            limits,
            now_ms,
        ) matches Some(run) && after_compaction(run.state, now_ms, t),
        StoreCall::Suppress { delivery_id } => suppressing(s, delivery_id) == Some(t),
        StoreCall::Compact { now_ms } => after_compaction(s, now_ms, t),
    }
}

/// A delivery that is done with: it must not come back, it is not live, and if something of it is
/// left, it is dead for good.
pub open spec fn put_away(s: StoreState, delivery_id: Seq<char>) -> bool {
    &&& suppressed(s, delivery_id)
    &&& s.row(deliveries(), delivery_id) is None
    &&& dead_at(s, delivery_id) matches Some(d) ==> is_terminal(d)
}

/// A delivery that is dead for good, and soundly so, is done with.
pub proof fn law_dead_for_good_is_put_away(s: StoreState, delivery_id: Seq<char>)
    requires
        sound_at(s, delivery_id),
        dead_at(s, delivery_id) matches Some(d) && is_terminal(d),
        s.row(deliveries(), delivery_id) is None,
    ensures
        put_away(s, delivery_id),
{
}

/// A delivery that fails for good is done with.
pub proof fn law_permanent_death_puts_away(
    s: StoreState,
    delivery_id: Seq<char>,
    generation: u64,
    failure: FailureView,
    policy: RetryPolicy,
    now_ms: u64,
    jitter_ms: nat,
    t: StoreState,
)
    requires
        retry_outcome(s, delivery_id, generation, failure, policy) == RetryOutcome::PermanentDead,
        retry_done(s, delivery_id, generation, failure, policy, now_ms, jitter_ms, t),
        dead_reads_back(dead_of(live_at(s, delivery_id)->0, failure, now_ms)),
    ensures
        put_away(t, delivery_id),
{
    lemma_tables();
    let (mid, count) = choose|mid: StoreState, count: nat|
        retried(s, delivery_id, generation, failure, policy, now_ms, jitter_ms) == Some(mid)
            && #[trigger] compacted(mid, now_ms, t, count);
    let d = live_at(s, delivery_id)->0;
    let gone = dead_of(d, failure, now_ms);
    let a = s.without_key(leased(), index_key(d.dept, d.lease_until_ms->0, delivery_id)).with_row(
        dead(),
        delivery_id,
        dead_bytes(gone),
    ).with_key(terminal(), dead_index_key(d.dept, now_ms, delivery_id));
    law_suppression_holds(a, delivery_id);
    let b = suppressing(a, delivery_id)->0;
    lemma_suppressed_same(b, mid);
    assert(suppressed(b, delivery_id));
    assert(mid.row(dead(), delivery_id) == Some(dead_bytes(gone)));
    assert(after_compaction(mid, now_ms, t));
    lemma_compaction_leaves_it(mid, now_ms, t, delivery_id);
}

/// No slot holds an id.
pub open spec fn in_no_slot(s: StoreState, delivery_id: Seq<char>) -> bool {
    forall|slot: Seq<char>| #[trigger] s.text(suppression(), slot) != Some(delivery_id)
}

proof fn lemma_not_found(s: StoreState, delivery_id: Seq<char>, offset: nat)
    requires
        in_no_slot(s, delivery_id),
    ensures
        !found_from(s, delivery_id, offset),
    decreases TERMINAL_SUPPRESSION_SLOTS - offset,
{
    if offset < TERMINAL_SUPPRESSION_SLOTS {
        assert(s.text(suppression(), slot_key(delivery_id, offset)) != Some(delivery_id));
        lemma_not_found(s, delivery_id, offset + 1);
    }
}

proof fn lemma_other_in_no_slot(
    s: StoreState,
    delivery_id: Seq<char>,
    other: Seq<char>,
    offset: nat,
)
    requires
        in_no_slot(s, other),
        other != delivery_id,
        suppressing_from(s, delivery_id, offset) is Some,
    ensures
        in_no_slot(suppressing_from(s, delivery_id, offset)->0, other),
    decreases TERMINAL_SUPPRESSION_SLOTS - offset,
{
    match s.text(suppression(), slot_key(delivery_id, offset)) {
        None => {
            let t = suppressing_from(s, delivery_id, offset)->0;
            assert forall|slot: Seq<char>| #[trigger] t.text(suppression(), slot) != Some(
                other,
            ) by {
                assert(s.text(suppression(), slot) != Some(other));
            }
        },
        Some(held) => {
            if held != delivery_id {
                lemma_other_in_no_slot(s, delivery_id, other, offset + 1);
            }
        },
    }
}

/// Suppressing one id suppresses no other, not even one whose search starts at the same slot.
pub proof fn law_suppression_is_of_one_id(s: StoreState, delivery_id: Seq<char>, other: Seq<char>)
    requires
        suppressing(s, delivery_id) is Some,
        other != delivery_id,
        in_no_slot(s, other),
    ensures
        in_no_slot(suppressing(s, delivery_id)->0, other),
        !suppressed(suppressing(s, delivery_id)->0, other),
{
    lemma_other_in_no_slot(s, delivery_id, other, 0);
    lemma_not_found(suppressing(s, delivery_id)->0, other, 0);
}

proof fn lemma_compaction_leaves_it(s: StoreState, now_ms: u64, t: StoreState, id: Seq<char>)
    requires
        put_away(s, id),
        after_compaction(s, now_ms, t),
    ensures
        put_away(t, id),
{
    let count = choose|count: nat| #[trigger] compacted(s, now_ms, t, count);
    law_compaction_keeps(s, now_ms, t, count);
    assert(t.row(deliveries(), id) == s.row(deliveries(), id));
    assert(suppressed(s, id));
    if t.row(dead(), id) is Some {
        assert(t.row(dead(), id) == s.row(dead(), id));
    }
}

proof fn lemma_renewals_leave_it(
    s: StoreState,
    renewals: Seq<(Seq<char>, u64)>,
    until_ms: u64,
    id: Seq<char>,
)
    requires
        put_away(s, id),
    ensures
        put_away(renewed_all(s, renewals, until_ms), id),
    decreases renewals.len(),
{
    lemma_tables();
    if renewals.len() > 0 {
        lemma_renewals_leave_it(s, renewals.drop_last(), until_ms, id);
        let front = renewed_all(s, renewals.drop_last(), until_ms);
        let (other, generation) = renewals.last();
        match held_lease(front, other, generation) {
            Some(d) => {
                let t = renewed(front, other, d, until_ms);
                lemma_suppressed_same(front, t);
                assert(suppressed(front, id));
                assert(other != id);
                assert(t.row(dead(), id) == front.row(dead(), id));
            },
            None => {},
        }
    }
}

proof fn lemma_retry_leaves_it(
    s: StoreState,
    delivery_id: Seq<char>,
    generation: u64,
    failure: FailureView,
    policy: RetryPolicy,
    now_ms: u64,
    jitter_ms: nat,
    mid: StoreState,
    id: Seq<char>,
)
    requires
        put_away(s, id),
        retried(s, delivery_id, generation, failure, policy, now_ms, jitter_ms) == Some(mid),
    ensures
        put_away(mid, id),
{
    lemma_tables();
    match held_lease(s, delivery_id, generation) {
        None => {},
        Some(d) => {
            assert(delivery_id != id);
            let failed = after_failure(d, failure);
            if failed.attempt >= policy.max_attempts && !failure.replayable {
                let a = s.without_key(
                    leased(),
                    index_key(d.dept, d.lease_until_ms->0, delivery_id),
                ).with_row(
                    dead(),
                    delivery_id,
                    dead_bytes(dead_of(d, failure, now_ms)),
                ).with_key(terminal(), dead_index_key(d.dept, now_ms, delivery_id));
                lemma_suppressed_same(s, a);
                assert(suppressed(a, id));
                law_suppression_holds(a, delivery_id);
                let b = suppressing(a, delivery_id)->0;
                assert(suppressed(b, id));
                lemma_suppressed_same(b, mid);
            } else {
                lemma_suppressed_same(s, mid);
            }
            assert(mid.row(deliveries(), id) == s.row(deliveries(), id));
            assert(mid.row(dead(), id) == s.row(dead(), id));
        },
    }
}

proof fn lemma_redrive_step_leaves_it(
    s: StoreState,
    key: DueView,
    policy: RedrivePolicy,
    now_ms: u64,
    id: Seq<char>,
)
    requires
        put_away(s, id),
    ensures
        redrive_step(s, key, policy, now_ms) matches Some(step) ==> put_away(step.state, id),
{
    reveal(redrive_step);
    lemma_tables();
    assert(suppressed(s, id));
    match redrive_step(s, key, policy, now_ms) {
        None => {},
        Some(step) => {
            match step.permanent {
                Some(d) => {
                    let other = key.delivery_id;
                    assert(other != id);
                    assert(giving_up(s, key, d) == Some(step));
                    let a = s.without_key(dead_due(), key.key).with_row(
                        dead(),
                        other,
                        dead_bytes(d),
                    ).with_key(terminal(), dead_index_key(d.dept, d.dead_at_ms, other));
                    lemma_suppressed_same(s, a);
                    assert(suppressed(a, id));
                    law_suppression_holds(a, other);
                    assert(step.state == suppressing(a, other)->0);
                },
                None => {
                    lemma_suppressed_same(s, step.state);
                },
            }
            assert(step.state.row(deliveries(), id) == s.row(deliveries(), id));
            assert(step.state.row(dead(), id) == s.row(dead(), id));
        },
    }
}

proof fn lemma_redrive_run_leaves_it(
    run: RedriveRun,
    keys: Seq<DueView>,
    policy: RedrivePolicy,
    now_ms: u64,
    id: Seq<char>,
)
    requires
        put_away(run.state, id),
    ensures
        redrive_run(run, keys, policy, now_ms) matches Some(done) ==> put_away(done.state, id),
    decreases keys.len(),
{
    if keys.len() > 0 {
        lemma_redrive_step_leaves_it(run.state, keys[0], policy, now_ms, id);
        match redrive_step(run.state, keys[0], policy, now_ms) {
            None => {},
            Some(step) => {
                lemma_redrive_run_leaves_it(
                    RedriveRun {
                        state: step.state,
                        redriven: match step.redriven {
                            Some(d) => run.redriven.push(d),
                            None => run.redriven,
                        },
                        permanent: match step.permanent {
                            Some(d) => run.permanent.push(d),
                            None => run.permanent,
                        },
                        mutated: run.mutated || step.mutated,
                    },
                    keys.drop_first(),
                    policy,
                    now_ms,
                    id,
                );
            },
        }
    }
}

proof fn lemma_enqueue_leaves_it(s: StoreState, record: DeliveryView, t: StoreState, id: Seq<char>)
    requires
        put_away(s, id),
        enqueued(s, record, t),
    ensures
        put_away(t, id),
{
    lemma_tables();
    assert(suppressed(s, id));
    if s.row(deliveries(), record.delivery_id) is Some {
        assert(record.delivery_id != id);
        lemma_suppressed_same(s, t);
        assert(t.row(deliveries(), id) == s.row(deliveries(), id));
        assert(t.row(dead(), id) == s.row(dead(), id));
    } else {
        let (mid, count) = choose|mid: StoreState, count: nat| #[trigger]
            compacted(s, record.observed_at_ms, mid, count) && t == if suppressed(
                mid,
                record.delivery_id,
            ) {
                mid
            } else {
                with_delivery(mid, record)
            };
        assert(after_compaction(s, record.observed_at_ms, mid));
        lemma_compaction_leaves_it(s, record.observed_at_ms, mid, id);
        assert(suppressed(mid, id));
        if !suppressed(mid, record.delivery_id) {
            assert(record.delivery_id != id);
            lemma_suppressed_same(mid, t);
            assert(t.row(deliveries(), id) == mid.row(deliveries(), id));
            assert(t.row(dead(), id) == mid.row(dead(), id));
        }
    }
}

/// A delivery that is done with stays so, whatever call comes next, and no batch gives it out.
pub proof fn law_put_away_stays_away(s: StoreState, call: StoreCall, t: StoreState, id: Seq<char>)
    requires
        named(s),
        put_away(s, id),
        call_done(s, call, t),
    ensures
        put_away(t, id),
        call matches StoreCall::Lease { call } ==> forall|i: int|
            0 <= i < (batch_done(s, call)->0).leased.len() ==> (
            #[trigger] (batch_done(s, call)->0).leased[i]).delivery_id != id,
{
    lemma_tables();
    assert(suppressed(s, id));
    match call {
        StoreCall::Enqueue { record } => {
            lemma_enqueue_leaves_it(s, record, t, id);
        },
        StoreCall::Lease { call } => {
            law_a_batch_leaves_out_what_is_not_live(s, call, batch_done(s, call)->0, id);
            lemma_suppressed_same(s, t);
        },
        StoreCall::LeaseOne { delivery_id, now_ms, until_ms } => {
            lemma_suppressed_same(s, t);
            assert(t.row(deliveries(), id) == s.row(deliveries(), id));
            assert(t.row(dead(), id) == s.row(dead(), id));
        },
        StoreCall::Renew { renewals, until_ms } => {
            lemma_renewals_leave_it(s, renewals, until_ms, id);
        },
        StoreCall::Ack { delivery_id, generation } => {
            lemma_suppressed_same(s, t);
            assert(t.row(dead(), id) == s.row(dead(), id));
        },
        StoreCall::Retry { delivery_id, generation, failure, policy, now_ms, jitter_ms } => {
            if !(live_at(s, delivery_id) matches Some(d) && d.lease_until_ms is None) {
                let (mid, count) = choose|mid: StoreState, count: nat|
                    retried(s, delivery_id, generation, failure, policy, now_ms, jitter_ms) == Some(
                        mid,
                    ) && #[trigger] compacted(mid, now_ms, t, count);
                lemma_retry_leaves_it(
                    s,
                    delivery_id,
                    generation,
                    failure,
                    policy,
                    now_ms,
                    jitter_ms,
                    mid,
                    id,
                );
                assert(after_compaction(mid, now_ms, t));
                lemma_compaction_leaves_it(mid, now_ms, t, id);
            }
        },
        StoreCall::Defer { delivery_id, generation, lock, policy, now_ms } => {
            lemma_suppressed_same(s, t);
            assert(t.row(deliveries(), id) == s.row(deliveries(), id));
            assert(t.row(dead(), id) == s.row(dead(), id));
        },
        StoreCall::Redrive { keys, limits, now_ms } => {
            lemma_redrive_run_leaves_it(redrive_start(s), keys, limits, now_ms, id);
            lemma_compaction_leaves_it(
                (redrive_run(redrive_start(s), keys, limits, now_ms)->0).state,
                now_ms,
                t,
                id,
            );
        },
        StoreCall::Suppress { delivery_id } => {
            law_suppression_holds(s, delivery_id);
            assert(t.row(dead(), id) == s.row(dead(), id));
            assert(t.row(deliveries(), id) == s.row(deliveries(), id));
        },
        StoreCall::Compact { now_ms } => {
            lemma_compaction_leaves_it(s, now_ms, t, id);
        },
    }
}

/// Whether a row of states, in which deliveries stand under their ids, is what a row of calls makes of
/// the first of them.
pub open spec fn is_history(states: Seq<StoreState>, calls: Seq<StoreCall>) -> bool {
    &&& states.len() == calls.len() + 1
    &&& forall|i: int|
        0 <= i < calls.len() ==> call_done(states[i], #[trigger] calls[i], states[i + 1])
    &&& forall|i: int| 0 <= i < states.len() ==> named(#[trigger] states[i])
}

/// A delivery that is done with never comes back: over any row of calls it stays out of the store,
/// and no batch gives it out.
pub proof fn law_put_away_never_comes_back(
    states: Seq<StoreState>,
    calls: Seq<StoreCall>,
    id: Seq<char>,
)
    requires
        is_history(states, calls),
        put_away(states[0], id),
    ensures
        forall|i: int| 0 <= i < states.len() ==> put_away(#[trigger] states[i], id),
        forall|i: int, j: int|
            0 <= i < calls.len() && calls[i] is Lease && 0 <= j < batch_at(
                states,
                calls,
                i,
            ).len() ==> (#[trigger] batch_at(states, calls, i)[j]).delivery_id != id,
{
    lemma_put_away_at(states, calls, id, calls.len() as int);
    assert forall|i: int, j: int|
        0 <= i < calls.len() && calls[i] is Lease && 0 <= j < batch_at(
            states,
            calls,
            i,
        ).len() implies (#[trigger] batch_at(states, calls, i)[j]).delivery_id != id by {
        assert(put_away(states[i], id));
        assert(call_done(states[i], calls[i], states[i + 1]));
        law_put_away_stays_away(states[i], calls[i], states[i + 1], id);
    }
}

/// A delivery that fails for good never comes back: from then on, over any row of calls, it is not in
/// the store, must not come back, and is given out by no batch, also when what is left of it has
/// been dropped.
pub proof fn law_failed_for_good_never_comes_back(
    s: StoreState,
    delivery_id: Seq<char>,
    generation: u64,
    failure: FailureView,
    policy: RetryPolicy,
    now_ms: u64,
    jitter_ms: nat,
    states: Seq<StoreState>,
    calls: Seq<StoreCall>,
)
    requires
        retry_outcome(s, delivery_id, generation, failure, policy) == RetryOutcome::PermanentDead,
        dead_reads_back(dead_of(live_at(s, delivery_id)->0, failure, now_ms)),
        is_history(states, calls),
        retry_done(s, delivery_id, generation, failure, policy, now_ms, jitter_ms, states[0]),
    ensures
        forall|i: int|
            0 <= i < states.len() ==> (#[trigger] states[i]).row(deliveries(), delivery_id) is None
                && suppressed(states[i], delivery_id),
        forall|i: int, j: int|
            0 <= i < calls.len() && calls[i] is Lease && 0 <= j < batch_at(
                states,
                calls,
                i,
            ).len() ==> (#[trigger] batch_at(states, calls, i)[j]).delivery_id != delivery_id,
{
    law_permanent_death_puts_away(
        s,
        delivery_id,
        generation,
        failure,
        policy,
        now_ms,
        jitter_ms,
        states[0],
    );
    law_put_away_never_comes_back(states, calls, delivery_id);
    assert forall|i: int| 0 <= i < states.len() implies (#[trigger] states[i]).row(
        deliveries(),
        delivery_id,
    ) is None && suppressed(states[i], delivery_id) by {
        assert(put_away(states[i], delivery_id));
    }
}

/// The deliveries that a call for a batch gives out.
pub open spec fn batch_at(states: Seq<StoreState>, calls: Seq<StoreCall>, i: int) -> Seq<
    DeliveryView,
> {
    (batch_done(states[i], calls[i]->Lease_call)->0).leased
}

proof fn lemma_put_away_at(
    states: Seq<StoreState>,
    calls: Seq<StoreCall>,
    id: Seq<char>,
    n: int,
)
    requires
        is_history(states, calls),
        put_away(states[0], id),
        0 <= n < states.len(),
    ensures
        forall|i: int| 0 <= i <= n ==> put_away(#[trigger] states[i], id),
    decreases n,
{
    if n > 0 {
        lemma_put_away_at(states, calls, id, n - 1);
        assert(call_done(states[n - 1], calls[n - 1], states[n - 1 + 1]));
        assert(put_away(states[n - 1], id));
        assert(named(states[n - 1]));
        law_put_away_stays_away(states[n - 1], calls[n - 1], states[n], id);
    }
}

} // verus!
