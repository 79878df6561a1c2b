//! Laws of leases: who holds a delivery, who does not, and that every delivery is found when it is
//! due.

use vstd::prelude::*;
use crate::delivery_index::{
    due_range_end, due_range_start, index_key, law_due_range, law_due_range_is_of_dept,
    law_index_key_parses, ordinary_id, parsed_key, DueView,
};
use crate::delivery_scan::{between, due_among, due_for_dept, due_keys, first_keys, parsed_all};
use crate::delivery_types::{DeliveryView, RetryPolicy};
use crate::record_codec::{all_read_back, is_written, reads_back};
use crate::store_invariant::{
    all_read, lemma_lease_step_sound, named, place, sound, sound_at, tidy,
};
use crate::store_model::{
    acked, dead, defer_outcome, deferred, deliveries, expired_quota, held_lease, lease_batch,
    lease_run, lease_step, leased, lemma_tables, live_at, put_off, ready, renewed_all, retried,
    retry_outcome, same_content, with_lease, FailureView, LeaseRun, LeaseStep, LockBusyDeferOutcome,
    RetryOutcome,
};
use crate::tables::{lists_keys, StoreState};

verus! {

/// A delivery that is there and, as far as it can be read, has a lease that still runs.
pub open spec fn leased_past(s: StoreState, delivery_id: Seq<char>, now_ms: u64) -> bool {
    s.row(deliveries(), delivery_id) is Some && (live_at(s, delivery_id) matches Some(d)
        ==> d.lease_until_ms matches Some(until) && until > now_ms)
}

/// Keys of leases that have run out.
pub open spec fn all_due(keys: Seq<DueView>, now_ms: u64) -> bool {
    forall|i: int| 0 <= i < keys.len() ==> (#[trigger] keys[i]).due_ms <= now_ms
}

proof fn lemma_step_keeps_held(
    s: StoreState,
    key: DueView,
    now_ms: u64,
    until_ms: u64,
    dept: Option<Seq<char>>,
    excluded: Seq<Seq<char>>,
    expired: bool,
    id: Seq<char>,
)
    requires
        leased_past(s, id, now_ms),
        expired ==> key.due_ms <= now_ms,
    ensures
        lease_step(s, key, now_ms, until_ms, dept, excluded, expired) matches Some(step)
            ==> step.state.row(deliveries(), id) == s.row(deliveries(), id),
{
    reveal(lease_step);
    lemma_tables();
}

proof fn lemma_run_keeps_held(
    run: LeaseRun,
    keys: Seq<DueView>,
    stop: nat,
    now_ms: u64,
    until_ms: u64,
    dept: Option<Seq<char>>,
    excluded: Seq<Seq<char>>,
    expired: bool,
    id: Seq<char>,
)
    requires
        leased_past(run.state, id, now_ms),
        expired ==> all_due(keys, now_ms),
    ensures
        lease_run(run, keys, stop, now_ms, until_ms, dept, excluded, expired) matches Some(done)
            ==> done.state.row(deliveries(), id) == run.state.row(deliveries(), id),
    decreases keys.len(),
{
    if keys.len() > 0 && run.leased.len() < stop {
        lemma_step_keeps_held(
            run.state,
            keys[0],
            now_ms,
            until_ms,
            dept,
            excluded,
            expired,
            id,
        );
        match lease_step(run.state, keys[0], now_ms, until_ms, dept, excluded, expired) {
            None => {},
            Some(step) => {
                let next = LeaseRun {
                    state: step.state,
                    leased: match step.record {
                        Some(d) => run.leased.push(d),
                        None => run.leased,
                    },
                    mutated: run.mutated || step.mutated,
                };
                assert(live_at(next.state, id) == live_at(run.state, id));
                let rest = keys.drop_first();
                if expired {
                    assert forall|i: int| 0 <= i < rest.len() implies (#[trigger] rest[i]).due_ms
                        <= now_ms by {
                        assert(rest[i] == keys[i + 1]);
                    }
                }
                lemma_run_keeps_held(
                    next,
                    rest,
                    stop,
                    now_ms,
                    until_ms,
                    dept,
                    excluded,
                    expired,
                    id,
                );
            },
        }
    }
}

/// A batch leaves every delivery as it is whose lease still runs: while one consumer holds a
/// delivery, no other is given it.
pub proof fn law_batch_takes_no_held_delivery(
    s: StoreState,
    expired_keys: Seq<DueView>,
    ready_keys: Seq<DueView>,
    batch_limit: nat,
    now_ms: u64,
    until_ms: u64,
    dept: Option<Seq<char>>,
    excluded: Seq<Seq<char>>,
    id: Seq<char>,
)
    requires
        leased_past(s, id, now_ms),
        all_due(expired_keys, now_ms),
    ensures
        lease_batch(
            s,
            expired_keys,
            ready_keys,
            batch_limit,
            now_ms,
            until_ms,
            dept,
            excluded,
        ) matches Some(done) ==> live_at(done.state, id) == live_at(s, id),
{
    let start = LeaseRun { state: s, leased: Seq::empty(), mutated: false };
    let quota = expired_quota(batch_limit);
    lemma_run_keeps_held(start, expired_keys, quota, now_ms, until_ms, dept, excluded, true, id);
    match lease_run(start, expired_keys, quota, now_ms, until_ms, dept, excluded, true) {
        None => {},
        Some(run) => {
            assert(live_at(run.state, id) == live_at(s, id));
            lemma_run_keeps_held(
                run,
                ready_keys,
                batch_limit,
                now_ms,
                until_ms,
                dept,
                excluded,
                false,
                id,
            );
        },
    }
}

/// A delivery that is there and, as far as it can be read, has a lease up to some time.
pub open spec fn leased_until(s: StoreState, delivery_id: Seq<char>, until_ms: u64) -> bool {
    s.row(deliveries(), delivery_id) is Some && (live_at(s, delivery_id) matches Some(d)
        ==> d.lease_until_ms == Some(until_ms))
}

proof fn lemma_step_takes(
    s: StoreState,
    key: DueView,
    now_ms: u64,
    until_ms: u64,
    dept: Option<Seq<char>>,
    excluded: Seq<Seq<char>>,
    expired: bool,
    step: LeaseStep,
)
    requires
        named(s),
        lease_step(s, key, now_ms, until_ms, dept, excluded, expired) == Some(step),
        step.record matches Some(d) ==> reads_back(d),
    ensures
        named(step.state),
        step.record matches Some(d) ==> d.delivery_id == key.delivery_id && is_written(
            live_at(step.state, key.delivery_id),
            d,
        ) && step.state.row(deliveries(), key.delivery_id) is Some && d.lease_until_ms == Some(
            until_ms,
        ),
        forall|id: Seq<char>|
            leased_until(s, id, until_ms) ==> #[trigger] leased_until(step.state, id, until_ms),
{
    reveal(lease_step);
    lemma_tables();
    assert(live_at(s, key.delivery_id) matches Some(d) ==> d.delivery_id == key.delivery_id);
    assert forall|id: Seq<char>| (#[trigger] live_at(step.state, id)) is Some implies (live_at(
        step.state,
        id,
    )->0).delivery_id == id by {
        if step.record is None || id != key.delivery_id {
            assert(step.state.row(deliveries(), id) == s.row(deliveries(), id));
            assert(live_at(step.state, id) == live_at(s, id));
        }
    }
    assert forall|id: Seq<char>| leased_until(s, id, until_ms) implies #[trigger] leased_until(
        step.state,
        id,
        until_ms,
    ) by {
        if step.record is None || id != key.delivery_id {
            assert(step.state.row(deliveries(), id) == s.row(deliveries(), id));
        }
    }
}

proof fn lemma_run_only_adds(
    run: LeaseRun,
    keys: Seq<DueView>,
    stop: nat,
    now_ms: u64,
    until_ms: u64,
    dept: Option<Seq<char>>,
    excluded: Seq<Seq<char>>,
    expired: bool,
    done: LeaseRun,
)
    requires
        lease_run(run, keys, stop, now_ms, until_ms, dept, excluded, expired) == Some(done),
    ensures
        run.leased.len() <= done.leased.len(),
        forall|i: int|
            0 <= i < run.leased.len() ==> done.leased[i] == #[trigger] run.leased[i],
    decreases keys.len(),
{
    if keys.len() > 0 && run.leased.len() < stop {
        let step = lease_step(run.state, keys[0], now_ms, until_ms, dept, excluded, expired)->0;
        let next = after_step(run, step);
        lemma_run_only_adds(
            next,
            keys.drop_first(),
            stop,
            now_ms,
            until_ms,
            dept,
            excluded,
            expired,
            done,
        );
        assert forall|i: int| 0 <= i < run.leased.len() implies done.leased[i]
            == #[trigger] run.leased[i] by {
            assert(next.leased[i] == run.leased[i]);
        }
    }
}

spec fn after_step(run: LeaseRun, step: LeaseStep) -> LeaseRun {
    LeaseRun {
        state: step.state,
        leased: match step.record {
            Some(d) => run.leased.push(d),
            None => run.leased,
        },
        mutated: run.mutated || step.mutated,
    }
}

/// Whether every delivery of a run is leased up to some time.
spec fn all_leased_until(run: LeaseRun, until_ms: u64) -> bool {
    forall|i: int|
        0 <= i < run.leased.len() ==> leased_until(
            run.state,
            (#[trigger] run.leased[i]).delivery_id,
            until_ms,
        )
}

spec fn none_is(run: LeaseRun, id: Seq<char>) -> bool {
    forall|i: int| 0 <= i < run.leased.len() ==> (#[trigger] run.leased[i]).delivery_id != id
}

proof fn lemma_run_takes(
    run: LeaseRun,
    keys: Seq<DueView>,
    stop: nat,
    now_ms: u64,
    until_ms: u64,
    dept: Option<Seq<char>>,
    excluded: Seq<Seq<char>>,
    expired: bool,
    done: LeaseRun,
)
    requires
        named(run.state),
        lease_run(run, keys, stop, now_ms, until_ms, dept, excluded, expired) == Some(done),
        all_read_back(done.leased),
        all_leased_until(run, until_ms),
    ensures
        named(done.state),
        all_leased_until(done, until_ms),
        forall|id: Seq<char>|
            leased_past(run.state, id, now_ms) && none_is(run, id) && (expired ==> all_due(
                keys,
                now_ms,
            )) ==> #[trigger] none_is(done, id),
    decreases keys.len(),
{
    if keys.len() > 0 && run.leased.len() < stop {
        let step = lease_step(run.state, keys[0], now_ms, until_ms, dept, excluded, expired)->0;
        let next = after_step(run, step);
        let rest = keys.drop_first();
        lemma_run_only_adds(next, rest, stop, now_ms, until_ms, dept, excluded, expired, done);
        if step.record is Some {
            let n = run.leased.len() as int;
            assert(next.leased[n] == step.record->0);
            assert(reads_back(done.leased[n]));
        }
        lemma_step_takes(
            run.state,
            keys[0],
            now_ms,
            until_ms,
            dept,
            excluded,
            expired,
            step,
        );
        assert forall|i: int| 0 <= i < next.leased.len() implies leased_until(
            next.state,
            (#[trigger] next.leased[i]).delivery_id,
            until_ms,
        ) by {
            if i < run.leased.len() {
                assert(next.leased[i] == run.leased[i]);
                assert(leased_until(run.state, run.leased[i].delivery_id, until_ms));
            }
        }
        lemma_run_takes(next, rest, stop, now_ms, until_ms, dept, excluded, expired, done);
        assert forall|id: Seq<char>|
            leased_past(run.state, id, now_ms) && none_is(run, id) && (expired ==> all_due(
                keys,
                now_ms,
            )) implies #[trigger] none_is(done, id) by {
            if expired {
                assert(keys[0].due_ms <= now_ms);
                assert forall|i: int| 0 <= i < rest.len() implies (#[trigger] rest[i]).due_ms
                    <= now_ms by {
                    assert(rest[i] == keys[i + 1]);
                }
            }
            lemma_step_keeps_held(
                run.state,
                keys[0],
                now_ms,
                until_ms,
                dept,
                excluded,
                expired,
                id,
            );
            assert(leased_past(next.state, id, now_ms));
            assert(none_is(next, id)) by {
                assert forall|i: int| 0 <= i < next.leased.len() implies (
                #[trigger] next.leased[i]).delivery_id != id by {
                    if i < run.leased.len() {
                        assert(next.leased[i] == run.leased[i]);
                    } else if keys[0].delivery_id == id {
                        reveal(lease_step);
                    }
                }
            }
        }
    }
}

/// A call for a batch of deliveries.
pub struct BatchCall {
    pub expired_keys: Seq<DueView>,
    pub ready_keys: Seq<DueView>,
    pub batch_limit: nat,
    pub now_ms: u64,
    pub until_ms: u64,
    pub dept: Option<Seq<char>>,
    pub excluded: Seq<Seq<char>>,
}

/// What comes of a call for a batch.
pub open spec fn batch_done(s: StoreState, call: BatchCall) -> Option<LeaseRun> {
    lease_batch(
        s,
        call.expired_keys,
        call.ready_keys,
        call.batch_limit,
        call.now_ms,
        call.until_ms,
        call.dept,
        call.excluded,
    )
}

/// What a batch gives out is leased up to the time that it says, and it gives out nothing whose
/// lease still runs.
pub proof fn law_a_batch_leases_what_it_gives_out(
    s: StoreState,
    call: BatchCall,
    done: LeaseRun,
)
    requires
        named(s),
        all_due(call.expired_keys, call.now_ms),
        batch_done(s, call) == Some(done),
        all_read_back(done.leased),
    ensures
        named(done.state),
        forall|i: int|
            0 <= i < done.leased.len() ==> leased_until(
                done.state,
                (#[trigger] done.leased[i]).delivery_id,
                call.until_ms,
            ),
        forall|i: int|
            0 <= i < done.leased.len() ==> !leased_past(
                s,
                (#[trigger] done.leased[i]).delivery_id,
                call.now_ms,
            ),
{
    let BatchCall {
        expired_keys,
        ready_keys,
        batch_limit,
        now_ms,
        until_ms,
        dept,
        excluded,
    } = call;
    let start = LeaseRun { state: s, leased: Seq::empty(), mutated: false };
    let quota = expired_quota(batch_limit);
    let run = lease_run(start, expired_keys, quota, now_ms, until_ms, dept, excluded, true)->0;
    lemma_run_only_adds(
        run,
        ready_keys,
        batch_limit,
        now_ms,
        until_ms,
        dept,
        excluded,
        false,
        done,
    );
    assert forall|i: int| 0 <= i < run.leased.len() implies reads_back(#[trigger] run.leased[i]) by {
        assert(done.leased[i] == run.leased[i]);
    }
    lemma_run_takes(start, expired_keys, quota, now_ms, until_ms, dept, excluded, true, run);
    lemma_run_takes(
        run,
        ready_keys,
        batch_limit,
        now_ms,
        until_ms,
        dept,
        excluded,
        false,
        done,
    );
    assert forall|i: int| 0 <= i < done.leased.len() implies !leased_past(
        s,
        (#[trigger] done.leased[i]).delivery_id,
        now_ms,
    ) by {
        let id = done.leased[i].delivery_id;
        if leased_past(s, id, now_ms) {
            lemma_run_keeps_held(
                start,
                expired_keys,
                quota,
                now_ms,
                until_ms,
                dept,
                excluded,
                true,
                id,
            );
            assert(none_is(start, id));
            assert(none_is(run, id));
            assert(leased_past(run.state, id, now_ms));
            assert(none_is(done, id));
        }
    }
}

/// Two batches inside one lease share no delivery: while the leases of the first batch run, the
/// next gives out none of its deliveries.
pub proof fn law_two_batches_share_no_delivery(
    s: StoreState,
    one: BatchCall,
    first: LeaseRun,
    two: BatchCall,
    second: LeaseRun,
)
    requires
        named(s),
        all_due(one.expired_keys, one.now_ms),
        batch_done(s, one) == Some(first),
        all_read_back(first.leased),
        all_due(two.expired_keys, two.now_ms),
        batch_done(first.state, two) == Some(second),
        all_read_back(second.leased),
        two.now_ms < one.until_ms,
    ensures
        forall|i: int, j: int|
            0 <= i < first.leased.len() && 0 <= j < second.leased.len() ==> (
            #[trigger] first.leased[i]).delivery_id != (#[trigger] second.leased[j]).delivery_id,
{
    law_a_batch_leases_what_it_gives_out(s, one, first);
    law_a_batch_leases_what_it_gives_out(first.state, two, second);
    assert forall|i: int, j: int|
        0 <= i < first.leased.len() && 0 <= j < second.leased.len() implies (
    #[trigger] first.leased[i]).delivery_id != (#[trigger] second.leased[j]).delivery_id by {
        assert(leased_until(first.state, first.leased[i].delivery_id, one.until_ms));
        assert(!leased_past(first.state, second.leased[j].delivery_id, two.now_ms));
    }
}

/// Whoever does not hold the lease of a delivery changes nothing of it, whether they say that it
/// failed, that a lock was busy, or that they want it for longer.
pub proof fn law_only_the_holder_changes_a_delivery(
    s: StoreState,
    delivery_id: Seq<char>,
    generation: u64,
    failure: FailureView,
    lock: Seq<char>,
    policy: RetryPolicy,
    now_ms: u64,
    until_ms: u64,
    jitter_ms: nat,
)
    requires
        held_lease(s, delivery_id, generation) is None,
    ensures
        retried(s, delivery_id, generation, failure, policy, now_ms, jitter_ms) == Some(s),
        deferred(s, delivery_id, generation, lock, policy, now_ms) == s,
        renewed_all(s, seq![(delivery_id, generation)], until_ms) == s,
{
    let renewals = seq![(delivery_id, generation)];
    assert(renewals.drop_last() =~= Seq::empty());
    assert(renewed_all(s, renewals.drop_last(), until_ms) == s);
    assert(renewals.last() == (delivery_id, generation));
}

/// A new lease takes a delivery away from whoever held it before, who finds out. A generation that
/// cannot be counted further is left out.
pub proof fn law_a_new_lease_fences_the_old(
    t: StoreState,
    delivery_id: Seq<char>,
    was: DeliveryView,
    until_ms: u64,
    failure: FailureView,
    policy: RetryPolicy,
)
    requires
        was.lease_generation < u64::MAX,
        live_at(t, delivery_id) == Some(with_lease(was, until_ms)),
    ensures
        held_lease(t, delivery_id, was.lease_generation) is None,
        held_lease(t, delivery_id, (was.lease_generation + 1) as u64) == Some(
            with_lease(was, until_ms),
        ),
        retry_outcome(t, delivery_id, was.lease_generation, failure, policy)
            == RetryOutcome::Stale,
        defer_outcome(t, delivery_id, was.lease_generation) == LockBusyDeferOutcome::Stale,
{
}

/// A delivery that is done is gone, and nothing else of the deliveries is touched.
pub proof fn law_done_is_gone(
    s: StoreState,
    delivery_id: Seq<char>,
    d: DeliveryView,
    generation: u64,
    failure: FailureView,
    policy: RetryPolicy,
)
    ensures
        live_at(acked(s, delivery_id, d), delivery_id) is None,
        held_lease(acked(s, delivery_id, d), delivery_id, generation) is None,
        retry_outcome(acked(s, delivery_id, d), delivery_id, generation, failure, policy)
            == RetryOutcome::Missing,
        forall|id: Seq<char>|
            id != delivery_id ==> #[trigger] acked(s, delivery_id, d).row(deliveries(), id)
                == s.row(deliveries(), id),
        forall|id: Seq<char>| #[trigger]
            acked(s, delivery_id, d).row(dead(), id) == s.row(dead(), id),
{
    lemma_tables();
}

/// A busy lock costs a delivery no attempt, and never makes it a dead one.
pub proof fn law_a_busy_lock_costs_nothing(
    s: StoreState,
    delivery_id: Seq<char>,
    generation: u64,
    lock: Seq<char>,
    policy: RetryPolicy,
    now_ms: u64,
    d: DeliveryView,
)
    ensures
        same_content(put_off(d, lock, policy, now_ms), d),
        put_off(d, lock, policy, now_ms).attempt == d.attempt,
        put_off(d, lock, policy, now_ms).redrive_count == d.redrive_count,
        put_off(d, lock, policy, now_ms).lease_generation == d.lease_generation,
        forall|id: Seq<char>| #[trigger]
            deferred(s, delivery_id, generation, lock, policy, now_ms).row(dead(), id) == s.row(
                dead(),
                id,
            ),
{
    lemma_tables();
}

/// When a delivery is due: when its lease runs out, or from when it is ready.
pub open spec fn due_at(d: DeliveryView) -> u64 {
    match d.lease_until_ms {
        Some(until) => until,
        None => d.not_before_ms,
    }
}

proof fn lemma_parsed_all_has(list: Seq<Seq<char>>, at: int)
    requires
        0 <= at < list.len(),
        parsed_all(list) is Some,
    ensures
        parsed_all(list)->0.len() == list.len(),
        parsed_key(list[at]) == Some(parsed_all(list)->0[at]),
    decreases list.len(),
{
    reveal_with_fuel(parsed_all, 2);
    let front = list.drop_last();
    if front.len() > 0 {
        lemma_parsed_all_has(front, 0);
    }
    if at < front.len() {
        lemma_parsed_all_has(front, at);
        assert(front[at] == list[at]);
    }
}

/// No delivery is lost: where a delivery is found again, whoever looks for what a department has to do at a time
/// finds every delivery that is due by then, unless they find as many others as they look for. An id
/// that starts with the last of all characters is left out.
pub proof fn law_due_is_found(
    s: StoreState,
    delivery_id: Seq<char>,
    d: DeliveryView,
    now_ms: u64,
    limit: nat,
    found: Seq<DueView>,
)
    requires
        sound_at(s, delivery_id),
        live_at(s, delivery_id) == Some(d),
        ordinary_id(delivery_id),
        due_at(d) <= now_ms,
        due_keys(found, s.keys, place(d, delivery_id).0, Some(d.dept), now_ms, limit),
        found.len() < limit,
    ensures
        exists|i: int|
            0 <= i < found.len() && (#[trigger] found[i]).delivery_id == delivery_id
                && found[i].due_ms == due_at(d),
{
    let (table, key) = place(d, delivery_id);
    assert(table == if d.lease_until_ms is Some {
        leased()
    } else {
        ready()
    });
    assert(key == index_key(d.dept, due_at(d), delivery_id));
    law_due_range(d.dept, due_at(d), delivery_id, now_ms);
    law_index_key_parses(d.dept, due_at(d), delivery_id);
    assert(due_for_dept(found, s.keys, table, d.dept, now_ms, limit));
    let from = due_range_start(d.dept);
    let to = due_range_end(d.dept, now_ms);
    let list = choose|list: Seq<Seq<char>>| #[trigger]
        first_keys(list, s.keys, table, from, to, limit) && parsed_all(list) == Some(found);
    assert(between(s.keys, table, from, to, key));
    if list.len() > 0 {
        lemma_parsed_all_has(list, 0);
    }
    assert(list.len() == found.len());
    assert(list.contains(key));
    let at = choose|at: int| 0 <= at < list.len() && list[at] == key;
    lemma_parsed_all_has(list, at);
    assert(found[at].delivery_id == delivery_id);
}

/// A key as the store makes it.
pub open spec fn is_made_key(key: Seq<char>) -> bool {
    exists|dept: Seq<char>, due_ms: u64, delivery_id: Seq<char>|
        ordinary_id(delivery_id) && key == #[trigger] index_key(dept, due_ms, delivery_id)
}

proof fn lemma_due_among_due(list: Seq<Seq<char>>, now_ms: u64, limit: nat)
    ensures
        due_among(list, now_ms, limit) matches Some(found) ==> all_due(found, now_ms),
    decreases list.len(),
{
    if list.len() > 0 {
        lemma_due_among_due(list.drop_last(), now_ms, limit);
    }
}

/// What is found as due is due: none of the keys that are found, among keys as the store makes
/// them, is of a time that is still to come.
pub proof fn law_found_is_due(
    found: Seq<DueView>,
    keys: Set<(Seq<char>, Seq<char>)>,
    table: Seq<char>,
    dept: Option<Seq<char>>,
    now_ms: u64,
    limit: nat,
)
    requires
        due_keys(found, keys, table, dept, now_ms, limit),
        forall|key: Seq<char>| #[trigger] keys.contains((table, key)) ==> is_made_key(key),
    ensures
        all_due(found, now_ms),
{
    if limit > 0 {
        match dept {
            None => {
                let list = choose|list: Seq<Seq<char>>| #[trigger]
                    lists_keys(list, keys, table) && due_among(list, now_ms, limit) == Some(found);
                lemma_due_among_due(list, now_ms, limit);
            },
            Some(d) => {
                let from = due_range_start(d);
                let to = due_range_end(d, now_ms);
                let list = choose|list: Seq<Seq<char>>| #[trigger]
                    first_keys(list, keys, table, from, to, limit) && parsed_all(list) == Some(
                        found,
                    );
                if list.len() == 0 {
                    assert(found.len() == 0);
                }
                assert forall|i: int| 0 <= i < found.len() implies (#[trigger] found[i]).due_ms
                    <= now_ms by {
                    lemma_parsed_all_has(list, 0);
                    lemma_parsed_all_has(list, i);
                    let key = list[i];
                    assert(between(keys, table, from, to, key));
                    let (other, due_ms, delivery_id) = choose|
                        other: Seq<char>,
                        due_ms: u64,
                        delivery_id: Seq<char>,
                    |
                        ordinary_id(delivery_id) && key == #[trigger] index_key(
                            other,
                            due_ms,
                            delivery_id,
                        );
                    law_index_key_parses(other, due_ms, delivery_id);
                    law_due_range_is_of_dept(d, now_ms, other, due_ms, delivery_id);
                    law_due_range(d, due_ms, delivery_id, now_ms);
                }
            },
        }
    }
}

/// A run over keys leaves out a delivery that is not live.
proof fn lemma_run_leaves_out(
    run: LeaseRun,
    keys: Seq<DueView>,
    stop: nat,
    now_ms: u64,
    until_ms: u64,
    dept: Option<Seq<char>>,
    excluded: Seq<Seq<char>>,
    expired: bool,
    done: LeaseRun,
    id: Seq<char>,
)
    requires
        named(run.state),
        lease_run(run, keys, stop, now_ms, until_ms, dept, excluded, expired) == Some(done),
        all_read_back(done.leased),
        run.state.row(deliveries(), id) is None,
        none_is(run, id),
    ensures
        named(done.state),
        done.state.row(deliveries(), id) is None,
        none_is(done, id),
        forall|other: Seq<char>| #[trigger]
            done.state.row(dead(), other) == run.state.row(dead(), other),
        done.state.texts == run.state.texts,
    decreases keys.len(),
{
    if keys.len() > 0 && run.leased.len() < stop {
        let step = lease_step(run.state, keys[0], now_ms, until_ms, dept, excluded, expired)->0;
        let next = after_step(run, step);
        let rest = keys.drop_first();
        lemma_run_only_adds(next, rest, stop, now_ms, until_ms, dept, excluded, expired, done);
        if step.record is Some {
            let n = run.leased.len() as int;
            assert(next.leased[n] == step.record->0);
            assert(reads_back(done.leased[n]));
        }
        lemma_step_takes(
            run.state,
            keys[0],
            now_ms,
            until_ms,
            dept,
            excluded,
            expired,
            step,
        );
        assert(next.state.row(deliveries(), id) is None && next.state.texts == run.state.texts && (
        forall|other: Seq<char>| #[trigger]
            next.state.row(dead(), other) == run.state.row(dead(), other)) && (step.record
            is Some ==> keys[0].delivery_id != id)) by {
            reveal(lease_step);
            lemma_tables();
        }
        assert forall|i: int| 0 <= i < next.leased.len() implies (
        #[trigger] next.leased[i]).delivery_id != id by {
            if i < run.leased.len() {
                assert(next.leased[i] == run.leased[i]);
            }
        }
        lemma_run_leaves_out(
            next,
            rest,
            stop,
            now_ms,
            until_ms,
            dept,
            excluded,
            expired,
            done,
            id,
        );
    }
}

/// A batch gives out no delivery that is not live, and touches nothing of it.
pub proof fn law_a_batch_leaves_out_what_is_not_live(
    s: StoreState,
    call: BatchCall,
    done: LeaseRun,
    id: Seq<char>,
)
    requires
        named(s),
        batch_done(s, call) == Some(done),
        all_read_back(done.leased),
        s.row(deliveries(), id) is None,
    ensures
        done.state.row(deliveries(), id) is None,
        forall|i: int| 0 <= i < done.leased.len() ==> (#[trigger] done.leased[i]).delivery_id != id,
        done.state.row(dead(), id) == s.row(dead(), id),
        done.state.texts == s.texts,
{
    let BatchCall {
        expired_keys,
        ready_keys,
        batch_limit,
        now_ms,
        until_ms,
        dept,
        excluded,
    } = call;
    let start = LeaseRun { state: s, leased: Seq::empty(), mutated: false };
    let quota = expired_quota(batch_limit);
    let run = lease_run(start, expired_keys, quota, now_ms, until_ms, dept, excluded, true)->0;
    lemma_run_only_adds(
        run,
        ready_keys,
        batch_limit,
        now_ms,
        until_ms,
        dept,
        excluded,
        false,
        done,
    );
    assert forall|i: int| 0 <= i < run.leased.len() implies reads_back(#[trigger] run.leased[i]) by {
        assert(done.leased[i] == run.leased[i]);
    }
    lemma_run_leaves_out(
        start,
        expired_keys,
        quota,
        now_ms,
        until_ms,
        dept,
        excluded,
        true,
        run,
        id,
    );
    lemma_run_leaves_out(
        run,
        ready_keys,
        batch_limit,
        now_ms,
        until_ms,
        dept,
        excluded,
        false,
        done,
        id,
    );
}

/// Whether keys stand in the index of deliveries that are ready, each once.
pub open spec fn keys_stand(s: StoreState, keys: Seq<DueView>) -> bool {
    &&& forall|i: int| 0 <= i < keys.len() ==> s.has_key(ready(), (#[trigger] keys[i]).key)
    &&& forall|i: int, j: int|
        0 <= i < j < keys.len() ==> (#[trigger] keys[i]).key != (#[trigger] keys[j]).key
}

proof fn lemma_step_leaves_keys(
    s: StoreState,
    key: DueView,
    now_ms: u64,
    until_ms: u64,
    dept: Option<Seq<char>>,
    excluded: Seq<Seq<char>>,
    expired: bool,
    step: LeaseStep,
)
    requires
        lease_step(s, key, now_ms, until_ms, dept, excluded, expired) == Some(step),
    ensures
        forall|k: Seq<char>|
            s.has_key(ready(), k) && (expired || k != key.key) ==> #[trigger] step.state.has_key(
                ready(),
                k,
            ),
{
    reveal(lease_step);
    lemma_tables();
}

proof fn lemma_run_keeps_sound(
    run: LeaseRun,
    keys: Seq<DueView>,
    stop: nat,
    now_ms: u64,
    until_ms: u64,
    dept: Option<Seq<char>>,
    excluded: Seq<Seq<char>>,
    expired: bool,
    done: LeaseRun,
)
    requires
        sound(run.state),
        all_read(keys),
        lease_run(run, keys, stop, now_ms, until_ms, dept, excluded, expired) == Some(done),
        all_read_back(done.leased),
    ensures
        sound(done.state),
        tidy(run.state) && (expired || keys_stand(run.state, keys)) ==> tidy(done.state),
        expired ==> forall|k: Seq<char>|
            run.state.has_key(ready(), k) ==> #[trigger] done.state.has_key(ready(), k),
    decreases keys.len(),
{
    if keys.len() > 0 && run.leased.len() < stop {
        let step = lease_step(run.state, keys[0], now_ms, until_ms, dept, excluded, expired)->0;
        let next = after_step(run, step);
        let rest = keys.drop_first();
        lemma_run_only_adds(next, rest, stop, now_ms, until_ms, dept, excluded, expired, done);
        if step.record is Some {
            let n = run.leased.len() as int;
            assert(next.leased[n] == step.record->0);
            assert(reads_back(done.leased[n]));
        }
        assert(parsed_key(keys[0].key) == Some(keys[0]));
        lemma_lease_step_sound(
            run.state,
            keys[0],
            now_ms,
            until_ms,
            dept,
            excluded,
            expired,
        );
        lemma_step_leaves_keys(
            run.state,
            keys[0],
            now_ms,
            until_ms,
            dept,
            excluded,
            expired,
            step,
        );
        assert forall|i: int| 0 <= i < rest.len() implies parsed_key((#[trigger] rest[i]).key)
            == Some(rest[i]) by {
            assert(rest[i] == keys[i + 1]);
        }
        if keys_stand(run.state, keys) {
            assert forall|i: int| 0 <= i < rest.len() && !expired implies next.state.has_key(
                ready(),
                (#[trigger] rest[i]).key,
            ) by {
                assert(rest[i] == keys[i + 1]);
                assert(keys[0].key != keys[i + 1].key);
            }
            assert forall|i: int, j: int| 0 <= i < j < rest.len() implies (
            #[trigger] rest[i]).key != (#[trigger] rest[j]).key by {
                assert(rest[i] == keys[i + 1] && rest[j] == keys[j + 1]);
            }
            assert(run.state.has_key(ready(), keys[0].key));
        }
        lemma_run_keeps_sound(next, rest, stop, now_ms, until_ms, dept, excluded, expired, done);
        if expired {
            assert forall|k: Seq<char>| run.state.has_key(ready(), k) implies
                #[trigger] done.state.has_key(ready(), k) by {
                assert(next.state.has_key(ready(), k));
            }
        }
    }
}

/// A batch keeps a store sound, and without stray keys where those that it is given still stand.
pub proof fn law_a_batch_keeps_a_store_sound(s: StoreState, call: BatchCall, done: LeaseRun)
    requires
        sound(s),
        all_read(call.expired_keys),
        all_read(call.ready_keys),
        batch_done(s, call) == Some(done),
        all_read_back(done.leased),
    ensures
        sound(done.state),
        tidy(s) && keys_stand(s, call.ready_keys) ==> tidy(done.state),
{
    let BatchCall {
        expired_keys,
        ready_keys,
        batch_limit,
        now_ms,
        until_ms,
        dept,
        excluded,
    } = call;
    let start = LeaseRun { state: s, leased: Seq::empty(), mutated: false };
    let quota = expired_quota(batch_limit);
    let run = lease_run(start, expired_keys, quota, now_ms, until_ms, dept, excluded, true)->0;
    lemma_run_only_adds(
        run,
        ready_keys,
        batch_limit,
        now_ms,
        until_ms,
        dept,
        excluded,
        false,
        done,
    );
    assert forall|i: int| 0 <= i < run.leased.len() implies reads_back(#[trigger] run.leased[i]) by {
        assert(done.leased[i] == run.leased[i]);
    }
    lemma_run_keeps_sound(start, expired_keys, quota, now_ms, until_ms, dept, excluded, true, run);
    if keys_stand(s, ready_keys) {
        assert forall|i: int| 0 <= i < ready_keys.len() implies run.state.has_key(
            ready(),
            (#[trigger] ready_keys[i]).key,
        ) by {
            assert(s.has_key(ready(), ready_keys[i].key));
        }
    }
    lemma_run_keeps_sound(
        run,
        ready_keys,
        batch_limit,
        now_ms,
        until_ms,
        dept,
        excluded,
        false,
        done,
    );
}

} // verus!
