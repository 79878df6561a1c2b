//! Laws of the delivery store.

use vstd::prelude::*;
use crate::delivery_index::{dead_index_key, DueView};
use crate::delivery_types::{DeliveryView, RedrivePolicy};
use crate::record_codec::{is_written, reads_back};
use crate::store_invariant::lemma_suppressed_same;
use crate::store_model::{
    compactable, compacted, compaction_run, compaction_step, dead, dead_at, dead_due, deliveries,
    duplicates_leased, enqueued, expired_quota, law_suppression_holds, lease_batch, lease_run,
    lease_step, lemma_tables, live_at, marked_dirty, redrive_step, suppressed, suppressing,
    terminal, with_delivery, LeaseRun, TERMINAL_DEAD_RETENTION_MS,
};
use crate::tables::StoreState;

verus! {

proof fn lemma_run_is_bounded(
    run: LeaseRun,
    keys: Seq<DueView>,
    stop: nat,
    now_ms: u64,
    until_ms: u64,
    dept: Option<Seq<char>>,
    excluded: Seq<Seq<char>>,
    expired: bool,
)
    ensures
        lease_run(run, keys, stop, now_ms, until_ms, dept, excluded, expired) matches Some(done)
            ==> done.leased.len() <= if run.leased.len() >= stop {
            run.leased.len()
        } else {
            stop
        },
    decreases keys.len(),
{
    if keys.len() > 0 && run.leased.len() < stop {
        match lease_step(
            run.state,
            keys[0],
            now_ms,
            until_ms,
            dept,
            excluded,
            expired,
        ) {
            None => {},
            Some(step) => {
                lemma_run_is_bounded(
                    LeaseRun {
                        state: step.state,
                        leased: match step.record {
                            Some(d) => run.leased.push(d),
                            None => run.leased,
                        },
                        mutated: run.mutated || step.mutated,
                    },
                    keys.drop_first(),
                    stop,
                    now_ms,
                    until_ms,
                    dept,
                    excluded,
                    expired,
                );
            },
        }
    }
}

/// A batch holds no more deliveries than it may.
pub proof fn law_batch_is_bounded(
    s: StoreState,
    expired_keys: Seq<DueView>,
    ready_keys: Seq<DueView>,
    batch_limit: nat,
    now_ms: u64,
    until_ms: u64,
    dept: Option<Seq<char>>,
    excluded: Seq<Seq<char>>,
)
    ensures
        lease_batch(
            s,
            expired_keys,
            ready_keys,
            batch_limit,
            now_ms,
            until_ms,
            dept,
            excluded,
        ) matches Some(done) ==> done.leased.len() <= batch_limit,
{
    let start = LeaseRun { state: s, leased: Seq::empty(), mutated: false };
    let quota = expired_quota(batch_limit);
    lemma_run_is_bounded(start, expired_keys, quota, now_ms, until_ms, dept, excluded, true);
    match lease_run(start, expired_keys, quota, now_ms, until_ms, dept, excluded, true) {
        None => {},
        Some(run) => {
            lemma_run_is_bounded(
                run,
                ready_keys,
                batch_limit,
                now_ms,
                until_ms,
                dept,
                excluded,
                false,
            );
        },
    }
}

/// A delivery is sent again no more often than the policy allows, and every time counts.
pub proof fn law_redrives_are_bounded(
    s: StoreState,
    key: DueView,
    policy: RedrivePolicy,
    now_ms: u64,
)
    ensures
        redrive_step(s, key, policy, now_ms) matches Some(step) ==> (step.redriven matches Some(d)
            ==> d.redrive_count <= policy.max_redrives && (dead_at(s, key.delivery_id) matches Some(
            was,
        ) && d.redrive_count == was.redrive_count + 1)),
{
    reveal(redrive_step);
}

/// Looking at one key of a dead delivery touches no live delivery, and lets no suppressed id free.
proof fn lemma_compaction_step_keeps(s: StoreState, key: DueView, cutoff_ms: u64)
    ensures
        compaction_step(s, key, cutoff_ms) matches Some(Some(t)) ==> {
            &&& forall|id: Seq<char>| #[trigger]
                t.row(deliveries(), id) == s.row(deliveries(), id)
            &&& forall|id: Seq<char>| #[trigger] suppressed(s, id) ==> suppressed(t, id)
            &&& forall|id: Seq<char>|
                (#[trigger] t.row(dead(), id)) is Some ==> t.row(dead(), id) == s.row(dead(), id)
        },
{
    reveal(compaction_step);
    lemma_tables();
    let id = key.delivery_id;
    let a = s.without_key(terminal(), key.key);
    lemma_suppressed_same(s, a);
    match dead_at(s, id) {
        None => {},
        Some(d) => {
            let own = dead_index_key(d.dept, d.dead_at_ms, id);
            let b = a.with_key(terminal(), own);
            lemma_suppressed_same(s, b);
            if suppressing(b, id) is Some {
                law_suppression_holds(b, id);
            }
            let c = s.without_row(dead(), id).without_key(
                terminal(),
                key.key,
            ).without_key(dead_due(), own);
            lemma_suppressed_same(s, c);
        },
    }
}

proof fn lemma_compaction_run_keeps(
    s: StoreState,
    keys: Seq<DueView>,
    cutoff_ms: u64,
    count: nat,
)
    ensures
        compaction_run(s, keys, cutoff_ms, count) matches Some((t, n)) ==> {
            &&& forall|id: Seq<char>| #[trigger]
                t.row(deliveries(), id) == s.row(deliveries(), id)
            &&& forall|id: Seq<char>| #[trigger] suppressed(s, id) ==> suppressed(t, id)
            &&& forall|id: Seq<char>|
                (#[trigger] t.row(dead(), id)) is Some ==> t.row(dead(), id) == s.row(dead(), id)
        },
    decreases keys.len(),
{
    if keys.len() > 0 {
        lemma_compaction_step_keeps(s, keys[0], cutoff_ms);
        match compaction_step(s, keys[0], cutoff_ms) {
            Some(Some(t)) => {
                lemma_compaction_run_keeps(t, keys.drop_first(), cutoff_ms, count + 1);
                if compaction_run(s, keys, cutoff_ms, count) is Some {
                    let u = (compaction_run(s, keys, cutoff_ms, count)->0).0;
                    assert forall|id: Seq<char>| #[trigger]
                        suppressed(s, id) implies suppressed(u, id) by {
                        assert(suppressed(t, id));
                    }
                    assert forall|id: Seq<char>|
                        (#[trigger] u.row(dead(), id)) is Some implies u.row(dead(), id) == s.row(
                        dead(),
                        id,
                    ) by {
                        assert(t.row(dead(), id) == u.row(dead(), id));
                    }
                }
            },
            _ => {},
        }
    }
}

/// A compaction touches no live delivery, lets no suppressed id free, and makes no dead delivery.
pub proof fn law_compaction_keeps(s: StoreState, now_ms: u64, t: StoreState, count: nat)
    requires
        compacted(s, now_ms, t, count),
    ensures
        forall|id: Seq<char>| #[trigger] t.row(deliveries(), id) == s.row(deliveries(), id),
        forall|id: Seq<char>| #[trigger] suppressed(s, id) ==> suppressed(t, id),
        forall|id: Seq<char>|
            (#[trigger] t.row(dead(), id)) is Some ==> t.row(dead(), id) == s.row(dead(), id),
{
    if now_ms >= TERMINAL_DEAD_RETENTION_MS {
        let cutoff_ms = (now_ms - TERMINAL_DEAD_RETENTION_MS) as u64;
        let keys = choose|keys: Seq<DueView>| #[trigger]
            compactable(keys, s, cutoff_ms) && compaction_run(s, keys, cutoff_ms, 0) == Some(
                (t, count),
            );
        lemma_compaction_run_keeps(s, keys, cutoff_ms, 0);
    }
}

proof fn lemma_compaction_step_spares(s: StoreState, key: DueView, cutoff_ms: u64, id: Seq<char>)
    requires
        dead_at(s, id) matches Some(d) && d.dead_at_ms > cutoff_ms,
    ensures
        compaction_step(s, key, cutoff_ms) matches Some(Some(t)) ==> t.row(dead(), id) == s.row(
            dead(),
            id,
        ),
{
    reveal(compaction_step);
    lemma_tables();
    match dead_at(s, key.delivery_id) {
        None => {},
        Some(d) => {
            let own = dead_index_key(d.dept, d.dead_at_ms, key.delivery_id);
            let b = s.without_key(terminal(), key.key).with_key(terminal(), own);
            if suppressing(b, key.delivery_id) is Some {
                law_suppression_holds(b, key.delivery_id);
            }
        },
    }
}

proof fn lemma_compaction_run_spares(
    s: StoreState,
    keys: Seq<DueView>,
    cutoff_ms: u64,
    count: nat,
    id: Seq<char>,
)
    requires
        dead_at(s, id) matches Some(d) && d.dead_at_ms > cutoff_ms,
    ensures
        compaction_run(s, keys, cutoff_ms, count) matches Some((t, n)) ==> t.row(dead(), id)
            == s.row(dead(), id),
    decreases keys.len(),
{
    if keys.len() > 0 {
        lemma_compaction_step_spares(s, keys[0], cutoff_ms, id);
        match compaction_step(s, keys[0], cutoff_ms) {
            Some(Some(t)) => {
                assert(dead_at(t, id) == dead_at(s, id));
                lemma_compaction_run_spares(t, keys.drop_first(), cutoff_ms, count + 1, id);
            },
            _ => {},
        }
    }
}

/// A compaction drops nothing that has not been dead for as long as the retention.
pub proof fn law_compaction_spares_the_recent(
    s: StoreState,
    now_ms: u64,
    t: StoreState,
    count: nat,
    id: Seq<char>,
)
    requires
        compacted(s, now_ms, t, count),
        dead_at(s, id) matches Some(d) && d.dead_at_ms + TERMINAL_DEAD_RETENTION_MS > now_ms,
    ensures
        dead_at(t, id) == dead_at(s, id),
{
    if now_ms >= TERMINAL_DEAD_RETENTION_MS {
        let cutoff_ms = (now_ms - TERMINAL_DEAD_RETENTION_MS) as u64;
        let keys = choose|keys: Seq<DueView>| #[trigger]
            compactable(keys, s, cutoff_ms) && compaction_run(s, keys, cutoff_ms, 0) == Some(
                (t, count),
            );
        lemma_compaction_run_spares(s, keys, cutoff_ms, 0, id);
    }
}

/// A delivery whose id is suppressed does not come back: it is not put in, also after what is left
/// of the dead delivery has been dropped.
pub proof fn law_suppressed_stays_out(s: StoreState, d: DeliveryView, t: StoreState)
    requires
        suppressed(s, d.delivery_id),
        s.row(deliveries(), d.delivery_id) is None,
        enqueued(s, d, t),
    ensures
        t.row(deliveries(), d.delivery_id) is None,
        suppressed(t, d.delivery_id),
{
    let (mid, count) = choose|mid: StoreState, count: nat| #[trigger]
        compacted(s, d.observed_at_ms, mid, count) && t == if suppressed(mid, d.delivery_id) {
            mid
        } else {
            with_delivery(mid, d)
        };
    law_compaction_keeps(s, d.observed_at_ms, mid, count);
}

/// A delivery that is there stays as it is, however often it is put in again, unless it is leased
/// and the same by its key.
pub proof fn law_enqueue_again_changes_nothing(s: StoreState, d: DeliveryView, t: StoreState)
    requires
        live_at(s, d.delivery_id) is Some,
        !duplicates_leased(s, d),
        enqueued(s, d, t),
    ensures
        t == s,
{
}

/// Putting in a delivery whose id is live adds nothing and loses nothing: the delivery that is there
/// keeps its contents, its times and its lease, and is at most marked; no index, no dead delivery,
/// no suppressed id and no other delivery changes.
pub proof fn law_enqueue_on_a_live_id(
    s: StoreState,
    d: DeliveryView,
    t: StoreState,
    was: DeliveryView,
)
    requires
        live_at(s, d.delivery_id) == Some(was),
        enqueued(s, d, t),
        reads_back(marked_dirty(was)),
    ensures
        if duplicates_leased(s, d) {
            is_written(live_at(t, d.delivery_id), DeliveryView { pending_dirty: true, ..was })
        } else {
            live_at(t, d.delivery_id) == Some(was)
        },
        t.keys == s.keys,
        t.texts == s.texts,
        forall|id: Seq<char>| #[trigger] t.row(dead(), id) == s.row(dead(), id),
        forall|id: Seq<char>|
            id != d.delivery_id ==> #[trigger] t.row(deliveries(), id) == s.row(deliveries(), id),
{
    lemma_tables();
    if duplicates_leased(s, d) {
        law_a_duplicate_marks_the_leased(s, d, t, was);
    }
}

/// A duplicate, by its key, of a leased delivery marks it and changes nothing else: no index, no
/// dead delivery, no suppressed id, no other delivery, and nothing else of this one.
pub proof fn law_a_duplicate_marks_the_leased(
    s: StoreState,
    d: DeliveryView,
    t: StoreState,
    was: DeliveryView,
)
    requires
        live_at(s, d.delivery_id) == Some(was),
        duplicates_leased(s, d),
        enqueued(s, d, t),
        reads_back(marked_dirty(was)),
    ensures
        is_written(live_at(t, d.delivery_id), DeliveryView { pending_dirty: true, ..was }),
        t.keys == s.keys,
        t.texts == s.texts,
        forall|id: Seq<char>| #[trigger] t.row(dead(), id) == s.row(dead(), id),
        forall|id: Seq<char>|
            id != d.delivery_id ==> #[trigger] t.row(deliveries(), id) == s.row(deliveries(), id),
{
    lemma_tables();
}

/// A delivery that is put in where nothing of it is known is there.
pub proof fn law_enqueued_is_there(s: StoreState, d: DeliveryView, t: StoreState)
    requires
        enqueued(s, d, t),
        !suppressed(t, d.delivery_id),
    ensures
        t.row(deliveries(), d.delivery_id) is Some,
{
    if s.row(deliveries(), d.delivery_id) is None {
        let (mid, count) = choose|mid: StoreState, count: nat| #[trigger]
            compacted(s, d.observed_at_ms, mid, count) && t == if suppressed(mid, d.delivery_id) {
                mid
            } else {
                with_delivery(mid, d)
            };
        lemma_suppressed_same(mid, with_delivery(mid, d));
    }
}

} // verus!
