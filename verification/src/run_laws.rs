//! Laws of what comes of many keys one after the other: of a batch, of a redrive and of a compaction.

use vstd::prelude::*;
use crate::delivery_index::{dead_index_key, parsed_dead_key, DueView};
use crate::delivery_reads::{dead_front, due_dead, stopped, whole_dead_range, worth_redrive};
use crate::delivery_scan::{between, first_keys};
use crate::delivery_store::{expired_leases, redrive_done, redrive_start, settled, RedriveResult};
use crate::delivery_types::{dead_views, delivery_views, DeadView, DeliveryView, RedrivePolicy};
use crate::store_model::{
    awaits_redrive, compactable, compacted, compaction_run, compaction_step, dead_due,
    dead_range_end, dead_range_start, expired_quota, given_up, is_terminal, lease_batch, lease_run,
    lease_step, parsed_dead_all, redrive_run, redrive_step, terminal, tombstone, LeaseRun,
    RedriveRun, TERMINAL_DEAD_COMPACTION_LIMIT,
};
use crate::tables::StoreState;

verus! {

// Batches.

/// What was given out before stays given out. While there is room, what the first key gives out is
/// given out next, and the rest of the keys go on from there.
pub proof fn law_each_key_of_a_batch_counts(
    run: LeaseRun,
    keys: Seq<DueView>,
    stop: nat,
    now_ms: u64,
    until_ms: u64,
    dept: Option<Seq<char>>,
    excluded: Seq<Seq<char>>,
    expired: bool,
    done: LeaseRun,
)
    requires
        lease_run(run, keys, stop, now_ms, until_ms, dept, excluded, expired) == Some(done),
    ensures
        run.leased.len() <= done.leased.len(),
        forall|i: int| 0 <= i < run.leased.len() ==> #[trigger] done.leased[i] == run.leased[i],
        run.mutated ==> done.mutated,
        done.leased.len() <= run.leased.len() + keys.len(),
        run.leased.len() >= stop ==> done == run,
        keys.len() > 0 && run.leased.len() < stop ==> (lease_step(
            run.state,
            keys[0],
            now_ms,
            until_ms,
            dept,
            excluded,
            expired,
        ) matches Some(step) && (step.record matches Some(d) ==> done.leased.len()
            > run.leased.len() && done.leased[run.leased.len() as int] == d) && (step.mutated
            ==> done.mutated)),
    decreases keys.len(),
{
    if keys.len() > 0 && run.leased.len() < stop {
        let step = lease_step(run.state, keys[0], now_ms, until_ms, dept, excluded, expired)->0;
        let next = LeaseRun {
            state: step.state,
            leased: match step.record {
                Some(d) => run.leased.push(d),
                None => run.leased,
            },
            mutated: run.mutated || step.mutated,
        };
        law_each_key_of_a_batch_counts(
            next,
            keys.drop_first(),
            stop,
            now_ms,
            until_ms,
            dept,
            excluded,
            expired,
            done,
        );
        assert forall|i: int| 0 <= i < run.leased.len() implies #[trigger] done.leased[i]
            == run.leased[i] by {
            assert(done.leased[i] == next.leased[i]);
        }
        if step.record is Some {
            assert(done.leased[run.leased.len() as int] == next.leased[run.leased.len() as int]);
        }
    }
}

/// A batch starts with the deliveries whose lease has run out, half of it at most; the first delivery
/// that is ready follows where there is room.
pub proof fn law_how_a_batch_is_made_up(
    s: StoreState,
    expired_keys: Seq<DueView>,
    ready_keys: Seq<DueView>,
    limit: nat,
    now_ms: u64,
    until_ms: u64,
    dept: Option<Seq<char>>,
    excluded: Seq<Seq<char>>,
    done: LeaseRun,
)
    requires
        lease_batch(s, expired_keys, ready_keys, limit, now_ms, until_ms, dept, excluded) == Some(
            done,
        ),
    ensures
        limit > 0 && expired_keys.len() > 0 ==> (lease_step(
            s,
            expired_keys[0],
            now_ms,
            until_ms,
            dept,
            excluded,
            true,
        ) matches Some(step) && (step.record matches Some(d) ==> done.leased.len() > 0
            && done.leased[0] == d)),
        limit > 0 && expired_keys.len() == 0 && ready_keys.len() > 0 ==> (lease_step(
            s,
            ready_keys[0],
            now_ms,
            until_ms,
            dept,
            excluded,
            false,
        ) matches Some(step) && (step.record matches Some(d) ==> done.leased.len() > 0
            && done.leased[0] == d)),
        limit == 0 ==> done.leased.len() == 0,
        expired_keys.len() == 0 && ready_keys.len() == 0 ==> done.state == s && !done.mutated,
{
    let start = LeaseRun { state: s, leased: Seq::empty(), mutated: false };
    let quota = expired_quota(limit);
    let mid = lease_run(start, expired_keys, quota, now_ms, until_ms, dept, excluded, true)->0;
    law_each_key_of_a_batch_counts(
        start,
        expired_keys,
        quota,
        now_ms,
        until_ms,
        dept,
        excluded,
        true,
        mid,
    );
    law_each_key_of_a_batch_counts(
        mid,
        ready_keys,
        limit,
        now_ms,
        until_ms,
        dept,
        excluded,
        false,
        done,
    );
    if mid.leased.len() > 0 {
        assert(done.leased[0] == mid.leased[0]);
    }
}

/// The leases that are looked at have run out, the first of them, and no more than half of a batch.
pub proof fn law_which_leases_are_looked_at(
    found: Seq<DueView>,
    keys: Set<(Seq<char>, Seq<char>)>,
    dept: Option<Seq<char>>,
    now_ms: u64,
    limit: nat,
    excluded_len: nat,
)
    requires
        expired_leases(found, keys, dept, now_ms, limit, excluded_len),
    ensures
        found.len() <= expired_quota(limit),
        exists|all: Seq<DueView>| #[trigger]
            crate::delivery_scan::due_keys(
                all,
                keys,
                crate::store_model::leased(),
                dept,
                now_ms,
                crate::delivery_store::budget(limit, excluded_len),
            ) && found.is_prefix_of(all) && (found.len() < expired_quota(limit) ==> found == all),
{
    let all = choose|all: Seq<DueView>| #[trigger]
        crate::delivery_scan::due_keys(
            all,
            keys,
            crate::store_model::leased(),
            dept,
            now_ms,
            crate::delivery_store::budget(limit, excluded_len),
        ) && found == if all.len() <= expired_quota(limit) {
            all
        } else {
            all.take(expired_quota(limit) as int)
        };
    assert(all.subrange(0, found.len() as int) =~= found);
}

// Redrives.

/// What was sent again or given up before stays so. What the first key leads to is told next, and the
/// rest of the keys go on from there.
pub proof fn law_each_key_of_a_redrive_counts(
    run: RedriveRun,
    keys: Seq<DueView>,
    policy: RedrivePolicy,
    now_ms: u64,
    done: RedriveRun,
)
    requires
        redrive_run(run, keys, policy, now_ms) == Some(done),
    ensures
        run.redriven.len() <= done.redriven.len(),
        run.permanent.len() <= done.permanent.len(),
        forall|i: int|
            0 <= i < run.redriven.len() ==> #[trigger] done.redriven[i] == run.redriven[i],
        forall|i: int|
            0 <= i < run.permanent.len() ==> #[trigger] done.permanent[i] == run.permanent[i],
        run.mutated ==> done.mutated,
        keys.len() == 0 ==> done == run,
        keys.len() > 0 ==> (redrive_step(run.state, keys[0], policy, now_ms) matches Some(step) && (
        step.redriven matches Some(d) ==> done.redriven.len() > run.redriven.len()
            && done.redriven[run.redriven.len() as int] == d) && (step.permanent matches Some(d)
            ==> done.permanent.len() > run.permanent.len()
            && done.permanent[run.permanent.len() as int] == d) && (step.mutated ==> done.mutated)),
    decreases keys.len(),
{
    if keys.len() > 0 {
        let step = redrive_step(run.state, keys[0], policy, now_ms)->0;
        let next = RedriveRun {
            state: step.state,
            redriven: match step.redriven {
                Some(d) => run.redriven.push(d),
                None => run.redriven,
            },
            permanent: match step.permanent {
                Some(d) => run.permanent.push(d),
                None => run.permanent,
            },
            mutated: run.mutated || step.mutated,
        };
        law_each_key_of_a_redrive_counts(next, keys.drop_first(), policy, now_ms, done);
        assert forall|i: int| 0 <= i < run.redriven.len() implies #[trigger] done.redriven[i]
            == run.redriven[i] by {
            assert(done.redriven[i] == next.redriven[i]);
        }
        assert forall|i: int| 0 <= i < run.permanent.len() implies #[trigger] done.permanent[i]
            == run.permanent[i] by {
            assert(done.permanent[i] == next.permanent[i]);
        }
        if step.redriven is Some {
            assert(done.redriven[run.redriven.len() as int]
                == next.redriven[run.redriven.len() as int]);
        }
        if step.permanent is Some {
            assert(done.permanent[run.permanent.len() as int]
                == next.permanent[run.permanent.len() as int]);
        }
    }
}

/// A redrive reports what its first key leads to first, and says that something changed wherever a
/// key changed something; without keys nothing is reported.
pub proof fn law_what_a_redrive_reports(
    s: StoreState,
    keys: Seq<DueView>,
    policy: RedrivePolicy,
    now_ms: u64,
    result: RedriveResult,
    t: StoreState,
)
    requires
        redrive_done(s, keys, policy, now_ms, result, t),
    ensures
        keys.len() == 0 ==> result.redriven@.len() == 0 && result.permanent@.len() == 0,
        keys.len() > 0 ==> (redrive_step(s, keys[0], policy, now_ms) matches Some(step) && (
        step.redriven matches Some(d) ==> result.redriven@.len() > 0 && result.redriven@[0]@ == d)
            && (step.permanent matches Some(d) ==> result.permanent@.len() > 0
            && result.permanent@[0]@ == d) && (step.mutated ==> result.mutated)),
        keys.len() == 0 && now_ms < crate::store_model::TERMINAL_DEAD_RETENTION_MS ==> t == s
            && !result.mutated,
{
    let start = redrive_start(s);
    let done = redrive_run(start, keys, policy, now_ms)->0;
    law_each_key_of_a_redrive_counts(start, keys, policy, now_ms, done);
    assert(delivery_views(result.redriven@).len() == result.redriven@.len());
    assert(dead_views(result.permanent@).len() == result.permanent@.len());
    if done.redriven.len() > 0 {
        assert(delivery_views(result.redriven@)[0] == result.redriven@[0]@);
    }
    if done.permanent.len() > 0 {
        assert(dead_views(result.permanent@)[0] == result.permanent@[0]@);
    }
}

/// The dead that are due are those that were dead by now, the first of them, as many as there is room
/// for; with room left either all are there or the next one has not rested.
pub proof fn law_which_dead_are_due(
    found: Seq<DueView>,
    rows: Map<(Seq<char>, Seq<char>), Seq<u8>>,
    keys: Set<(Seq<char>, Seq<char>)>,
    cooldown_ms: u64,
    now_ms: u64,
    limit: nat,
    key: Seq<char>,
)
    requires
        due_dead(found, rows, keys, cooldown_ms, now_ms, limit),
        parsed_dead_key(key) is Some,
    ensures
        found.len() <= limit,
        forall|i: int|
            0 <= i < found.len() ==> worth_redrive(rows, #[trigger] found[i], cooldown_ms, now_ms),
        found.len() < limit && between(
            keys,
            dead_due(),
            dead_range_start(),
            dead_range_end(now_ms),
            key,
        ) ==> found.contains(parsed_dead_key(key)->0) || exists|list: Seq<Seq<char>>| #[trigger]
            stopped(list, rows, keys, cooldown_ms, now_ms) && parsed_dead_all(list) == Some(found),
{
    let list = choose|list: Seq<Seq<char>>| #[trigger]
        dead_front(list, keys, now_ms) && parsed_dead_all(list) == Some(found) && (found.len()
            == limit || whole_dead_range(list, keys, now_ms) || stopped(
            list,
            rows,
            keys,
            cooldown_ms,
            now_ms,
        ));
    if found.len() < limit && between(
        keys,
        dead_due(),
        dead_range_start(),
        dead_range_end(now_ms),
        key,
    ) {
        if whole_dead_range(list, keys, now_ms) {
            assert(list.contains(key));
            let i = choose|i: int| 0 <= i < list.len() && list[i] == key;
            crate::read_laws::law_each_key_is_read(list);
            assert(Some(found[i]) == parsed_dead_key(list[i]));
            assert(found[i] == parsed_dead_key(key)->0);
        } else {
            assert(stopped(list, rows, keys, cooldown_ms, now_ms));
        }
    }
}

// Compactions.

/// A compaction counts each key that it works off, one by one; where it counts none, nothing changes.
pub proof fn law_what_a_compaction_counts(
    s: StoreState,
    keys: Seq<DueView>,
    cutoff_ms: u64,
    count: nat,
    t: StoreState,
    n: nat,
)
    requires
        compaction_run(s, keys, cutoff_ms, count) == Some((t, n)),
    ensures
        count <= n <= count + keys.len(),
        n == count ==> t == s,
        keys.len() > 0 && (compaction_step(s, keys[0], cutoff_ms) matches Some(Some(next))) ==> n
            > count,
        keys.len() == 1 && (compaction_step(s, keys[0], cutoff_ms) matches Some(Some(next))) ==> n
            == count + 1 && compaction_step(s, keys[0], cutoff_ms) == Some(Some(t)),
    decreases keys.len(),
{
    if keys.len() > 0 {
        if let Some(Some(next)) = compaction_step(s, keys[0], cutoff_ms) {
            law_what_a_compaction_counts(next, keys.drop_first(), cutoff_ms, count + 1, t, n);
        }
    }
}

/// Whether anything changed is told of the step and of the compaction behind it.
pub proof fn law_what_changed_is_told(
    s: StoreState,
    before: bool,
    now_ms: u64,
    changed: bool,
    t: StoreState,
)
    requires
        settled(s, before, now_ms, changed, t),
    ensures
        before ==> changed,
        !changed ==> t == s,
        !before && changed ==> now_ms >= crate::store_model::TERMINAL_DEAD_RETENTION_MS,
{
    let count = choose|count: nat| #[trigger]
        compacted(s, now_ms, t, count) && changed == (before || count > 0);
    if now_ms >= crate::store_model::TERMINAL_DEAD_RETENTION_MS {
        let cutoff_ms = (now_ms - crate::store_model::TERMINAL_DEAD_RETENTION_MS) as u64;
        let keys = choose|keys: Seq<DueView>| #[trigger]
            compactable(keys, s, cutoff_ms) && compaction_run(
                s,
                keys,
                cutoff_ms,
                0,
            ) == Some((t, count));
        law_what_a_compaction_counts(s, keys, cutoff_ms, 0, t, count);
    }
}

/// The keys that a compaction works off are those of deliveries that were dead by then; with room
/// left, each such key is among them.
pub proof fn law_what_a_compaction_works_off(
    keys: Seq<DueView>,
    s: StoreState,
    cutoff_ms: u64,
    dept: Seq<char>,
    dead_at_ms: u64,
    id: Seq<char>,
)
    requires
        compactable(keys, s, cutoff_ms),
    ensures
        keys.len() <= TERMINAL_DEAD_COMPACTION_LIMIT,
        keys.len() < TERMINAL_DEAD_COMPACTION_LIMIT && s.keys.contains(
            (terminal(), dead_index_key(dept, dead_at_ms, id)),
        ) && dead_at_ms <= cutoff_ms ==> keys.contains(
            DueView {
                key: dead_index_key(dept, dead_at_ms, id),
                due_ms: dead_at_ms,
                delivery_id: id,
            },
        ),
        forall|i: int|
            0 <= i < keys.len() ==> exists|k: Seq<char>|
                s.keys.contains((terminal(), k)) && #[trigger] parsed_dead_key(k) == Some(
                    #[trigger] keys[i],
                ),
{
    let list = choose|list: Seq<Seq<char>>| #[trigger]
        first_keys(
            list,
            s.keys,
            terminal(),
            dead_range_start(),
            dead_range_end(cutoff_ms),
            TERMINAL_DEAD_COMPACTION_LIMIT as nat,
        ) && parsed_dead_all(list) == Some(keys);
    crate::read_laws::law_each_key_is_read(list);
    let key = dead_index_key(dept, dead_at_ms, id);
    if keys.len() < TERMINAL_DEAD_COMPACTION_LIMIT && s.keys.contains((terminal(), key))
        && dead_at_ms <= cutoff_ms {
        crate::read_laws::law_the_dead_by_a_time(
            dept,
            dead_at_ms,
            id,
            cutoff_ms,
            s.keys,
            terminal(),
        );
        assert(list.contains(key));
        let i = choose|i: int| 0 <= i < list.len() && list[i] == key;
        crate::delivery_index::law_dead_index_key_parses(dept, dead_at_ms, id);
        assert(Some(keys[i]) == parsed_dead_key(list[i]));
    }
    assert forall|i: int| 0 <= i < keys.len() implies exists|k: Seq<char>|
        s.keys.contains((terminal(), k)) && #[trigger] parsed_dead_key(k) == Some(
            #[trigger] keys[i],
        ) by {
        assert(between(
            s.keys,
            terminal(),
            dead_range_start(),
            dead_range_end(cutoff_ms),
            list[i],
        ));
        assert(Some(keys[i]) == parsed_dead_key(list[i]));
    }
}

/// A dead delivery waits to be sent again or stays dead, and never both: one that can be sent again
/// waits with what is to be sent, and one that cannot, or was given up, stays.
pub proof fn law_the_dead_wait_or_stay(
    d: DeliveryView,
    g: DeadView,
    replayable: bool,
    now_ms: u64,
)
    ensures
        awaits_redrive(tombstone(d, true, now_ms)) && !is_terminal(tombstone(d, true, now_ms)),
        !awaits_redrive(tombstone(d, false, now_ms)) && is_terminal(tombstone(d, false, now_ms)),
        !awaits_redrive(given_up(g)) && is_terminal(given_up(g)),
        !(awaits_redrive(g) && is_terminal(g)),
        awaits_redrive(g) ==> g.record is Some && g.replayable && !g.permanent,
        g.permanent || !g.replayable ==> is_terminal(g),
        g.replayable && !g.permanent && g.record is Some ==> awaits_redrive(g),
{
}

} // verus!
