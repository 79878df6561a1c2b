//! Laws of redrives: what is told of them is what the store then holds.

use vstd::prelude::*;
use crate::delivery_index::{parsed_dead_key, DueView};
use crate::delivery_store::redrive_start;
use crate::delivery_types::{DeadView, DeliveryView, RedrivePolicy};
use crate::duration::millis;
use crate::record_codec::{
    all_dead_read_back, all_read_back, dead_reads_back, is_written, reads_back, storable_dead,
};
use crate::store_history::after_compaction;
use crate::store_invariant::{all_dead_read, lemma_redrive_step_sound, sound, sound_at};
use crate::store_laws::{law_compaction_keeps, law_compaction_spares_the_recent};
use crate::store_model::{
    awaits_redrive, compacted, cooled_down, dead, dead_at, deliveries, given_up, giving_up,
    is_terminal, law_suppression_holds, lemma_tables, live_at, redrive_run, redrive_step, redriven,
    suppressed, suppressing, RedriveRun, RedriveStep, TERMINAL_DEAD_RETENTION_MS,
};
use crate::tables::StoreState;

verus! {

/// Whether a dead delivery has rested for as long as a policy asks.
pub open spec fn has_rested(was: DeadView, policy: RedrivePolicy, now_ms: u64) -> bool {
    cooled_down(was.dead_at_ms, millis(policy.cooldown@) as u64, now_ms)
}

/// Whether a live delivery is what a dead one, that was due, is sent again as.
pub open spec fn rightly_redriven(
    s: StoreState,
    c: DeliveryView,
    policy: RedrivePolicy,
    now_ms: u64,
) -> bool {
    dead_at(s, c.delivery_id) matches Some(was) && awaits_redrive(was) && has_rested(
        was,
        policy,
        now_ms,
    ) && was.redrive_count < policy.max_redrives && c == redriven(was, was.record->0, now_ms)
}

/// Whether a delivery is what is left of a dead one that is given up: it was due, and it was sent
/// again too often, had no record, or was live again.
pub open spec fn rightly_given_up(
    s: StoreState,
    d: DeadView,
    policy: RedrivePolicy,
    now_ms: u64,
) -> bool {
    dead_at(s, d.delivery_id) matches Some(was) && !is_terminal(was) && has_rested(
        was,
        policy,
        now_ms,
    ) && (was.record is None || was.redrive_count >= policy.max_redrives || s.row(
        deliveries(),
        d.delivery_id,
    ) is Some) && d == DeadView { error_excerpt: d.error_excerpt, ..given_up(was) }
}

spec fn after_redrive(run: RedriveRun, step: RedriveStep) -> RedriveRun {
    RedriveRun {
        state: step.state,
        redriven: match step.redriven {
            Some(d) => run.redriven.push(d),
            None => run.redriven,
        },
        permanent: match step.permanent {
            Some(d) => run.permanent.push(d),
            None => run.permanent,
        },
        mutated: run.mutated || step.mutated,
    }
}

proof fn lemma_redrive_only_adds(
    run: RedriveRun,
    keys: Seq<DueView>,
    policy: RedrivePolicy,
    now_ms: u64,
    done: RedriveRun,
)
    requires
        redrive_run(run, keys, policy, now_ms) == Some(done),
    ensures
        run.redriven.len() <= done.redriven.len(),
        run.permanent.len() <= done.permanent.len(),
        forall|i: int|
            0 <= i < run.redriven.len() ==> done.redriven[i] == #[trigger] run.redriven[i],
        forall|i: int|
            0 <= i < run.permanent.len() ==> done.permanent[i] == #[trigger] run.permanent[i],
        done.redriven.len() + done.permanent.len() <= run.redriven.len() + run.permanent.len()
            + keys.len(),
    decreases keys.len(),
{
    if keys.len() > 0 {
        let step = redrive_step(run.state, keys[0], policy, now_ms)->0;
        assert(!(step.redriven is Some && step.permanent is Some)) by {
            reveal(redrive_step);
        }
        let next = after_redrive(run, step);
        lemma_redrive_only_adds(next, keys.drop_first(), policy, now_ms, done);
        assert forall|i: int| 0 <= i < run.redriven.len() implies done.redriven[i]
            == #[trigger] run.redriven[i] by {
            assert(next.redriven[i] == run.redriven[i]);
        }
        assert forall|i: int| 0 <= i < run.permanent.len() implies done.permanent[i]
            == #[trigger] run.permanent[i] by {
            assert(next.permanent[i] == run.permanent[i]);
        }
    }
}

/// What one key does to the rows.
proof fn lemma_redrive_step_rows(
    s: StoreState,
    key: DueView,
    policy: RedrivePolicy,
    now_ms: u64,
    step: RedriveStep,
)
    requires
        sound(s),
        redrive_step(s, key, policy, now_ms) == Some(step),
        step.redriven matches Some(c) ==> reads_back(c),
        step.permanent matches Some(d) ==> dead_reads_back(d),
    ensures
        step.redriven is None || step.permanent is None,
        step.redriven matches Some(c) ==> {
            &&& c.delivery_id == key.delivery_id
            &&& rightly_redriven(s, c, policy, now_ms)
            &&& is_written(live_at(step.state, key.delivery_id), c)
            &&& step.state.row(dead(), key.delivery_id) is None
        },
        step.permanent matches Some(d) ==> {
            &&& d.delivery_id == key.delivery_id
            &&& rightly_given_up(s, d, policy, now_ms)
            &&& dead_at(step.state, key.delivery_id) == Some(d)
        },
        forall|id: Seq<char>|
            id != key.delivery_id || step.redriven is None ==> #[trigger] step.state.row(
                deliveries(),
                id,
            ) == s.row(deliveries(), id),
        forall|id: Seq<char>|
            id != key.delivery_id || (step.redriven is None && step.permanent is None)
                ==> #[trigger] step.state.row(dead(), id) == s.row(dead(), id),
{
    reveal(redrive_step);
    lemma_tables();
    let id = key.delivery_id;
    assert(sound_at(s, id));
    match step.permanent {
        Some(d) => {
            assert(giving_up(s, key, d) == Some(step));
            let a = s.without_key(crate::store_model::dead_due(), key.key).with_row(
                dead(),
                id,
                crate::record_codec::dead_bytes(d),
            ).with_key(
                crate::store_model::terminal(),
                crate::delivery_index::dead_index_key(d.dept, d.dead_at_ms, id),
            );
            law_suppression_holds(a, id);
            assert(step.state == suppressing(a, id)->0);
            assert(storable_dead(d));
            assert(dead_at(step.state, id) == Some(d));
        },
        None => {
            match step.redriven {
                Some(c) => {
                    assert(is_written(live_at(step.state, id), c));
                },
                None => {},
            }
        },
    }
}

/// What holds of a run from `s` on.
#[verifier::opaque]
spec fn tells_what_is_there(s: StoreState, run: RedriveRun, policy: RedrivePolicy, now_ms: u64) -> bool {
    &&& forall|i: int|
        0 <= i < run.redriven.len() ==> {
            let c = #[trigger] run.redriven[i];
            &&& rightly_redriven(s, c, policy, now_ms)
            &&& is_written(live_at(run.state, c.delivery_id), c)
            &&& run.state.row(dead(), c.delivery_id) is None
        }
    &&& forall|i: int|
        0 <= i < run.permanent.len() ==> {
            let d = #[trigger] run.permanent[i];
            &&& rightly_given_up(s, d, policy, now_ms)
            &&& dead_at(run.state, d.delivery_id) == Some(d)
        }
    &&& forall|id: Seq<char>|
        (#[trigger] dead_at(run.state, id)) matches Some(d) && !is_terminal(d) ==> dead_at(s, id)
            == dead_at(run.state, id) && run.state.row(deliveries(), id) == s.row(deliveries(), id)
    &&& forall|id: Seq<char>|
        (#[trigger] run.state.row(deliveries(), id)) != s.row(deliveries(), id)
            ==> was_redriven(run.redriven, id)
}

/// Whether a delivery is among those that were sent again.
pub open spec fn was_redriven(again: Seq<DeliveryView>, delivery_id: Seq<char>) -> bool {
    exists|i: int| 0 <= i < again.len() && (#[trigger] again[i]).delivery_id == delivery_id
}

proof fn lemma_step_tells(
    s: StoreState,
    run: RedriveRun,
    key: DueView,
    policy: RedrivePolicy,
    now_ms: u64,
    step: RedriveStep,
)
    requires
        sound(run.state),
        redrive_step(run.state, key, policy, now_ms) == Some(step),
        step.redriven matches Some(c) ==> reads_back(c),
        step.permanent matches Some(d) ==> dead_reads_back(d),
        tells_what_is_there(s, run, policy, now_ms),
    ensures
        tells_what_is_there(s, after_redrive(run, step), policy, now_ms),
{
    reveal(tells_what_is_there);
    let next = after_redrive(run, step);
    let k = key.delivery_id;
    lemma_redrive_step_rows(run.state, key, policy, now_ms, step);
    if step.redriven is Some || step.permanent is Some {
        assert(dead_at(run.state, k) matches Some(d) && !is_terminal(d));
    }
    assert forall|i: int| 0 <= i < next.redriven.len() implies ({
        let c = #[trigger] next.redriven[i];
        &&& rightly_redriven(s, c, policy, now_ms)
        &&& is_written(live_at(next.state, c.delivery_id), c)
        &&& next.state.row(dead(), c.delivery_id) is None
    }) by {
        let c = next.redriven[i];
        if i < run.redriven.len() {
            assert(run.redriven[i] == c);
            assert(step.redriven is Some || step.permanent is Some ==> c.delivery_id != k);
            assert(next.state.row(deliveries(), c.delivery_id) == run.state.row(
                deliveries(),
                c.delivery_id,
            ));
            assert(next.state.row(dead(), c.delivery_id) == run.state.row(dead(), c.delivery_id));
        } else {
            assert(step.redriven == Some(c));
            assert(dead_at(s, k) == dead_at(run.state, k));
        }
    }
    assert forall|i: int| 0 <= i < next.permanent.len() implies ({
        let d = #[trigger] next.permanent[i];
        &&& rightly_given_up(s, d, policy, now_ms)
        &&& dead_at(next.state, d.delivery_id) == Some(d)
    }) by {
        let d = next.permanent[i];
        if i < run.permanent.len() {
            assert(run.permanent[i] == d);
            assert(is_terminal(d));
            assert(step.redriven is Some || step.permanent is Some ==> d.delivery_id != k);
            assert(next.state.row(dead(), d.delivery_id) == run.state.row(dead(), d.delivery_id));
        } else {
            assert(step.permanent == Some(d));
            assert(dead_at(s, k) == dead_at(run.state, k));
        }
    }
    assert forall|id: Seq<char>|
        (#[trigger] dead_at(next.state, id)) matches Some(d) && !is_terminal(d) implies dead_at(
        s,
        id,
    ) == dead_at(next.state, id) && next.state.row(deliveries(), id) == s.row(
        deliveries(),
        id,
    ) by {
        if id == k && (step.redriven is Some || step.permanent is Some) {
            assert(false);
        }
        assert(next.state.row(dead(), id) == run.state.row(dead(), id));
        assert(next.state.row(deliveries(), id) == run.state.row(deliveries(), id));
        assert(dead_at(run.state, id) == dead_at(next.state, id));
    }
    assert forall|id: Seq<char>|
        (#[trigger] next.state.row(deliveries(), id)) != s.row(
            deliveries(),
            id,
        ) implies was_redriven(next.redriven, id) by {
        if id == k && step.redriven is Some {
            let n = run.redriven.len() as int;
            assert(next.redriven[n].delivery_id == id);
        } else {
            assert(next.state.row(deliveries(), id) == run.state.row(deliveries(), id));
            assert(was_redriven(run.redriven, id));
            let i = choose|i: int|
                0 <= i < run.redriven.len() && (#[trigger] run.redriven[i]).delivery_id == id;
            assert(next.redriven[i] == run.redriven[i]);
        }
    }
}

proof fn lemma_run_tells(
    s: StoreState,
    run: RedriveRun,
    keys: Seq<DueView>,
    policy: RedrivePolicy,
    now_ms: u64,
    done: RedriveRun,
)
    requires
        sound(run.state),
        all_dead_read(keys),
        redrive_run(run, keys, policy, now_ms) == Some(done),
        all_read_back(done.redriven),
        all_dead_read_back(done.permanent),
        tells_what_is_there(s, run, policy, now_ms),
    ensures
        sound(done.state),
        tells_what_is_there(s, done, policy, now_ms),
    decreases keys.len(),
{
    if keys.len() > 0 {
        let step = redrive_step(run.state, keys[0], policy, now_ms)->0;
        let next = after_redrive(run, step);
        let rest = keys.drop_first();
        lemma_redrive_only_adds(next, rest, policy, now_ms, done);
        if step.redriven is Some {
            let n = run.redriven.len() as int;
            assert(next.redriven[n] == step.redriven->0);
            assert(reads_back(done.redriven[n]));
        }
        if step.permanent is Some {
            let n = run.permanent.len() as int;
            assert(next.permanent[n] == step.permanent->0);
            assert(dead_reads_back(done.permanent[n]));
        }
        assert(parsed_dead_key(keys[0].key) == Some(keys[0]));
        lemma_redrive_step_sound(run.state, keys[0], policy, now_ms);
        lemma_step_tells(s, run, keys[0], policy, now_ms, step);
        assert forall|i: int| 0 <= i < rest.len() implies parsed_dead_key((#[trigger] rest[i]).key)
            == Some(rest[i]) by {
            assert(rest[i] == keys[i + 1]);
        }
        lemma_run_tells(s, next, rest, policy, now_ms, done);
    }
}

/// Whether what is told of a redrive is what the store then holds. Each delivery that is told as
/// sent again was dead, had rested and had redrives left; it is live, as it is told, and dead no
/// more, with one redrive more and no attempt counted. Each that is told as given up stays dead and
/// must not come back, and is there as it is told for as long as the retention. No other live
/// delivery is touched.
pub open spec fn told_truly(
    s: StoreState,
    policy: RedrivePolicy,
    now_ms: u64,
    again: Seq<DeliveryView>,
    permanent: Seq<DeadView>,
    t: StoreState,
) -> bool {
    &&& forall|i: int|
        0 <= i < again.len() ==> {
            let c = #[trigger] again[i];
            &&& rightly_redriven(s, c, policy, now_ms)
            &&& is_written(live_at(t, c.delivery_id), c)
            &&& t.row(dead(), c.delivery_id) is None
            &&& c.attempt == 0 && c.not_before_ms == now_ms && c.lease_until_ms is None
            &&& c.redrive_count == (dead_at(s, c.delivery_id)->0).redrive_count + 1
            &&& c.redrive_count <= policy.max_redrives
        }
    &&& forall|i: int|
        0 <= i < permanent.len() ==> {
            let d = #[trigger] permanent[i];
            &&& rightly_given_up(s, d, policy, now_ms)
            &&& d.permanent && !d.replayable
            &&& suppressed(t, d.delivery_id)
            &&& d.dead_at_ms + TERMINAL_DEAD_RETENTION_MS > now_ms ==> dead_at(t, d.delivery_id)
                == Some(d)
        }
    &&& forall|id: Seq<char>|
        !was_redriven(again, id) ==> #[trigger] t.row(deliveries(), id) == s.row(deliveries(), id)
}

/// What is told of a redrive is what the store then holds, and no more is told than there were keys.
pub proof fn law_redrive_tells_what_is_there(
    s: StoreState,
    keys: Seq<DueView>,
    policy: RedrivePolicy,
    now_ms: u64,
    run: RedriveRun,
    t: StoreState,
)
    requires
        sound(s),
        all_dead_read(keys),
        redrive_run(redrive_start(s), keys, policy, now_ms) == Some(run),
        all_read_back(run.redriven),
        all_dead_read_back(run.permanent),
        after_compaction(run.state, now_ms, t),
    ensures
        told_truly(s, policy, now_ms, run.redriven, run.permanent, t),
        run.redriven.len() + run.permanent.len() <= keys.len(),
{
    let start = redrive_start(s);
    assert(tells_what_is_there(s, start, policy, now_ms)) by {
        reveal(tells_what_is_there);
    }
    lemma_redrive_only_adds(start, keys, policy, now_ms, run);
    lemma_run_tells(s, start, keys, policy, now_ms, run);
    reveal(tells_what_is_there);
    let count = choose|count: nat| #[trigger] compacted(run.state, now_ms, t, count);
    law_compaction_keeps(run.state, now_ms, t, count);
    assert forall|i: int| 0 <= i < run.redriven.len() implies ({
        let c = #[trigger] run.redriven[i];
        &&& rightly_redriven(s, c, policy, now_ms)
        &&& is_written(live_at(t, c.delivery_id), c)
        &&& t.row(dead(), c.delivery_id) is None
        &&& c.attempt == 0 && c.not_before_ms == now_ms && c.lease_until_ms is None
        &&& c.redrive_count == (dead_at(s, c.delivery_id)->0).redrive_count + 1
        &&& c.redrive_count <= policy.max_redrives
    }) by {
        let id = run.redriven[i].delivery_id;
        assert(t.row(deliveries(), id) == run.state.row(deliveries(), id));
        assert(t.row(dead(), id) is Some ==> t.row(dead(), id) == run.state.row(dead(), id));
    }
    assert forall|i: int| 0 <= i < run.permanent.len() implies ({
        let d = #[trigger] run.permanent[i];
        &&& rightly_given_up(s, d, policy, now_ms)
        &&& d.permanent && !d.replayable
        &&& suppressed(t, d.delivery_id)
        &&& d.dead_at_ms + TERMINAL_DEAD_RETENTION_MS > now_ms ==> dead_at(t, d.delivery_id)
            == Some(d)
    }) by {
        let d = run.permanent[i];
        let id = d.delivery_id;
        assert(sound_at(run.state, id));
        assert(is_terminal(d));
        assert(suppressed(run.state, id));
        if d.dead_at_ms + TERMINAL_DEAD_RETENTION_MS > now_ms {
            law_compaction_spares_the_recent(run.state, now_ms, t, count, id);
        }
    }
    assert forall|id: Seq<char>| !was_redriven(run.redriven, id) implies #[trigger] t.row(deliveries(), id)
        == s.row(deliveries(), id) by {
        assert(t.row(deliveries(), id) == run.state.row(deliveries(), id));
    }
}

} // verus!
