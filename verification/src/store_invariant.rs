//! What every operation of the delivery store keeps: no delivery is lost from the indexes by which
//! it is found again.

use vstd::prelude::*;
use crate::delivery_index::{
    dead_index_key, index_key, law_dead_index_key_parses, law_index_key_parses, parsed_dead_key,
    parsed_key, DueView,
};
use crate::delivery_scan::{due_among, due_keys, parsed_all};
use crate::delivery_types::{DeadView, DeliveryView, RedrivePolicy};
use crate::record_codec::{
    dead_bytes, dead_kept, dead_reads_back, delivery_bytes, kept, reads_back,
};
use crate::store_model::{
    acked, awaits_redrive, compaction_step, dead, dead_at, dead_due, deliveries, giving_up,
    is_terminal, law_suppression_holds, lease_step, leased, lemma_tables, live_at, marked_dirty,
    parsed_dead_all, ready, redrive_step, renewed, suppressed, suppressing, terminal, with_delivery,
    with_lease,
};
use crate::tables::StoreState;

verus! {

/// Where a live delivery is found again: by the end of its lease, or by the time from which it is
/// ready.
pub open spec fn place(d: DeliveryView, delivery_id: Seq<char>) -> (Seq<char>, Seq<char>) {
    match d.lease_until_ms {
        Some(until) => (leased(), index_key(d.dept, until, delivery_id)),
        None => (ready(), index_key(d.dept, d.not_before_ms, delivery_id)),
    }
}

pub open spec fn live_sound(s: StoreState, delivery_id: Seq<char>) -> bool {
    live_at(s, delivery_id) matches Some(d) ==> d.delivery_id == delivery_id && s.keys.contains(
        place(d, delivery_id),
    )
}

/// Whether every live delivery that can be read stands under its id.
pub open spec fn named(s: StoreState) -> bool {
    forall|id: Seq<char>| (#[trigger] live_at(s, id)) matches Some(d) ==> d.delivery_id == id
}

/// Every delivery of a sound store stands under its id.
pub proof fn law_a_sound_store_is_named(s: StoreState)
    requires
        sound(s),
    ensures
        named(s),
{
    assert forall|id: Seq<char>| (#[trigger] live_at(s, id)) is Some implies (live_at(
        s,
        id,
    )->0).delivery_id == id by {
        assert(sound_at(s, id));
    }
}

/// A dead delivery under its id, with a record of the same id where it has one.
pub open spec fn named_dead(d: DeadView, delivery_id: Seq<char>) -> bool {
    d.delivery_id == delivery_id && (d.record matches Some(r) ==> r.delivery_id == delivery_id)
}

pub open spec fn dead_sound(s: StoreState, delivery_id: Seq<char>) -> bool {
    dead_at(s, delivery_id) matches Some(d) ==> {
        let key = dead_index_key(d.dept, d.dead_at_ms, delivery_id);
        &&& named_dead(d, delivery_id)
        &&& awaits_redrive(d) ==> s.has_key(dead_due(), key)
        &&& is_terminal(d) ==> s.has_key(terminal(), key) && suppressed(s, delivery_id)
    }
}

/// A store in which every delivery stands under its id and is found again: a live one stands in the
/// index of those that are ready or of those that are leased; a dead one that waits to be sent again
/// stands in the index of those; a dead one that stays dead stands in the index from which it is
/// dropped in time, and its id is suppressed.
pub open spec fn sound(s: StoreState) -> bool {
    forall|id: Seq<char>| #[trigger] sound_at(s, id)
}

pub open spec fn sound_at(s: StoreState, delivery_id: Seq<char>) -> bool {
    live_sound(s, delivery_id) && dead_sound(s, delivery_id)
}

/// Whether a key of an index of live deliveries stands where it should: it names a delivery that is
/// there and, as far as that can be read, it is the place of that delivery.
pub open spec fn stands(s: StoreState, table: Seq<char>, key: Seq<char>) -> bool {
    parsed_key(key) matches Some(v) && s.row(deliveries(), v.delivery_id) is Some && (live_at(
        s,
        v.delivery_id,
    ) matches Some(d) ==> place(d, v.delivery_id) == (table, key))
}

/// A store without stray keys: a delivery that is live stands in the indexes of live deliveries once,
/// and nothing else does. The indexes of dead deliveries may hold the key of an earlier death, which
/// goes when it is looked at.
pub open spec fn tidy(s: StoreState) -> bool {
    forall|table: Seq<char>, key: Seq<char>|
        (table == ready() || table == leased()) && #[trigger] s.keys.contains((table, key))
            ==> stands(s, table, key)
}

/// Whether a store that is sound stays so, and stays without stray keys if it has none.
pub open spec fn stays_sound(s: StoreState, t: StoreState) -> bool {
    sound(s) ==> sound(t) && (tidy(s) ==> tidy(t))
}

/// Nothing changes of what live deliveries are found by, unless keys go.
pub proof fn lemma_tidy_same(s: StoreState, t: StoreState)
    requires
        forall|id: Seq<char>| #[trigger] t.row(deliveries(), id) == s.row(deliveries(), id),
        forall|table: Seq<char>, key: Seq<char>|
            (table == ready() || table == leased()) && #[trigger] t.keys.contains((table, key))
                ==> s.keys.contains((table, key)),
    ensures
        tidy(s) ==> tidy(t),
{
    if tidy(s) {
        assert forall|table: Seq<char>, key: Seq<char>|
            (table == ready() || table == leased()) && #[trigger] t.keys.contains(
                (table, key),
            ) implies stands(t, table, key) by {
            assert(s.keys.contains((table, key)));
            let id = (parsed_key(key)->0).delivery_id;
            assert(t.row(deliveries(), id) == s.row(deliveries(), id));
        }
    }
}

/// A delivery leaves the place where it was found, if it was found anywhere, and goes to another, if
/// it goes anywhere.
proof fn lemma_tidy_moved(
    s: StoreState,
    t: StoreState,
    id: Seq<char>,
    came: Option<(Seq<char>, Seq<char>)>,
)
    requires
        s.row(deliveries(), id) is Some ==> live_at(s, id) is Some,
        forall|other: Seq<char>|
            other != id ==> #[trigger] t.row(deliveries(), other) == s.row(deliveries(), other),
        forall|table: Seq<char>, key: Seq<char>|
            (table == ready() || table == leased()) && #[trigger] t.keys.contains((table, key))
                ==> came == Some((table, key)) || (s.keys.contains((table, key)) && (live_at(
                s,
                id,
            ) matches Some(d) ==> place(d, id) != (table, key))),
        came matches Some((table, key)) ==> (parsed_key(key) matches Some(v) && v.delivery_id == id)
            && t.row(deliveries(), id) is Some && (live_at(t, id) matches Some(e) ==> place(e, id)
            == (table, key)),
    ensures
        tidy(s) ==> tidy(t),
{
    if tidy(s) {
        assert forall|table: Seq<char>, key: Seq<char>|
            (table == ready() || table == leased()) && #[trigger] t.keys.contains(
                (table, key),
            ) implies stands(t, table, key) by {
            if came != Some((table, key)) {
                assert(s.keys.contains((table, key)));
                assert(stands(s, table, key));
                let named = (parsed_key(key)->0).delivery_id;
                assert(named != id);
                assert(t.row(deliveries(), named) == s.row(deliveries(), named));
            }
        }
    }
}

/// Whether a key of an index names a delivery.
pub open spec fn names(table: Seq<char>, key: Seq<char>, delivery_id: Seq<char>) -> bool {
    if table == ready() || table == leased() {
        parsed_key(key) matches Some(v) && v.delivery_id == delivery_id
    } else {
        parsed_dead_key(key) matches Some(v) && v.delivery_id == delivery_id
    }
}

/// Nothing that the soundness of other deliveries rests on is gone.
#[verifier::opaque]
pub open spec fn touches_only(s: StoreState, t: StoreState, delivery_id: Seq<char>) -> bool {
    &&& forall|id: Seq<char>|
        id != delivery_id ==> #[trigger] t.row(deliveries(), id) == s.row(deliveries(), id)
    &&& forall|id: Seq<char>| id != delivery_id ==> #[trigger] t.row(dead(), id) == s.row(dead(), id)
    &&& forall|table: Seq<char>, key: Seq<char>|
        s.keys.contains((table, key)) ==> #[trigger] t.keys.contains((table, key)) || names(
            table,
            key,
            delivery_id,
        )
    &&& forall|id: Seq<char>| #[trigger] suppressed(s, id) ==> suppressed(t, id)
}

/// Keys that say what is read from them.
pub open spec fn all_read(keys: Seq<DueView>) -> bool {
    forall|i: int| 0 <= i < keys.len() ==> parsed_key((#[trigger] keys[i]).key) == Some(keys[i])
}

/// Keys of dead deliveries that say what is read from them.
pub open spec fn all_dead_read(keys: Seq<DueView>) -> bool {
    forall|i: int|
        0 <= i < keys.len() ==> parsed_dead_key((#[trigger] keys[i]).key) == Some(keys[i])
}

proof fn lemma_parsed_all_read(list: Seq<Seq<char>>)
    ensures
        parsed_all(list) matches Some(keys) ==> all_read(keys),
    decreases list.len(),
{
    if list.len() > 0 {
        lemma_parsed_all_read(list.drop_last());
    }
}

proof fn lemma_due_among_read(list: Seq<Seq<char>>, now_ms: u64, limit: nat)
    ensures
        due_among(list, now_ms, limit) matches Some(keys) ==> all_read(keys),
    decreases list.len(),
{
    if list.len() > 0 {
        lemma_due_among_read(list.drop_last(), now_ms, limit);
    }
}

/// The keys that are found in an index say what is read from them.
pub proof fn lemma_due_keys_read(
    found: Seq<DueView>,
    keys: Set<(Seq<char>, Seq<char>)>,
    table: Seq<char>,
    dept: Option<Seq<char>>,
    now_ms: u64,
    limit: nat,
)
    requires
        due_keys(found, keys, table, dept, now_ms, limit),
    ensures
        all_read(found),
{
    if limit > 0 {
        match dept {
            Some(d) => {
                let list = choose|list: Seq<Seq<char>>| #[trigger]
                    crate::delivery_scan::first_keys(
                        list,
                        keys,
                        table,
                        crate::delivery_index::due_range_start(d),
                        crate::delivery_index::due_range_end(d, now_ms),
                        limit,
                    ) && parsed_all(list) == Some(found);
                lemma_parsed_all_read(list);
            },
            None => {
                let list = choose|list: Seq<Seq<char>>| #[trigger]
                    crate::tables::lists_keys(list, keys, table) && due_among(list, now_ms, limit)
                        == Some(found);
                lemma_due_among_read(list, now_ms, limit);
            },
        }
    }
}

pub proof fn lemma_parsed_dead_read(list: Seq<Seq<char>>)
    ensures
        parsed_dead_all(list) matches Some(keys) ==> all_dead_read(keys),
    decreases list.len(),
{
    if list.len() > 0 {
        lemma_parsed_dead_read(list.drop_last());
    }
}

proof fn lemma_suppressed_by_texts(s: StoreState, t: StoreState, id: Seq<char>, offset: nat)
    requires
        s.texts == t.texts,
    ensures
        crate::store_model::found_from(s, id, offset) == crate::store_model::found_from(
            t,
            id,
            offset,
        ),
    decreases crate::store_model::TERMINAL_SUPPRESSION_SLOTS - offset,
{
    if offset < crate::store_model::TERMINAL_SUPPRESSION_SLOTS {
        lemma_suppressed_by_texts(s, t, id, offset + 1);
    }
}

/// Suppression rests on the texts alone.
pub proof fn lemma_suppressed_same(s: StoreState, t: StoreState)
    requires
        s.texts == t.texts,
    ensures
        forall|id: Seq<char>| #[trigger] suppressed(s, id) == suppressed(t, id),
{
    assert forall|id: Seq<char>| #[trigger] suppressed(s, id) == suppressed(t, id) by {
        lemma_suppressed_by_texts(s, t, id, 0);
    }
}

proof fn lemma_touch_row(s: StoreState, table: Seq<char>, id: Seq<char>, value: Seq<u8>)
    ensures
        touches_only(s, s.with_row(table, id, value), id),
        touches_only(s, s.without_row(table, id), id),
{
    reveal(touches_only);
    lemma_suppressed_same(s, s.with_row(table, id, value));
    lemma_suppressed_same(s, s.without_row(table, id));
}

proof fn lemma_touch_with_key(s: StoreState, table: Seq<char>, key: Seq<char>, id: Seq<char>)
    ensures
        touches_only(s, s.with_key(table, key), id),
{
    reveal(touches_only);
    lemma_suppressed_same(s, s.with_key(table, key));
}

proof fn lemma_touch_without_key(s: StoreState, table: Seq<char>, key: Seq<char>, id: Seq<char>)
    requires
        names(table, key, id),
    ensures
        touches_only(s, s.without_key(table, key), id),
{
    reveal(touches_only);
    lemma_suppressed_same(s, s.without_key(table, key));
}

proof fn lemma_touch_suppressing(s: StoreState, id: Seq<char>)
    requires
        suppressing(s, id) is Some,
    ensures
        touches_only(s, suppressing(s, id)->0, id),
{
    reveal(touches_only);
    law_suppression_holds(s, id);
}

proof fn lemma_touch_chain(s: StoreState, t: StoreState, u: StoreState, id: Seq<char>)
    requires
        touches_only(s, t, id),
        touches_only(t, u, id),
    ensures
        touches_only(s, u, id),
{
    reveal(touches_only);
}

/// A store stays sound where one delivery is touched and left sound.
proof fn lemma_sound_after_touch(s: StoreState, t: StoreState, id: Seq<char>)
    requires
        sound(s),
        touches_only(s, t, id),
        sound_at(t, id),
    ensures
        sound(t),
{
    reveal(touches_only);
    lemma_tables();
    assert forall|other: Seq<char>| #[trigger] sound_at(t, other) by {
        if other != id {
            assert(sound_at(s, other));
            assert(t.row(deliveries(), other) == s.row(deliveries(), other));
            assert(t.row(dead(), other) == s.row(dead(), other));
            match live_at(s, other) {
                Some(d) => {
                    let (table, key) = place(d, other);
                    law_index_key_parses(d.dept, d.not_before_ms, other);
                    match d.lease_until_ms {
                        Some(until) => {
                            law_index_key_parses(d.dept, until, other);
                        },
                        None => {},
                    }
                    assert(s.keys.contains((table, key)));
                    assert(t.keys.contains((table, key)));
                },
                None => {},
            }
            match dead_at(s, other) {
                Some(d) => {
                    let key = dead_index_key(d.dept, d.dead_at_ms, other);
                    law_dead_index_key_parses(d.dept, d.dead_at_ms, other);
                    if awaits_redrive(d) {
                        assert(s.keys.contains((dead_due(), key)));
                        assert(t.keys.contains((dead_due(), key)));
                    }
                    if is_terminal(d) {
                        assert(s.keys.contains((terminal(), key)));
                        assert(t.keys.contains((terminal(), key)));
                        assert(suppressed(s, other));
                    }
                },
                None => {},
            }
        }
    }
}

/// Putting in a delivery keeps a store sound.
pub proof fn lemma_enqueue_sound(s: StoreState, d: DeliveryView)
    requires
        sound(s),
        s.row(deliveries(), d.delivery_id) is None,
        d.lease_until_ms is None,
        reads_back(d),
    ensures
        sound(with_delivery(s, d)),
        tidy(s) ==> tidy(with_delivery(s, d)),
{
    let id = d.delivery_id;
    let mid = s.with_row(deliveries(), id, delivery_bytes(d));
    let key = index_key(d.dept, d.not_before_ms, id);
    let t = mid.with_key(ready(), key);
    lemma_tables();
    lemma_touch_row(s, deliveries(), id, delivery_bytes(d));
    lemma_touch_with_key(mid, ready(), key, id);
    lemma_touch_chain(s, mid, t, id);
    lemma_suppressed_same(s, t);
    assert(sound_at(s, id));
    assert(t.row(dead(), id) == s.row(dead(), id));
    assert(live_at(t, id) matches Some(e) ==> kept(e, d));
    lemma_sound_after_touch(s, t, id);
    law_index_key_parses(d.dept, d.not_before_ms, id);
    lemma_tidy_moved(s, t, id, Some((ready(), key)));
}

/// Marking a leased delivery keeps a store sound.
pub proof fn lemma_mark_sound(s: StoreState, id: Seq<char>, d: DeliveryView)
    requires
        sound(s),
        live_at(s, id) == Some(d),
        reads_back(marked_dirty(d)),
    ensures
        sound(s.with_row(deliveries(), id, delivery_bytes(marked_dirty(d)))),
        tidy(s) ==> tidy(s.with_row(deliveries(), id, delivery_bytes(marked_dirty(d)))),
{
    lemma_tables();
    let new = marked_dirty(d);
    let t = s.with_row(deliveries(), id, delivery_bytes(new));
    assert(sound_at(s, id));
    lemma_touch_row(s, deliveries(), id, delivery_bytes(new));
    lemma_suppressed_same(s, t);
    assert(t.row(dead(), id) == s.row(dead(), id));
    assert(live_at(t, id) matches Some(e) ==> kept(e, new));
    assert(place(new, id) == place(d, id));
    lemma_sound_after_touch(s, t, id);
    lemma_place_names(d, id);
    lemma_tidy_moved(s, t, id, Some(place(d, id)));
}

/// The place of a delivery names it.
pub proof fn lemma_place_names(d: DeliveryView, id: Seq<char>)
    ensures
        parsed_key(place(d, id).1) matches Some(v) && v.delivery_id == id,
{
    law_index_key_parses(d.dept, d.not_before_ms, id);
    match d.lease_until_ms {
        Some(until) => law_index_key_parses(d.dept, until, id),
        None => {},
    }
}

/// One key on the way to a lease keeps a store sound.
pub proof fn lemma_lease_step_sound(
    s: StoreState,
    key: DueView,
    now_ms: u64,
    until_ms: u64,
    dept: Option<Seq<char>>,
    excluded: Seq<Seq<char>>,
    expired: bool,
)
    requires
        sound(s),
        parsed_key(key.key) == Some(key),
        lease_step(s, key, now_ms, until_ms, dept, excluded, expired) matches Some(step) ==> (
        step.record matches Some(d) ==> reads_back(d)),
    ensures
        lease_step(s, key, now_ms, until_ms, dept, excluded, expired) matches Some(step) ==> sound(
            step.state,
        ),
        lease_step(s, key, now_ms, until_ms, dept, excluded, expired) matches Some(step) ==> (
        expired || s.has_key(ready(), key.key)) && tidy(s) ==> tidy(step.state),
{
    reveal(lease_step);
    lemma_tables();
    let id = key.delivery_id;
    let table = if expired {
        leased()
    } else {
        ready()
    };
    let unindexed = s.without_key(table, key.key);
    lemma_touch_without_key(s, table, key.key, id);
    lemma_suppressed_same(s, unindexed);
    assert(sound_at(s, id));
    assert(unindexed.row(dead(), id) == s.row(dead(), id));
    assert(dead_sound(unindexed, id));
    if !excluded.contains(id) {
        match live_at(s, id) {
            None => {
                if s.row(deliveries(), id) is None {
                    assert(live_at(unindexed, id) is None);
                    lemma_sound_after_touch(s, unindexed, id);
                    lemma_tidy_same(s, unindexed);
                }
            },
            Some(d) => {
                lemma_place_names(d, id);
                law_index_key_parses(d.dept, d.not_before_ms, id);
                if d.lease_until_ms is Some {
                    law_index_key_parses(d.dept, d.lease_until_ms->0, id);
                }
                if dept matches Some(wanted) && d.dept != wanted {
                } else if (expired && d.lease_until_ms != Some(key.due_ms)) || (!expired
                    && d.lease_until_ms is Some) {
                    assert(live_at(unindexed, id) == Some(d));
                    assert(unindexed.keys.contains(place(d, id)));
                    lemma_sound_after_touch(s, unindexed, id);
                    lemma_tidy_same(s, unindexed);
                } else if d.not_before_ms > now_ms && !expired {
                    let own = index_key(d.dept, d.not_before_ms, id);
                    let t = unindexed.with_key(ready(), own);
                    lemma_touch_with_key(unindexed, ready(), own, id);
                    lemma_touch_chain(s, unindexed, t, id);
                    lemma_suppressed_same(s, t);
                    assert(t.row(dead(), id) == s.row(dead(), id));
                    assert(live_at(t, id) == Some(d));
                    lemma_sound_after_touch(s, t, id);
                    lemma_tidy_moved(s, t, id, Some((ready(), own)));
                } else {
                    let unleased = match d.lease_until_ms {
                        Some(old) => unindexed.without_key(leased(), index_key(d.dept, old, id)),
                        None => unindexed,
                    };
                    match d.lease_until_ms {
                        Some(old) => {
                            lemma_touch_without_key(
                                unindexed,
                                leased(),
                                index_key(d.dept, old, id),
                                id,
                            );
                            lemma_touch_chain(s, unindexed, unleased, id);
                        },
                        None => {},
                    }
                    let new = with_lease(d, until_ms);
                    let mid = unleased.with_row(deliveries(), id, delivery_bytes(new));
                    let t = mid.with_key(leased(), index_key(d.dept, until_ms, id));
                    lemma_touch_row(unleased, deliveries(), id, delivery_bytes(new));
                    lemma_touch_chain(s, unleased, mid, id);
                    lemma_touch_with_key(mid, leased(), index_key(d.dept, until_ms, id), id);
                    lemma_touch_chain(s, mid, t, id);
                    lemma_suppressed_same(s, t);
                    assert(t.row(dead(), id) == s.row(dead(), id));
                    assert(live_at(t, id) matches Some(e) ==> kept(e, new));
                    lemma_sound_after_touch(s, t, id);
                    law_index_key_parses(d.dept, until_ms, id);
                    if (expired || s.has_key(ready(), key.key)) && tidy(s) {
                        if !expired {
                            assert(stands(s, ready(), key.key));
                            assert(place(d, id) == (ready(), key.key));
                        }
                        lemma_tidy_moved(
                            s,
                            t,
                            id,
                            Some((leased(), index_key(d.dept, until_ms, id))),
                        );
                    }
                }
            },
        }
    }
}

/// Leasing a delivery that is ready keeps a store sound.
pub proof fn lemma_lease_ready_sound(s: StoreState, id: Seq<char>, d: DeliveryView, until_ms: u64)
    requires
        sound(s),
        live_at(s, id) == Some(d),
        d.lease_until_ms is None,
        reads_back(with_lease(d, until_ms)),
    ensures
        ({
            let t = s.without_key(ready(), index_key(d.dept, d.not_before_ms, id)).with_row(
                deliveries(),
                id,
                delivery_bytes(with_lease(d, until_ms)),
            ).with_key(leased(), index_key(d.dept, until_ms, id));
            sound(t) && (tidy(s) ==> tidy(t))
        }),
{
    lemma_tables();
    let new = with_lease(d, until_ms);
    let old_key = index_key(d.dept, d.not_before_ms, id);
    let a = s.without_key(ready(), old_key);
    let b = a.with_row(deliveries(), id, delivery_bytes(new));
    let t = b.with_key(leased(), index_key(d.dept, until_ms, id));
    assert(sound_at(s, id));
    law_index_key_parses(d.dept, d.not_before_ms, id);
    lemma_touch_without_key(s, ready(), old_key, id);
    lemma_touch_row(a, deliveries(), id, delivery_bytes(new));
    lemma_touch_chain(s, a, b, id);
    lemma_touch_with_key(b, leased(), index_key(d.dept, until_ms, id), id);
    lemma_touch_chain(s, b, t, id);
    lemma_suppressed_same(s, t);
    assert(t.row(dead(), id) == s.row(dead(), id));
    assert(live_at(t, id) matches Some(e) ==> kept(e, new));
    lemma_sound_after_touch(s, t, id);
    law_index_key_parses(d.dept, until_ms, id);
    lemma_tidy_moved(s, t, id, Some((leased(), index_key(d.dept, until_ms, id))));
}

/// Renewing a lease keeps a store sound.
pub proof fn lemma_renew_sound(s: StoreState, id: Seq<char>, d: DeliveryView, until_ms: u64)
    requires
        sound(s),
        live_at(s, id) == Some(d),
        d.lease_until_ms is Some,
        ({
            let new = DeliveryView { lease_until_ms: Some(until_ms), ..d };
            reads_back(new)
        }),
    ensures
        sound(renewed(s, id, d, until_ms)),
        tidy(s) ==> tidy(renewed(s, id, d, until_ms)),
{
    lemma_tables();
    let new = DeliveryView { lease_until_ms: Some(until_ms), ..d };
    let old_key = index_key(d.dept, d.lease_until_ms->0, id);
    let a = s.without_key(leased(), old_key);
    let b = a.with_row(deliveries(), id, delivery_bytes(new));
    let t = b.with_key(leased(), index_key(d.dept, until_ms, id));
    assert(sound_at(s, id));
    law_index_key_parses(d.dept, d.lease_until_ms->0, id);
    lemma_touch_without_key(s, leased(), old_key, id);
    lemma_touch_row(a, deliveries(), id, delivery_bytes(new));
    lemma_touch_chain(s, a, b, id);
    lemma_touch_with_key(b, leased(), index_key(d.dept, until_ms, id), id);
    lemma_touch_chain(s, b, t, id);
    lemma_suppressed_same(s, t);
    assert(t.row(dead(), id) == s.row(dead(), id));
    assert(live_at(t, id) matches Some(e) ==> kept(e, new));
    lemma_sound_after_touch(s, t, id);
    law_index_key_parses(d.dept, until_ms, id);
    lemma_tidy_moved(s, t, id, Some((leased(), index_key(d.dept, until_ms, id))));
}

/// Finishing a delivery keeps a store sound.
pub proof fn lemma_ack_sound(s: StoreState, id: Seq<char>, d: DeliveryView)
    requires
        sound(s),
        live_at(s, id) == Some(d),
        d.lease_until_ms is Some,
    ensures
        sound(acked(s, id, d)),
        tidy(s) ==> tidy(acked(s, id, d)),
{
    lemma_tables();
    let old_key = index_key(d.dept, d.lease_until_ms->0, id);
    let a = s.without_key(leased(), old_key);
    let t = a.without_row(deliveries(), id);
    assert(sound_at(s, id));
    law_index_key_parses(d.dept, d.lease_until_ms->0, id);
    lemma_touch_without_key(s, leased(), old_key, id);
    lemma_touch_row(a, deliveries(), id, Seq::empty());
    lemma_touch_chain(s, a, t, id);
    lemma_suppressed_same(s, t);
    assert(t.row(dead(), id) == s.row(dead(), id));
    assert(live_at(t, id) is None);
    lemma_sound_after_touch(s, t, id);
    lemma_tidy_moved(s, t, id, None);
}

/// Putting a delivery off keeps a store sound.
pub proof fn lemma_reschedule_sound(s: StoreState, id: Seq<char>, d: DeliveryView, new: DeliveryView)
    requires
        sound(s),
        live_at(s, id) == Some(d),
        d.lease_until_ms is Some,
        new.lease_until_ms is None,
        new.dept == d.dept,
        new.delivery_id == d.delivery_id,
        reads_back(new),
    ensures
        ({
            let t = s.without_key(leased(), index_key(d.dept, d.lease_until_ms->0, id)).with_row(
                deliveries(),
                id,
                delivery_bytes(new),
            ).with_key(ready(), index_key(d.dept, new.not_before_ms, id));
            sound(t) && (tidy(s) ==> tidy(t))
        }),
{
    lemma_tables();
    let old_key = index_key(d.dept, d.lease_until_ms->0, id);
    let a = s.without_key(leased(), old_key);
    let b = a.with_row(deliveries(), id, delivery_bytes(new));
    let t = b.with_key(ready(), index_key(d.dept, new.not_before_ms, id));
    assert(sound_at(s, id));
    law_index_key_parses(d.dept, d.lease_until_ms->0, id);
    lemma_touch_without_key(s, leased(), old_key, id);
    lemma_touch_row(a, deliveries(), id, delivery_bytes(new));
    lemma_touch_chain(s, a, b, id);
    lemma_touch_with_key(b, ready(), index_key(d.dept, new.not_before_ms, id), id);
    lemma_touch_chain(s, b, t, id);
    lemma_suppressed_same(s, t);
    assert(t.row(dead(), id) == s.row(dead(), id));
    assert(live_at(t, id) matches Some(e) ==> kept(e, new));
    lemma_sound_after_touch(s, t, id);
    law_index_key_parses(d.dept, new.not_before_ms, id);
    lemma_tidy_moved(s, t, id, Some((ready(), index_key(d.dept, new.not_before_ms, id))));
}

/// Burying a delivery keeps a store sound.
pub proof fn lemma_bury_sound(s: StoreState, id: Seq<char>, d: DeliveryView, buried: DeadView)
    requires
        sound(s),
        live_at(s, id) == Some(d),
        d.lease_until_ms is Some,
        buried.dept == d.dept,
        named_dead(buried, d.delivery_id),
        dead_reads_back(buried),
        buried.permanent == !buried.replayable,
    ensures
        ({
            let tombstone = s.without_key(
                leased(),
                index_key(d.dept, d.lease_until_ms->0, id),
            ).with_row(dead(), id, dead_bytes(buried));
            let key = dead_index_key(d.dept, buried.dead_at_ms, id);
            if buried.replayable {
                let t = tombstone.with_key(dead_due(), key).without_row(deliveries(), id);
                sound(t) && (tidy(s) ==> tidy(t))
            } else {
                suppressing(tombstone.with_key(terminal(), key), id) matches Some(t) ==> sound(
                    t.without_row(deliveries(), id),
                ) && (tidy(s) ==> tidy(t.without_row(deliveries(), id)))
            }
        }),
{
    lemma_tables();
    let old_key = index_key(d.dept, d.lease_until_ms->0, id);
    let key = dead_index_key(d.dept, buried.dead_at_ms, id);
    let a = s.without_key(leased(), old_key);
    let b = a.with_row(dead(), id, dead_bytes(buried));
    assert(sound_at(s, id));
    law_index_key_parses(d.dept, d.lease_until_ms->0, id);
    lemma_touch_without_key(s, leased(), old_key, id);
    lemma_touch_row(a, dead(), id, dead_bytes(buried));
    lemma_touch_chain(s, a, b, id);
    if buried.replayable {
        let c = b.with_key(dead_due(), key);
        let t = c.without_row(deliveries(), id);
        lemma_touch_with_key(b, dead_due(), key, id);
        lemma_touch_chain(s, b, c, id);
        lemma_touch_row(c, deliveries(), id, Seq::empty());
        lemma_touch_chain(s, c, t, id);
        assert(live_at(t, id) is None);
        assert(dead_at(t, id) matches Some(e) ==> dead_kept(e, buried));
        lemma_sound_after_touch(s, t, id);
        lemma_tidy_moved(s, t, id, None);
    } else {
        let c = b.with_key(terminal(), key);
        lemma_touch_with_key(b, terminal(), key, id);
        lemma_touch_chain(s, b, c, id);
        if suppressing(c, id) is Some {
            let e = suppressing(c, id)->0;
            lemma_touch_suppressing(c, id);
            lemma_touch_chain(s, c, e, id);
            law_suppression_holds(c, id);
            let t = e.without_row(deliveries(), id);
            lemma_touch_row(e, deliveries(), id, Seq::empty());
            lemma_touch_chain(s, e, t, id);
            lemma_suppressed_same(e, t);
            assert(live_at(t, id) is None);
            assert(t.row(dead(), id) == b.row(dead(), id));
            assert(dead_at(t, id) matches Some(x) ==> dead_kept(x, buried));
            lemma_sound_after_touch(s, t, id);
            lemma_tidy_moved(s, t, id, None);
        }
    }
}

/// Looking at one key of a dead delivery that stays dead keeps a store sound.
pub proof fn lemma_compaction_step_sound(s: StoreState, key: DueView, cutoff_ms: u64)
    requires
        sound(s),
        parsed_dead_key(key.key) == Some(key),
    ensures
        compaction_step(s, key, cutoff_ms) matches Some(Some(t)) ==> sound(t) && (tidy(s) ==> tidy(
            t,
        )),
{
    reveal(compaction_step);
    lemma_tables();
    let id = key.delivery_id;
    let unindexed = s.without_key(terminal(), key.key);
    lemma_touch_without_key(s, terminal(), key.key, id);
    lemma_suppressed_same(s, unindexed);
    assert(sound_at(s, id));
    assert(unindexed.row(deliveries(), id) == s.row(deliveries(), id));
    assert(unindexed.row(dead(), id) == s.row(dead(), id));
    assert(live_sound(unindexed, id)) by {
        match live_at(s, id) {
            Some(d) => {
                assert(s.keys.contains(place(d, id)));
            },
            None => {},
        }
    }
    match dead_at(s, id) {
        None => {
            lemma_sound_after_touch(s, unindexed, id);
            lemma_tidy_same(s, unindexed);
        },
        Some(d) => {
            let own = dead_index_key(d.dept, d.dead_at_ms, id);
            law_dead_index_key_parses(d.dept, d.dead_at_ms, id);
            if d.dead_at_ms != key.due_ms || !is_terminal(d) {
                if is_terminal(d) {
                    let b = unindexed.with_key(terminal(), own);
                    lemma_touch_with_key(unindexed, terminal(), own, id);
                    lemma_touch_chain(s, unindexed, b, id);
                    if suppressing(b, id) is Some {
                        let t = suppressing(b, id)->0;
                        lemma_touch_suppressing(b, id);
                        lemma_touch_chain(s, b, t, id);
                        law_suppression_holds(b, id);
                        assert(t.row(deliveries(), id) == s.row(deliveries(), id));
                        assert(t.row(dead(), id) == s.row(dead(), id));
                        lemma_sound_after_touch(s, t, id);
                        lemma_tidy_same(s, t);
                    }
                } else {
                    lemma_sound_after_touch(s, unindexed, id);
                    lemma_tidy_same(s, unindexed);
                }
            } else if d.dead_at_ms <= cutoff_ms {
                let a = s.without_row(dead(), id);
                let b = a.without_key(terminal(), key.key);
                let t = b.without_key(dead_due(), own);
                lemma_touch_row(s, dead(), id, Seq::empty());
                lemma_touch_without_key(a, terminal(), key.key, id);
                lemma_touch_chain(s, a, b, id);
                lemma_touch_without_key(b, dead_due(), own, id);
                lemma_touch_chain(s, b, t, id);
                assert(t.row(deliveries(), id) == s.row(deliveries(), id));
                assert(dead_at(t, id) is None);
                match live_at(s, id) {
                    Some(live) => {
                        assert(s.keys.contains(place(live, id)));
                        assert(t.keys.contains(place(live, id)));
                    },
                    None => {},
                }
                lemma_sound_after_touch(s, t, id);
                lemma_tidy_same(s, t);
            }
        },
    }
}

/// Giving up a dead delivery keeps a store sound.
proof fn lemma_giving_up_sound(s: StoreState, key: DueView, d: DeadView)
    requires
        sound(s),
        parsed_dead_key(key.key) == Some(key),
        is_terminal(d),
        !awaits_redrive(d),
        named_dead(d, key.delivery_id),
        dead_reads_back(d),
    ensures
        giving_up(s, key, d) matches Some(step) ==> sound(step.state) && (tidy(s) ==> tidy(
            step.state,
        )),
{
    lemma_tables();
    let id = key.delivery_id;
    let own = dead_index_key(d.dept, d.dead_at_ms, id);
    let a = s.without_key(dead_due(), key.key);
    let b = a.with_row(dead(), id, dead_bytes(d));
    let c = b.with_key(terminal(), own);
    assert(sound_at(s, id));
    lemma_touch_without_key(s, dead_due(), key.key, id);
    lemma_touch_row(a, dead(), id, dead_bytes(d));
    lemma_touch_chain(s, a, b, id);
    lemma_touch_with_key(b, terminal(), own, id);
    lemma_touch_chain(s, b, c, id);
    if suppressing(c, id) is Some {
        let t = suppressing(c, id)->0;
        lemma_touch_suppressing(c, id);
        lemma_touch_chain(s, c, t, id);
        law_suppression_holds(c, id);
        assert(t.row(deliveries(), id) == s.row(deliveries(), id));
        assert(t.row(dead(), id) == Some(dead_bytes(d)));
        match live_at(s, id) {
            Some(live) => {
                assert(s.keys.contains(place(live, id)));
                assert(t.keys.contains(place(live, id)));
            },
            None => {},
        }
        lemma_sound_after_touch(s, t, id);
        lemma_tidy_same(s, t);
    }
}

/// One key of a dead delivery keeps a store sound.
pub proof fn lemma_redrive_step_sound(
    s: StoreState,
    key: DueView,
    policy: RedrivePolicy,
    now_ms: u64,
)
    requires
        sound(s),
        parsed_dead_key(key.key) == Some(key),
        redrive_step(s, key, policy, now_ms) matches Some(step) ==> (step.redriven matches Some(d)
            ==> reads_back(d)),
        redrive_step(s, key, policy, now_ms) matches Some(step) ==> (step.permanent matches Some(d)
            ==> dead_reads_back(d)),
    ensures
        redrive_step(s, key, policy, now_ms) matches Some(step) ==> sound(step.state) && (tidy(s)
            ==> tidy(step.state)),
{
    reveal(redrive_step);
    lemma_tables();
    let id = key.delivery_id;
    let unindexed = s.without_key(dead_due(), key.key);
    lemma_touch_without_key(s, dead_due(), key.key, id);
    lemma_suppressed_same(s, unindexed);
    assert(sound_at(s, id));
    assert(unindexed.row(deliveries(), id) == s.row(deliveries(), id));
    assert(unindexed.row(dead(), id) == s.row(dead(), id));
    assert(live_sound(unindexed, id)) by {
        match live_at(s, id) {
            Some(d) => {
                assert(s.keys.contains(place(d, id)));
            },
            None => {},
        }
    }
    if redrive_step(s, key, policy, now_ms) is Some {
        let step = redrive_step(s, key, policy, now_ms)->0;
        match dead_at(s, id) {
            None => {
                lemma_sound_after_touch(s, unindexed, id);
                lemma_tidy_same(s, unindexed);
            },
            Some(d) => {
                let own = dead_index_key(d.dept, d.dead_at_ms, id);
                law_dead_index_key_parses(d.dept, d.dead_at_ms, id);
                if d.dead_at_ms != key.due_ms {
                    if awaits_redrive(d) {
                        let t = unindexed.with_key(dead_due(), own);
                        lemma_touch_with_key(unindexed, dead_due(), own, id);
                        lemma_touch_chain(s, unindexed, t, id);
                        lemma_suppressed_same(s, t);
                        assert(t.row(deliveries(), id) == s.row(deliveries(), id));
                        assert(t.row(dead(), id) == s.row(dead(), id));
                        lemma_sound_after_touch(s, t, id);
                        lemma_tidy_same(s, t);
                    } else {
                        lemma_sound_after_touch(s, unindexed, id);
                lemma_tidy_same(s, unindexed);
                    }
                } else if !step.mutated {
                } else if step.permanent is Some {
                    lemma_giving_up_sound(s, key, step.permanent->0);
                } else if step.redriven is Some {
                    let record = step.redriven->0;
                    let a = unindexed.with_row(deliveries(), id, delivery_bytes(record));
                    let b = a.with_key(ready(), index_key(record.dept, now_ms, id));
                    let t = b.without_row(dead(), id);
                    lemma_touch_row(unindexed, deliveries(), id, delivery_bytes(record));
                    lemma_touch_chain(s, unindexed, a, id);
                    lemma_touch_with_key(a, ready(), index_key(record.dept, now_ms, id), id);
                    lemma_touch_chain(s, a, b, id);
                    lemma_touch_row(b, dead(), id, Seq::empty());
                    lemma_touch_chain(s, b, t, id);
                    assert(live_at(t, id) matches Some(e) ==> kept(e, record));
                    assert(dead_at(t, id) is None);
                    lemma_sound_after_touch(s, t, id);
                    law_index_key_parses(record.dept, now_ms, id);
                    lemma_tidy_moved(
                        s,
                        t,
                        id,
                        Some((ready(), index_key(record.dept, now_ms, id))),
                    );
                } else {
                    lemma_sound_after_touch(s, unindexed, id);
                lemma_tidy_same(s, unindexed);
                }
            },
        }
    }
}

/// In a store without stray keys, a key of a live delivery is its place, and no key names a delivery
/// that is not there.
pub proof fn law_a_live_delivery_has_one_key(
    s: StoreState,
    id: Seq<char>,
    table: Seq<char>,
    key: Seq<char>,
)
    requires
        tidy(s),
        table == ready() || table == leased(),
        s.keys.contains((table, key)),
        parsed_key(key) matches Some(v) && v.delivery_id == id,
    ensures
        s.row(deliveries(), id) is Some,
        live_at(s, id) matches Some(d) ==> (table, key) == place(d, id),
{
    assert(stands(s, table, key));
}

} // verus!
