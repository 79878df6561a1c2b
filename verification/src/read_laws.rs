//! Laws of reading the store: what stands under an id, what is due and what goes first.

use vstd::prelude::*;
use vstd::string::*;
use vstd::utf8::encode_utf8;
use crate::delivery_index::{
    byte_code, bytes_code, dead_index_key, due_range_end, due_range_start, encoded_part, index_key,
    law_due_range, law_due_range_is_of_dept, law_index_key_parses, lemma_encoded_part,
    lemma_front_of_key, ordinary_id, parsed_dead_key, parsed_key, time_code, DueView,
};
use crate::delivery_reads::{
    dead_among, due_ready, goes_first, live_among, named_deliveries, worth_redrive,
};
use crate::delivery_scan::{between, due_among, due_for_all, due_keys, first_keys, parsed_all};
use crate::delivery_types::DeliveryView;
use crate::order::{
    lemma_less_common_front, lemma_less_irreflexive, lemma_less_total, lemma_less_transitive,
    text_less,
};
use crate::store_model::{
    conflicts, cooled_down, corrupt, dead, dead_at, dead_range_end, dead_range_start, deliveries,
    live_at, parsed_dead_all, ready,
};
use crate::tables::{lists_keys, StoreState};

verus! {

/// A reader finds under an id what a writer finds there.
pub proof fn law_readers_find_what_writers_find(s: StoreState, id: Seq<char>)
    ensures
        live_among(s.rows, id) == live_at(s, id),
        dead_among(s.rows, id) == dead_at(s, id),
        corrupt(s, id) <==> s.rows.contains_key((deliveries(), id)) && live_among(s.rows, id)
            is None,
{
}

/// A delivery conflicts with one that is there under its id where the two differ in what they say,
/// unless one of them may stand for the other; a delivery that comes again as it is never does.
pub proof fn law_what_conflicts(s: StoreState, d: DeliveryView, there: DeliveryView)
    requires
        live_at(s, d.delivery_id) == Some(there),
        there.delivery_id == d.delivery_id,
    ensures
        there.collapse_by_dedup_id || d.collapse_by_dedup_id ==> !conflicts(s, d),
        !there.collapse_by_dedup_id && !d.collapse_by_dedup_id ==> (conflicts(s, d) <==> there.queue
            != d.queue || there.dept != d.dept || there.payload != d.payload || there.source
            != d.source || there.cron_payload != d.cron_payload),
        there == d ==> !conflicts(s, d),
{
}

/// Nothing conflicts with a delivery that is not there.
pub proof fn law_nothing_conflicts_with_nothing(s: StoreState, d: DeliveryView)
    requires
        live_at(s, d.delivery_id) is None,
    ensures
        !conflicts(s, d),
{
}

/// What goes first is what may start earlier; of deliveries that may start at one time the names
/// decide, and of two that differ in any of these one goes first.
pub proof fn law_what_goes_first(a: DeliveryView, b: DeliveryView, c: DeliveryView)
    ensures
        a.not_before_ms < b.not_before_ms ==> goes_first(a, b),
        !goes_first(a, a),
        !(goes_first(a, b) && goes_first(b, a)),
        goes_first(a, b) && goes_first(b, c) ==> goes_first(a, c),
        goes_first(a, b) || goes_first(b, a) || (a.not_before_ms == b.not_before_ms && a.queue
            == b.queue && a.dept == b.dept && a.delivery_id == b.delivery_id),
        a.not_before_ms == b.not_before_ms && a.queue == b.queue && a.dept == b.dept ==> goes_first(
            a,
            b,
        ) == text_less(a.delivery_id, b.delivery_id),
{
    lemma_less_total(a.queue, b.queue);
    lemma_less_total(a.dept, b.dept);
    lemma_less_total(a.delivery_id, b.delivery_id);
    lemma_less_irreflexive(a.delivery_id);
    if goes_first(a, b) && goes_first(b, c) {
        lemma_less_total(a.queue, c.queue);
        lemma_less_total(a.dept, c.dept);
        if text_less(a.queue, b.queue) && text_less(b.queue, c.queue) {
            lemma_less_transitive(a.queue, b.queue, c.queue);
            lemma_less_irreflexive(a.queue);
        }
        if text_less(a.dept, b.dept) && text_less(b.dept, c.dept) {
            lemma_less_transitive(a.dept, b.dept, c.dept);
            lemma_less_irreflexive(a.dept);
        }
        if text_less(a.delivery_id, b.delivery_id) && text_less(b.delivery_id, c.delivery_id) {
            lemma_less_transitive(a.delivery_id, b.delivery_id, c.delivery_id);
        }
        lemma_less_irreflexive(a.queue);
        lemma_less_irreflexive(b.queue);
        lemma_less_irreflexive(a.dept);
        lemma_less_irreflexive(b.dept);
        lemma_less_irreflexive(b.delivery_id);
    }
}

/// A time in front of which another has to pass ends where the two together end, and at the end of
/// all times where they go beyond it.
pub proof fn law_when_the_dead_have_rested(dead_at_ms: u64, cooldown_ms: u64, now_ms: u64)
    ensures
        dead_at_ms + cooldown_ms <= u64::MAX ==> (cooled_down(dead_at_ms, cooldown_ms, now_ms)
            <==> dead_at_ms + cooldown_ms <= now_ms),
        dead_at_ms + cooldown_ms > u64::MAX ==> (cooled_down(dead_at_ms, cooldown_ms, now_ms)
            <==> now_ms == u64::MAX),
{
}

/// A dead delivery is worth another try where it has rested; so is a place in the index that it does
/// not belong to, and one that belongs to nothing, for both are cleared away.
pub proof fn law_what_is_worth_another_try(
    rows: Map<(Seq<char>, Seq<char>), Seq<u8>>,
    key: DueView,
    cooldown_ms: u64,
    now_ms: u64,
)
    ensures
        dead_among(rows, key.delivery_id) is None ==> worth_redrive(
            rows,
            key,
            cooldown_ms,
            now_ms,
        ),
        dead_among(rows, key.delivery_id) matches Some(d) ==> {
            &&& d.dead_at_ms == key.due_ms ==> worth_redrive(rows, key, cooldown_ms, now_ms)
                == cooled_down(d.dead_at_ms, cooldown_ms, now_ms)
            &&& d.dead_at_ms != key.due_ms ==> worth_redrive(rows, key, cooldown_ms, now_ms)
        },
{
}

/// The deliveries that keys name are those that stand under their ids, in the order of the keys.
pub proof fn law_what_keys_name(
    rows: Map<(Seq<char>, Seq<char>), Seq<u8>>,
    keys: Seq<DueView>,
    d: DeliveryView,
)
    ensures
        named_deliveries(rows, keys).contains(d) <==> exists|i: int|
            0 <= i < keys.len() && live_among(rows, (#[trigger] keys[i]).delivery_id) == Some(d),
        named_deliveries(rows, keys).len() <= keys.len(),
        (forall|i: int|
            0 <= i < keys.len() ==> live_among(rows, (#[trigger] keys[i]).delivery_id) is Some)
            ==> named_deliveries(rows, keys).len() == keys.len(),
    decreases keys.len(),
{
    if keys.len() > 0 {
        let front = keys.drop_last();
        let last = keys[keys.len() - 1];
        law_what_keys_name(rows, front, d);
        let before = named_deliveries(rows, front);
        let all = named_deliveries(rows, keys);
        if exists|i: int|
            0 <= i < keys.len() && live_among(rows, (#[trigger] keys[i]).delivery_id) == Some(d) {
            let i = choose|i: int|
                0 <= i < keys.len() && live_among(rows, (#[trigger] keys[i]).delivery_id) == Some(d);
            if i < front.len() {
                assert(front[i] == keys[i]);
                let k = choose|k: int| 0 <= k < before.len() && before[k] == d;
                assert(all[k] == d);
            } else {
                assert(all[before.len() as int] == d);
            }
        }
        if all.contains(d) {
            let k = choose|k: int| 0 <= k < all.len() && all[k] == d;
            if k < before.len() {
                assert(before[k] == d);
                let i = choose|i: int|
                    0 <= i < front.len() && live_among(rows, (#[trigger] front[i]).delivery_id)
                        == Some(d);
                assert(keys[i] == front[i]);
            } else {
                assert(live_among(rows, last.delivery_id) == Some(d));
            }
        }
        if forall|i: int|
            0 <= i < keys.len() ==> live_among(rows, (#[trigger] keys[i]).delivery_id) is Some {
            assert forall|i: int| 0 <= i < front.len() implies live_among(
                rows,
                (#[trigger] front[i]).delivery_id,
            ) is Some by {
                assert(live_among(rows, keys[i].delivery_id) is Some);
            }
            assert(live_among(rows, last.delivery_id) is Some);
        }
    }
}

/// Of a list of keys those are due whose time has come, as many as there is room for.
pub proof fn law_which_keys_are_due(list: Seq<Seq<char>>, now_ms: u64, limit: nat, i: int)
    ensures
        due_among(list, now_ms, limit) matches Some(found) ==> {
            &&& found.len() <= limit
            &&& forall|k: int|
                0 <= k < found.len() ==> (#[trigger] found[k]).due_ms <= now_ms
            &&& found.len() < limit && 0 <= i < list.len() ==> (parsed_key(list[i]) matches Some(key)
                && (key.due_ms <= now_ms ==> found.contains(key)))
        },
    decreases list.len(),
{
    if list.len() > 0 {
        law_which_keys_are_due(list.drop_last(), now_ms, limit, i);
        if let Some(found) = due_among(list, now_ms, limit) {
            let before = due_among(list.drop_last(), now_ms, limit)->0;
            if found.len() < limit && 0 <= i < list.len() {
                if i < list.len() - 1 {
                    assert(list.drop_last()[i] == list[i]);
                    let key = parsed_key(list[i])->0;
                    if key.due_ms <= now_ms {
                        let k = choose|k: int| 0 <= k < before.len() && before[k] == key;
                        assert(found[k] == key);
                    }
                } else {
                    let key = parsed_key(list[i])->0;
                    if key.due_ms <= now_ms {
                        assert(found[before.len() as int] == key);
                    }
                }
            }
        }
    }
}

/// Every key of a list is read, in their order, or none is.
pub proof fn law_each_key_is_read(list: Seq<Seq<char>>)
    ensures
        parsed_all(list) is Some <==> forall|i: int|
            0 <= i < list.len() ==> parsed_key(#[trigger] list[i]) is Some,
        parsed_all(list) matches Some(keys) ==> keys.len() == list.len() && forall|i: int|
            #![trigger keys[i]]
            0 <= i < list.len() ==> Some(keys[i]) == parsed_key(list[i]),
        parsed_dead_all(list) is Some <==> forall|i: int|
            0 <= i < list.len() ==> parsed_dead_key(#[trigger] list[i]) is Some,
        parsed_dead_all(list) matches Some(keys) ==> keys.len() == list.len() && forall|i: int|
            #![trigger keys[i]]
            0 <= i < list.len() ==> Some(keys[i]) == parsed_dead_key(list[i]),
    decreases list.len(),
{
    if list.len() > 0 {
        let front = list.drop_last();
        law_each_key_is_read(front);
        assert(forall|i: int| 0 <= i < front.len() ==> #[trigger] front[i] == list[i]);
        if forall|i: int| 0 <= i < list.len() ==> parsed_key(#[trigger] list[i]) is Some {
            assert forall|i: int| 0 <= i < front.len() implies parsed_key(#[trigger] front[i])
                is Some by {
                assert(parsed_key(list[i]) is Some);
            }
            assert(parsed_key(list[list.len() - 1]) is Some);
        }
        if parsed_all(list) is Some {
            assert forall|i: int| 0 <= i < list.len() implies parsed_key(#[trigger] list[i])
                is Some by {
                if i < front.len() {
                    assert(parsed_key(front[i]) is Some);
                }
            }
            let keys = parsed_all(list)->0;
            let before = parsed_all(front)->0;
            assert forall|i: int|
                #![trigger keys[i]]
                0 <= i < list.len() implies Some(keys[i]) == parsed_key(list[i]) by {
                if i < front.len() {
                    assert(keys[i] == before[i]);
                    assert(front[i] == list[i]);
                }
            }
        }
        if forall|i: int| 0 <= i < list.len() ==> parsed_dead_key(#[trigger] list[i]) is Some {
            assert forall|i: int| 0 <= i < front.len() implies parsed_dead_key(#[trigger] front[i])
                is Some by {
                assert(parsed_dead_key(list[i]) is Some);
            }
            assert(parsed_dead_key(list[list.len() - 1]) is Some);
        }
        if parsed_dead_all(list) is Some {
            assert forall|i: int| 0 <= i < list.len() implies parsed_dead_key(#[trigger] list[i])
                is Some by {
                if i < front.len() {
                    assert(parsed_dead_key(front[i]) is Some);
                }
            }
            let keys = parsed_dead_all(list)->0;
            let before = parsed_dead_all(front)->0;
            assert forall|i: int|
                #![trigger keys[i]]
                0 <= i < list.len() implies Some(keys[i]) == parsed_dead_key(list[i]) by {
                if i < front.len() {
                    assert(keys[i] == before[i]);
                    assert(front[i] == list[i]);
                }
            }
        }
    }
}

/// A delivery is found to be due just where it stands under an id that the index has at a time that
/// has come.
pub proof fn law_which_deliveries_are_due(
    found: Seq<DeliveryView>,
    rows: Map<(Seq<char>, Seq<char>), Seq<u8>>,
    keys: Set<(Seq<char>, Seq<char>)>,
    now_ms: u64,
    key: Seq<char>,
)
    requires
        due_ready(found, rows, keys, now_ms),
        found.len() < usize::MAX,
        forall|k: Seq<char>|
            keys.contains((ready(), k)) ==> #[trigger] parsed_key(k) is Some && live_among(
                rows,
                parsed_key(k)->0.delivery_id,
            ) is Some,
    ensures
        keys.contains((ready(), key)) && parsed_key(key)->0.due_ms <= now_ms ==> found.contains(
            live_among(rows, parsed_key(key)->0.delivery_id)->0,
        ),
        forall|d: DeliveryView| #[trigger]
            found.contains(d) ==> exists|k: Seq<char>|
                keys.contains((ready(), k)) && #[trigger] parsed_key(k)->0.due_ms <= now_ms
                    && live_among(rows, parsed_key(k)->0.delivery_id) == Some(d),
{
    let due = choose|due: Seq<DueView>| #[trigger]
        due_keys(due, keys, ready(), None, now_ms, usize::MAX as nat) && found == named_deliveries(
            rows,
            due,
        );
    assert(due_for_all(due, keys, ready(), now_ms, usize::MAX as nat));
    let list = choose|list: Seq<Seq<char>>| #[trigger]
        lists_keys(list, keys, ready()) && due_among(list, now_ms, usize::MAX as nat) == Some(due);
    lemma_due_from(list, now_ms, usize::MAX as nat, due);
    assert forall|k: int| 0 <= k < due.len() implies live_among(
        rows,
        (#[trigger] due[k]).delivery_id,
    ) is Some by {
        assert(comes_from(list, due[k]));
        let i = choose|i: int| 0 <= i < list.len() && parsed_key(#[trigger] list[i]) == Some(due[k]);
        assert(keys.contains((ready(), list[i])));
    }
    law_what_keys_name(rows, due, arbitrary());
    assert(due.len() == found.len());
    if keys.contains((ready(), key)) && parsed_key(key)->0.due_ms <= now_ms {
        assert(list.contains(key));
        let i = choose|i: int| 0 <= i < list.len() && list[i] == key;
        law_which_keys_are_due(list, now_ms, usize::MAX as nat, i);
        let k = choose|k: int| 0 <= k < due.len() && due[k] == parsed_key(key)->0;
        let d = live_among(rows, parsed_key(key)->0.delivery_id)->0;
        assert(live_among(rows, due[k].delivery_id) == Some(d));
        law_what_keys_name(rows, due, d);
    }
    assert forall|d: DeliveryView| #[trigger] found.contains(d) implies exists|k: Seq<char>|
        keys.contains((ready(), k)) && #[trigger] parsed_key(k)->0.due_ms <= now_ms && live_among(
            rows,
            parsed_key(k)->0.delivery_id,
        ) == Some(d) by {
        law_what_keys_name(rows, due, d);
        let j = choose|j: int|
            0 <= j < due.len() && live_among(rows, (#[trigger] due[j]).delivery_id) == Some(d);
        assert(comes_from(list, due[j]));
        let i = choose|i: int| 0 <= i < list.len() && parsed_key(#[trigger] list[i]) == Some(due[j]);
        law_which_keys_are_due(list, now_ms, usize::MAX as nat, i);
        assert(due[j].due_ms <= now_ms);
        assert(keys.contains((ready(), list[i])));
        assert(parsed_key(list[i])->0.due_ms <= now_ms);
    }
}

spec fn comes_from(list: Seq<Seq<char>>, key: DueView) -> bool {
    exists|i: int| 0 <= i < list.len() && parsed_key(#[trigger] list[i]) == Some(key)
}

/// What is due of a department is all of that department and its time has come; with room left each
/// delivery of it whose time has come is found.
pub proof fn law_what_is_due_of_a_department(
    found: Seq<DueView>,
    keys: Set<(Seq<char>, Seq<char>)>,
    table: Seq<char>,
    dept: Seq<char>,
    now_ms: u64,
    limit: nat,
    due_ms: u64,
    id: Seq<char>,
)
    requires
        due_keys(found, keys, table, Some(dept), now_ms, limit),
        limit > 0,
        ordinary_id(id),
    ensures
        found.len() <= limit,
        found.len() < limit && keys.contains((table, index_key(dept, due_ms, id))) && due_ms
            <= now_ms ==> found.contains(
            DueView { key: index_key(dept, due_ms, id), due_ms, delivery_id: id },
        ),
        due_ms > now_ms ==> !found.contains(
            DueView { key: index_key(dept, due_ms, id), due_ms, delivery_id: id },
        ),
        forall|other: Seq<char>|
            other != dept ==> !#[trigger] found.contains(
                DueView { key: index_key(other, due_ms, id), due_ms, delivery_id: id },
            ),
{
    let list = choose|list: Seq<Seq<char>>| #[trigger]
        first_keys(list, keys, table, due_range_start(dept), due_range_end(dept, now_ms), limit)
            && parsed_all(list) == Some(found);
    law_each_key_is_read(list);
    let key = index_key(dept, due_ms, id);
    let own = DueView { key, due_ms, delivery_id: id };
    law_due_range(dept, due_ms, id, now_ms);
    law_index_key_parses(dept, due_ms, id);
    if found.len() < limit && keys.contains((table, key)) && due_ms <= now_ms {
        assert(between(keys, table, due_range_start(dept), due_range_end(dept, now_ms), key));
        assert(list.contains(key));
        let i = choose|i: int| 0 <= i < list.len() && list[i] == key;
        assert(Some(found[i]) == parsed_key(list[i]));
    }
    if found.contains(own) {
        let i = choose|i: int| 0 <= i < found.len() && found[i] == own;
        lemma_key_of(list[i], own);
        assert(between(keys, table, due_range_start(dept), due_range_end(dept, now_ms), list[i]));
    }
    assert forall|other: Seq<char>| other != dept implies !#[trigger] found.contains(
        DueView { key: index_key(other, due_ms, id), due_ms, delivery_id: id },
    ) by {
        let strange = DueView { key: index_key(other, due_ms, id), due_ms, delivery_id: id };
        if found.contains(strange) {
            let i = choose|i: int| 0 <= i < found.len() && found[i] == strange;
            lemma_key_of(list[i], strange);
            assert(between(
                keys,
                table,
                due_range_start(dept),
                due_range_end(dept, now_ms),
                list[i],
            ));
            law_due_range_is_of_dept(dept, now_ms, other, due_ms, id);
        }
    }
}

proof fn lemma_key_of(key: Seq<char>, due: DueView)
    requires
        parsed_key(key) == Some(due),
    ensures
        due.key == key,
{
}

proof fn lemma_due_from(list: Seq<Seq<char>>, now_ms: u64, limit: nat, found: Seq<DueView>)
    requires
        due_among(list, now_ms, limit) == Some(found),
    ensures
        forall|k: int| 0 <= k < found.len() ==> comes_from(list, #[trigger] found[k]),
    decreases list.len(),
{
    if list.len() > 0 {
        let front = list.drop_last();
        let before = due_among(front, now_ms, limit)->0;
        lemma_due_from(front, now_ms, limit, before);
        assert forall|k: int| 0 <= k < found.len() implies comes_from(list, #[trigger] found[k]) by {
            if k < before.len() {
                assert(found[k] == before[k]);
                assert(comes_from(front, before[k]));
                let i = choose|i: int|
                    0 <= i < front.len() && parsed_key(#[trigger] front[i]) == Some(before[k]);
                assert(list[i] == front[i]);
            } else {
                assert(parsed_key(list[list.len() - 1]) == Some(found[k]));
            }
        }
    }
}

// The dead by their times.

proof fn lemma_code_is_ascii(bytes: Seq<u8>)
    ensures
        forall|i: int| 0 <= i < bytes_code(bytes).len() ==> #[trigger] bytes_code(bytes)[i] < '\u{80}',
    decreases bytes.len(),
{
    if bytes.len() > 0 {
        lemma_code_is_ascii(bytes.drop_last());
        let front = bytes_code(bytes.drop_last());
        let last = byte_code(bytes.last());
        assert forall|i: int| 0 <= i < bytes_code(bytes).len() implies #[trigger] bytes_code(
            bytes,
        )[i] < '\u{80}' by {
            if i < front.len() {
                assert(bytes_code(bytes)[i] == front[i]);
            } else {
                assert(bytes_code(bytes)[i] == last[i - front.len()]);
            }
        }
    }
}

/// The places of the dead between the two bounds are those of the deliveries that were dead by then.
pub proof fn law_the_dead_by_a_time(
    dept: Seq<char>,
    dead_at_ms: u64,
    delivery_id: Seq<char>,
    ms: u64,
    keys: Set<(Seq<char>, Seq<char>)>,
    table: Seq<char>,
)
    ensures
        ({
            let key = dead_index_key(dept, dead_at_ms, delivery_id);
            between(keys, table, dead_range_start(), dead_range_end(ms), key) <==> keys.contains(
                (table, key),
            ) && dead_at_ms <= ms
        }),
{
    reveal_strlit("/");
    reveal_strlit("\u{10ffff}");
    assert("/"@ =~= seq!['/']);
    assert("\u{10ffff}"@ =~= seq!['\u{10ffff}']);
    let nothing = Seq::<char>::empty();
    let key = dead_index_key(dept, dead_at_ms, delivery_id);
    let tail = "/"@ + (encoded_part(dept) + "/"@ + delivery_id);
    assert(key =~= nothing + time_code(dead_at_ms) + tail);
    assert(dead_range_start() =~= nothing + time_code(0) + "/"@);
    let last = "/"@ + "\u{10ffff}"@;
    assert(dead_range_end(ms) =~= nothing + time_code(ms) + last);
    lemma_front_of_key(nothing, dead_at_ms, tail, 0, "/"@);
    lemma_front_of_key(nothing, 0, "/"@, dead_at_ms, tail);
    lemma_less_total(key, dead_range_start());
    lemma_less_total(key, dead_range_end(ms));
    lemma_front_of_key(nothing, ms, last, dead_at_ms, tail);
    lemma_front_of_key(nothing, dead_at_ms, tail, ms, last);
    assert(!text_less(tail, "/"@)) by {
        assert("/"@ + nothing =~= "/"@);
        lemma_less_common_front("/"@, encoded_part(dept) + "/"@ + delivery_id, nothing);
    }
    let part = encoded_part(dept);
    lemma_encoded_part(dept);
    lemma_code_is_ascii(encode_utf8(dept));
    assert(part[0] < '\u{10ffff}') by {
        if dept.len() > 0 {
            let code = bytes_code(encode_utf8(dept));
            assert(part[0] == '_' || part[0] == code[0]);
        }
    }
    assert((part + "/"@ + delivery_id)[0] == part[0]);
    lemma_less_common_front("/"@, "\u{10ffff}"@, part + "/"@ + delivery_id);
    assert(!text_less("\u{10ffff}"@, part + "/"@ + delivery_id));
}

} // verus!
