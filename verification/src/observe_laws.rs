//! Laws of the snapshots that are told of a store.

use vstd::prelude::*;
use crate::delivery_observe::{
    count_of, decoded_deliveries, names_queue, observed, observed_store, queue_of, queue_views,
    queues_of, stored_dead, stored_deliveries, subscribers_view, DeliveryObserveOptions,
    DeliveryObserveSnapshot, DeliveryObserveStatus, QueueView,
};
use crate::delivery_types::{DeadView, DeliveryView};
use crate::order::{lemma_less_irreflexive, lemma_less_total, text_less};
use crate::store_model::deliveries;
use crate::tables::{ascending, lists_rows, row_keys, Row};

verus! {

/// Two lists in order that hold the same texts are the same list.
proof fn lemma_same_ascending(a: Seq<Seq<char>>, b: Seq<Seq<char>>)
    requires
        ascending(a),
        ascending(b),
        forall|x: Seq<char>| #[trigger] a.contains(x) == b.contains(x),
    ensures
        a == b,
    decreases a.len(),
{
    if a.len() == 0 {
        if b.len() > 0 {
            assert(b.contains(b[0]));
            assert(a.contains(b[0]));
        }
        assert(a =~= b);
    } else {
        assert(a.contains(a.last()));
        assert(b.contains(a.last()));
        assert(b.contains(b.last()));
        assert(a.contains(b.last()));
        let i = choose|i: int| 0 <= i < b.len() && b[i] == a.last();
        let j = choose|j: int| 0 <= j < a.len() && a[j] == b.last();
        lemma_less_total(a.last(), b.last());
        assert(a.last() == b.last()) by {
            if i < b.len() - 1 && j < a.len() - 1 {
                assert(text_less(b[i], b[b.len() - 1]));
                assert(text_less(a[j], a[a.len() - 1]));
            }
        }
        lemma_front_of_ascending(a);
        lemma_front_of_ascending(b);
        let front = a.drop_last();
        let other = b.drop_last();
        assert forall|x: Seq<char>| #[trigger] front.contains(x) == other.contains(x) by {
            assert(front.contains(x) == (a.contains(x) && x != a.last()));
            assert(other.contains(x) == (b.contains(x) && x != b.last()));
        }
        lemma_same_ascending(front, other);
        assert(a =~= front.push(a.last()));
        assert(b =~= other.push(b.last()));
    }
}

proof fn lemma_front_of_ascending(s: Seq<Seq<char>>)
    requires
        ascending(s),
        s.len() > 0,
    ensures
        ascending(s.drop_last()),
        forall|x: Seq<char>| #[trigger]
            s.drop_last().contains(x) == (s.contains(x) && x != s.last()),
{
    let front = s.drop_last();
    assert forall|i: int, j: int| 0 <= i < j < front.len() implies text_less(
        #[trigger] front[i],
        #[trigger] front[j],
    ) by {
        assert(front[i] == s[i] && front[j] == s[j]);
    }
    assert forall|x: Seq<char>| #[trigger] front.contains(x) == (s.contains(x) && x != s.last()) by {
        if front.contains(x) {
            let i = choose|i: int| 0 <= i < front.len() && front[i] == x;
            assert(s[i] == x);
            assert(text_less(s[i], s[s.len() - 1]));
            lemma_less_irreflexive(x);
        } else if s.contains(x) && x != s.last() {
            let i = choose|i: int| 0 <= i < s.len() && s[i] == x;
            assert(front[i] == x);
        }
    }
}

proof fn lemma_same_decoded(a: Seq<Row>, b: Seq<Row>)
    requires
        a.len() == b.len(),
        forall|i: int| 0 <= i < a.len() ==> (#[trigger] a[i]).value@ == b[i].value@,
    ensures
        decoded_deliveries(a) == decoded_deliveries(b),
    decreases a.len(),
{
    if a.len() > 0 {
        assert forall|i: int| 0 <= i < a.drop_last().len() implies (
        #[trigger] a.drop_last()[i]).value@ == b.drop_last()[i].value@ by {
            assert(a.drop_last()[i] == a[i]);
        }
        lemma_same_decoded(a.drop_last(), b.drop_last());
        assert(a[a.len() - 1].value@ == b[b.len() - 1].value@);
    }
}

proof fn lemma_row_keys_hold(list: Seq<Row>, rows: Map<(Seq<char>, Seq<char>), Seq<u8>>)
    requires
        lists_rows(list, rows, deliveries()),
    ensures
        forall|k: Seq<char>| #[trigger]
            row_keys(list).contains(k) == rows.contains_key((deliveries(), k)),
{
    assert forall|k: Seq<char>| #[trigger]
        row_keys(list).contains(k) == rows.contains_key((deliveries(), k)) by {
        if row_keys(list).contains(k) {
            let i = choose|i: int| 0 <= i < row_keys(list).len() && row_keys(list)[i] == k;
            assert(list[i].key@ == k);
        }
    }
}

/// The deliveries of a store are told in one way alone.
pub proof fn law_a_store_is_read_in_one_way(
    a: Seq<DeliveryView>,
    b: Seq<DeliveryView>,
    rows: Map<(Seq<char>, Seq<char>), Seq<u8>>,
)
    requires
        stored_deliveries(a, rows),
        stored_deliveries(b, rows),
    ensures
        a == b,
{
    let x = choose|list: Seq<Row>| #[trigger]
        lists_rows(list, rows, deliveries()) && a == decoded_deliveries(list);
    let y = choose|list: Seq<Row>| #[trigger]
        lists_rows(list, rows, deliveries()) && b == decoded_deliveries(list);
    lemma_row_keys_hold(x, rows);
    lemma_row_keys_hold(y, rows);
    lemma_same_ascending(row_keys(x), row_keys(y));
    assert forall|i: int| 0 <= i < x.len() implies (#[trigger] x[i]).value@ == y[i].value@ by {
        assert(row_keys(x)[i] == row_keys(y)[i]);
        assert(x[i].key@ == y[i].key@);
    }
    assert(x.len() == row_keys(x).len() && y.len() == row_keys(y).len());
    lemma_same_decoded(x, y);
}

spec fn queue_names(states: Seq<QueueView>) -> Seq<Seq<char>> {
    Seq::new(states.len(), |i: int| states[i].queue)
}

proof fn lemma_queue_names(
    states: Seq<QueueView>,
    ds: Seq<DeliveryView>,
    now_ms: u64,
    subscribers: Option<Seq<Seq<char>>>,
)
    requires
        queues_of(states, ds, now_ms, subscribers),
    ensures
        ascending(queue_names(states)),
        forall|x: Seq<char>| #[trigger] queue_names(states).contains(x) == names_queue(ds, x),
{
    let names = queue_names(states);
    assert forall|i: int, j: int| 0 <= i < j < names.len() implies text_less(
        #[trigger] names[i],
        #[trigger] names[j],
    ) by {
        assert(text_less(states[i].queue, states[j].queue));
    }
    assert forall|x: Seq<char>| #[trigger] names.contains(x) == names_queue(ds, x) by {
        if names.contains(x) {
            let i = choose|i: int| 0 <= i < names.len() && names[i] == x;
            assert(states[i].queue == x);
        }
        if names_queue(ds, x) {
            let i = choose|i: int| 0 <= i < ds.len() && (#[trigger] ds[i]).queue == x;
            let j = choose|j: int|
                0 <= j < states.len() && (#[trigger] states[j]).queue == ds[i].queue;
            assert(names[j] == x);
        }
    }
}

/// What is told of the queues of deliveries is told in one way alone.
proof fn lemma_same_queues(
    a: Seq<QueueView>,
    b: Seq<QueueView>,
    ds: Seq<DeliveryView>,
    now_ms: u64,
    subscribers: Option<Seq<Seq<char>>>,
)
    requires
        queues_of(a, ds, now_ms, subscribers),
        queues_of(b, ds, now_ms, subscribers),
    ensures
        a == b,
{
    lemma_queue_names(a, ds, now_ms, subscribers);
    lemma_queue_names(b, ds, now_ms, subscribers);
    assert forall|x: Seq<char>| #[trigger] queue_names(a).contains(x) == queue_names(b).contains(
        x,
    ) by {
        assert(queue_names(b).contains(x) == names_queue(ds, x));
    }
    lemma_same_ascending(queue_names(a), queue_names(b));
    assert(a.len() == queue_names(a).len() && b.len() == queue_names(b).len());
    assert forall|i: int| 0 <= i < a.len() implies a[i] == b[i] by {
        assert(queue_names(a)[i] == queue_names(b)[i]);
        assert(a[i] == queue_of(ds, a[i].queue, now_ms, subscribers));
        assert(b[i] == queue_of(ds, b[i].queue, now_ms, subscribers));
    }
    assert(a =~= b);
}

/// What is told of the queues does not depend on how much is asked for: at one time and for the same
/// subscribers, two snapshots of a store tell the same of every queue, whatever their limits,
/// cursors, pages and windows.
pub proof fn law_queues_do_not_depend_on_the_page(
    a: DeliveryObserveSnapshot,
    b: DeliveryObserveSnapshot,
    rows: Map<(Seq<char>, Seq<char>), Seq<u8>>,
    durable_root: Seq<char>,
    database: Seq<char>,
    first: DeliveryObserveOptions,
    second: DeliveryObserveOptions,
)
    requires
        observed_store(a, rows, durable_root, database, first),
        observed_store(b, rows, durable_root, database, second),
        first.now_ms == second.now_ms,
        subscribers_view(first.current_subscriber_queues) == subscribers_view(
            second.current_subscriber_queues,
        ),
    ensures
        queue_views(a.queues@) == queue_views(b.queues@),
{
    let (x, x_gone) = choose|live: Seq<DeliveryView>, gone: Seq<DeadView>|
        #![trigger stored_deliveries(live, rows), stored_dead(gone, rows)]
        stored_deliveries(live, rows) && stored_dead(gone, rows) && observed(
            a,
            live,
            gone,
            durable_root,
            database,
            first,
        );
    let (y, y_gone) = choose|live: Seq<DeliveryView>, gone: Seq<DeadView>|
        #![trigger stored_deliveries(live, rows), stored_dead(gone, rows)]
        stored_deliveries(live, rows) && stored_dead(gone, rows) && observed(
            b,
            live,
            gone,
            durable_root,
            database,
            second,
        );
    law_a_store_is_read_in_one_way(x, y, rows);
    lemma_same_queues(
        queue_views(a.queues@),
        queue_views(b.queues@),
        x,
        first.now_ms,
        subscribers_view(first.current_subscriber_queues),
    );
}

/// The depths of queues, added up.
pub open spec fn total_depth(states: Seq<QueueView>) -> nat
    decreases states.len(),
{
    if states.len() == 0 {
        0
    } else {
        total_depth(states.drop_last()) + states.last().depth
    }
}

spec fn depth_of(ds: Seq<DeliveryView>, queue: Seq<char>, now_ms: u64) -> nat {
    count_of(ds, queue, DeliveryObserveStatus::Pending, now_ms) + count_of(
        ds,
        queue,
        DeliveryObserveStatus::InFlight,
        now_ms,
    ) + count_of(ds, queue, DeliveryObserveStatus::Retrying, now_ms)
}

spec fn depth_of_all(names: Seq<Seq<char>>, ds: Seq<DeliveryView>, now_ms: u64) -> nat
    decreases names.len(),
{
    if names.len() == 0 {
        0
    } else {
        depth_of_all(names.drop_last(), ds, now_ms) + depth_of(ds, names.last(), now_ms)
    }
}

proof fn lemma_one_more(names: Seq<Seq<char>>, ds: Seq<DeliveryView>, now_ms: u64)
    requires
        ascending(names),
        ds.len() > 0,
    ensures
        depth_of_all(names, ds, now_ms) == depth_of_all(names, ds.drop_last(), now_ms) + if names.contains(
            ds.last().queue,
        ) {
            1nat
        } else {
            0nat
        },
    decreases names.len(),
{
    if names.len() > 0 {
        lemma_front_of_ascending(names);
        lemma_one_more(names.drop_last(), ds, now_ms);
        let name = names.last();
        let queue = ds.last().queue;
        assert(depth_of(ds, name, now_ms) == depth_of(ds.drop_last(), name, now_ms) + if queue
            == name {
            1nat
        } else {
            0nat
        });
        assert(names.contains(name));
        assert(names.drop_last().contains(queue) == (names.contains(queue) && queue != name));
    }
}

proof fn lemma_depths_add_up(names: Seq<Seq<char>>, ds: Seq<DeliveryView>, now_ms: u64)
    requires
        ascending(names),
        forall|i: int| 0 <= i < ds.len() ==> names.contains((#[trigger] ds[i]).queue),
    ensures
        depth_of_all(names, ds, now_ms) == ds.len(),
    decreases ds.len(),
{
    if ds.len() == 0 {
        lemma_nothing_in_any(names, ds, now_ms);
    } else {
        assert forall|i: int| 0 <= i < ds.drop_last().len() implies names.contains(
            (#[trigger] ds.drop_last()[i]).queue,
        ) by {
            assert(ds.drop_last()[i] == ds[i]);
        }
        lemma_depths_add_up(names, ds.drop_last(), now_ms);
        lemma_one_more(names, ds, now_ms);
        assert(names.contains(ds[ds.len() - 1].queue));
    }
}

proof fn lemma_nothing_in_any(names: Seq<Seq<char>>, ds: Seq<DeliveryView>, now_ms: u64)
    requires
        ds.len() == 0,
    ensures
        depth_of_all(names, ds, now_ms) == 0,
    decreases names.len(),
{
    if names.len() > 0 {
        lemma_nothing_in_any(names.drop_last(), ds, now_ms);
    }
}

proof fn lemma_total_depth(
    states: Seq<QueueView>,
    ds: Seq<DeliveryView>,
    now_ms: u64,
    subscribers: Option<Seq<Seq<char>>>,
)
    requires
        forall|i: int|
            0 <= i < states.len() ==> #[trigger] states[i] == queue_of(
                ds,
                states[i].queue,
                now_ms,
                subscribers,
            ),
    ensures
        total_depth(states) == depth_of_all(queue_names(states), ds, now_ms),
    decreases states.len(),
{
    if states.len() > 0 {
        let front = states.drop_last();
        assert forall|i: int| 0 <= i < front.len() implies #[trigger] front[i] == queue_of(
            ds,
            front[i].queue,
            now_ms,
            subscribers,
        ) by {
            assert(front[i] == states[i]);
        }
        lemma_total_depth(front, ds, now_ms, subscribers);
        assert(queue_names(states).drop_last() =~= queue_names(front));
        assert(states[states.len() - 1] == queue_of(
            ds,
            states[states.len() - 1].queue,
            now_ms,
            subscribers,
        ));
    }
}

/// Every delivery of a store is counted once: the depths of the queues, which are told in the order
/// of their names, add up to the deliveries that the store holds, whatever is asked for; and each
/// depth is what is pending, in flight and retrying.
pub proof fn law_depths_add_up(
    snapshot: DeliveryObserveSnapshot,
    rows: Map<(Seq<char>, Seq<char>), Seq<u8>>,
    durable_root: Seq<char>,
    database: Seq<char>,
    options: DeliveryObserveOptions,
    live: Seq<DeliveryView>,
)
    requires
        observed_store(snapshot, rows, durable_root, database, options),
        stored_deliveries(live, rows),
    ensures
        total_depth(queue_views(snapshot.queues@)) == live.len(),
        forall|i: int, j: int|
            0 <= i < j < snapshot.queues@.len() ==> text_less(
                (#[trigger] snapshot.queues@[i]).queue@,
                (#[trigger] snapshot.queues@[j]).queue@,
            ),
        forall|i: int|
            0 <= i < snapshot.queues@.len() ==> (#[trigger] snapshot.queues@[i]).depth
                == snapshot.queues@[i].pending + snapshot.queues@[i].in_flight
                + snapshot.queues@[i].retrying,
{
    let (x, gone) = choose|x: Seq<DeliveryView>, gone: Seq<DeadView>|
        #![trigger stored_deliveries(x, rows), stored_dead(gone, rows)]
        stored_deliveries(x, rows) && stored_dead(gone, rows) && observed(
            snapshot,
            x,
            gone,
            durable_root,
            database,
            options,
        );
    law_a_store_is_read_in_one_way(x, live, rows);
    let states = queue_views(snapshot.queues@);
    let subscribers = subscribers_view(options.current_subscriber_queues);
    lemma_queue_names(states, live, options.now_ms, subscribers);
    lemma_total_depth(states, live, options.now_ms, subscribers);
    assert forall|i: int| 0 <= i < live.len() implies queue_names(states).contains(
        (#[trigger] live[i]).queue,
    ) by {
        assert(names_queue(live, live[i].queue));
    }
    lemma_depths_add_up(queue_names(states), live, options.now_ms);
    assert forall|i: int, j: int| 0 <= i < j < snapshot.queues@.len() implies text_less(
        (#[trigger] snapshot.queues@[i]).queue@,
        (#[trigger] snapshot.queues@[j]).queue@,
    ) by {
        assert(text_less(states[i].queue, states[j].queue));
    }
    assert forall|i: int| 0 <= i < snapshot.queues@.len() implies (
    #[trigger] snapshot.queues@[i]).depth == snapshot.queues@[i].pending
        + snapshot.queues@[i].in_flight + snapshot.queues@[i].retrying by {
        assert(states[i] == queue_of(live, states[i].queue, options.now_ms, subscribers));
    }
}

} // verus!
