//! Laws of what a snapshot tells of each queue, delivery and dead letter.

use vstd::prelude::*;
use crate::delivery_lineage::{first_live, first_terminal, LineageKey};
use crate::delivery_observe::{
    asked_for, behind, count_of, dead_asked_for, dead_behind, dead_entries_of, dead_entry_of,
    dead_entry_views, dead_payload, dead_told_since, decoded_dead, decoded_deliveries, died_before,
    died_in_order, digestible, entries_of, entry_of, entry_views, fence_of, has_empty_cursor,
    next_page, no_summary, observed, observed_first, oldest_of, ordered_dead, ordered_deliveries,
    oversized, pages_with_cursor, queue_of, status_of, summary_of, tells, told_before, told_since,
    up_to, CursorView, DeadEntryView, DeadLetterWindow, DeliveryObserveOptions,
    DeliveryObserveSnapshot, DeliveryObserveStatus, EntryView, QueueSubscriberStatus,
};
use crate::delivery_types::{DeadView, DeliveryView};
use crate::numeral::{decimal, is_digit, lemma_decimal};
use crate::digest::digest_text;
use crate::json::{json_bytes, JsonView};
use crate::order::{lemma_less_total, text_less};
use crate::record_codec::{decode_dead, decode_delivery};
use crate::tables::Row;
use crate::text::text_view;

verus! {

// How far a delivery is.

/// Whether a delivery has a lease that runs at a time.
pub open spec fn is_in_flight(d: DeliveryView, now_ms: u64) -> bool {
    d.lease_until_ms matches Some(until) && until > now_ms
}

/// Whether a delivery that has failed waits, at a time, for its next attempt.
pub open spec fn is_retrying(d: DeliveryView, now_ms: u64) -> bool {
    !is_in_flight(d, now_ms) && d.attempt > 0 && d.not_before_ms > now_ms
}

/// Whether a delivery waits, at a time, for its turn.
pub open spec fn is_pending(d: DeliveryView, now_ms: u64) -> bool {
    !is_in_flight(d, now_ms) && !is_retrying(d, now_ms)
}

/// A delivery is in flight just while its lease runs, retrying just while it has failed and its next
/// attempt is not due, and pending otherwise.
pub proof fn law_how_far_a_delivery_is(d: DeliveryView, now_ms: u64)
    ensures
        status_of(d, now_ms) == DeliveryObserveStatus::InFlight <==> is_in_flight(d, now_ms),
        status_of(d, now_ms) == DeliveryObserveStatus::Retrying <==> is_retrying(d, now_ms),
        status_of(d, now_ms) == DeliveryObserveStatus::Pending <==> is_pending(d, now_ms),
{
}

/// The deliveries of a queue that are pending, in flight and retrying.
pub open spec fn those_of(
    ds: Seq<DeliveryView>,
    queue: Seq<char>,
    status: DeliveryObserveStatus,
    now_ms: u64,
) -> Seq<DeliveryView> {
    ds.filter(
        |d: DeliveryView|
            d.queue == queue && match status {
                DeliveryObserveStatus::Pending => is_pending(d, now_ms),
                DeliveryObserveStatus::InFlight => is_in_flight(d, now_ms),
                DeliveryObserveStatus::Retrying => is_retrying(d, now_ms),
            },
    )
}

proof fn lemma_count_is_of_those(
    ds: Seq<DeliveryView>,
    queue: Seq<char>,
    status: DeliveryObserveStatus,
    now_ms: u64,
)
    ensures
        count_of(ds, queue, status, now_ms) == those_of(ds, queue, status, now_ms).len(),
    decreases ds.len(),
{
    reveal(Seq::filter);
    if ds.len() > 0 {
        lemma_count_is_of_those(ds.drop_last(), queue, status, now_ms);
    }
}

/// What is counted of a queue are its deliveries that are pending, in flight and retrying, each once.
pub proof fn law_what_is_counted_of_a_queue(
    ds: Seq<DeliveryView>,
    queue: Seq<char>,
    now_ms: u64,
    subscribers: Option<Seq<Seq<char>>>,
)
    ensures
        ({
            let told = queue_of(ds, queue, now_ms, subscribers);
            &&& told.queue == queue
            &&& told.pending == those_of(ds, queue, DeliveryObserveStatus::Pending, now_ms).len()
            &&& told.in_flight == those_of(ds, queue, DeliveryObserveStatus::InFlight, now_ms).len()
            &&& told.retrying == those_of(ds, queue, DeliveryObserveStatus::Retrying, now_ms).len()
            &&& told.depth == told.pending + told.in_flight + told.retrying
        }),
{
    lemma_count_is_of_those(ds, queue, DeliveryObserveStatus::Pending, now_ms);
    lemma_count_is_of_those(ds, queue, DeliveryObserveStatus::InFlight, now_ms);
    lemma_count_is_of_those(ds, queue, DeliveryObserveStatus::Retrying, now_ms);
}

/// Whether a delivery is the one of a queue that has been pending for longest.
pub open spec fn is_oldest_pending(
    ds: Seq<DeliveryView>,
    queue: Seq<char>,
    now_ms: u64,
    i: int,
) -> bool {
    &&& 0 <= i < ds.len()
    &&& ds[i].queue == queue
    &&& is_pending(ds[i], now_ms)
    &&& forall|j: int|
        0 <= j < ds.len() && (#[trigger] ds[j]).queue == queue && is_pending(ds[j], now_ms)
            ==> ds[i].not_before_ms <= ds[j].not_before_ms
}

proof fn lemma_oldest(ds: Seq<DeliveryView>, queue: Seq<char>, now_ms: u64)
    ensures
        match oldest_of(ds, queue, now_ms) {
            Some(oldest) => exists|i: int| #[trigger]
                is_oldest_pending(ds, queue, now_ms, i) && ds[i].not_before_ms == oldest,
            None => forall|j: int|
                0 <= j < ds.len() ==> (#[trigger] ds[j]).queue != queue || !is_pending(
                    ds[j],
                    now_ms,
                ),
        },
    decreases ds.len(),
{
    if ds.len() > 0 {
        let front = ds.drop_last();
        let last = ds.len() - 1;
        lemma_oldest(front, queue, now_ms);
        assert forall|j: int| 0 <= j < last implies #[trigger] front[j] == ds[j] by {}
        if ds[last].queue == queue && is_pending(ds[last], now_ms) {
            match oldest_of(front, queue, now_ms) {
                Some(oldest) => {
                    let i = choose|i: int| #[trigger]
                        is_oldest_pending(front, queue, now_ms, i) && front[i].not_before_ms
                            == oldest;
                    if oldest <= ds[last].not_before_ms {
                        assert forall|j: int|
                            0 <= j < ds.len() && (#[trigger] ds[j]).queue == queue && is_pending(
                                ds[j],
                                now_ms,
                            ) implies ds[i].not_before_ms <= ds[j].not_before_ms by {
                            if j < last {
                                assert(front[j] == ds[j]);
                            }
                        }
                        assert(is_oldest_pending(ds, queue, now_ms, i));
                    } else {
                        assert forall|j: int|
                            0 <= j < ds.len() && (#[trigger] ds[j]).queue == queue && is_pending(
                                ds[j],
                                now_ms,
                            ) implies ds[last].not_before_ms <= ds[j].not_before_ms by {
                            if j < last {
                                assert(front[j] == ds[j]);
                            }
                        }
                        assert(is_oldest_pending(ds, queue, now_ms, last));
                    }
                },
                None => {
                    assert forall|j: int|
                        0 <= j < ds.len() && (#[trigger] ds[j]).queue == queue && is_pending(
                            ds[j],
                            now_ms,
                        ) implies ds[last].not_before_ms <= ds[j].not_before_ms by {
                        if j < last {
                            assert(front[j] == ds[j]);
                        }
                    }
                    assert(is_oldest_pending(ds, queue, now_ms, last));
                },
            }
        } else {
            match oldest_of(front, queue, now_ms) {
                Some(oldest) => {
                    let i = choose|i: int| #[trigger]
                        is_oldest_pending(front, queue, now_ms, i) && front[i].not_before_ms
                            == oldest;
                    assert forall|j: int|
                        0 <= j < ds.len() && (#[trigger] ds[j]).queue == queue && is_pending(
                            ds[j],
                            now_ms,
                        ) implies ds[i].not_before_ms <= ds[j].not_before_ms by {
                        if j < last {
                            assert(front[j] == ds[j]);
                        }
                    }
                    assert(is_oldest_pending(ds, queue, now_ms, i));
                },
                None => {
                    assert forall|j: int| 0 <= j < ds.len() implies (#[trigger] ds[j]).queue != queue
                        || !is_pending(ds[j], now_ms) by {
                        if j < last {
                            assert(front[j] == ds[j]);
                        }
                    }
                },
            }
        }
    }
}

/// The oldest pending age of a queue is that of the delivery that has been pending for longest: how
/// long ago it was due, or nothing yet; and none is told just where no delivery of the queue is
/// pending.
pub proof fn law_the_oldest_pending_age(
    ds: Seq<DeliveryView>,
    queue: Seq<char>,
    now_ms: u64,
    subscribers: Option<Seq<Seq<char>>>,
)
    ensures
        match queue_of(ds, queue, now_ms, subscribers).oldest_pending_age_ms {
            Some(age) => exists|i: int| #[trigger]
                is_oldest_pending(ds, queue, now_ms, i) && age == if ds[i].not_before_ms <= now_ms {
                    now_ms - ds[i].not_before_ms
                } else {
                    0
                },
            None => forall|j: int|
                0 <= j < ds.len() ==> (#[trigger] ds[j]).queue != queue || !is_pending(
                    ds[j],
                    now_ms,
                ),
        },
{
    lemma_oldest(ds, queue, now_ms);
    match oldest_of(ds, queue, now_ms) {
        Some(oldest) => {
            let i = choose|i: int| #[trigger]
                is_oldest_pending(ds, queue, now_ms, i) && ds[i].not_before_ms == oldest;
            assert(is_oldest_pending(ds, queue, now_ms, i));
        },
        None => {},
    }
}

/// A queue has a current subscriber just where it is among those that are subscribed to; where these
/// are not known, nothing is said.
pub proof fn law_who_subscribes_to_a_queue(
    ds: Seq<DeliveryView>,
    queue: Seq<char>,
    now_ms: u64,
    subscribers: Option<Seq<Seq<char>>>,
)
    ensures
        ({
            let told = queue_of(ds, queue, now_ms, subscribers);
            &&& subscribers is None ==> told.has_current_subscriber is None
                && told.subscriber_status == QueueSubscriberStatus::Unknown
            &&& subscribers matches Some(queues) ==> {
                &&& told.has_current_subscriber == Some(queues.contains(queue))
                &&& told.subscriber_status == QueueSubscriberStatus::Current
                    <==> queues.contains(queue)
                &&& told.subscriber_status == QueueSubscriberStatus::Absent
                    <==> !queues.contains(queue)
            }
        }),
{
}

// One delivery.

/// What is told of a delivery is what it is.
pub proof fn law_an_entry_is_its_delivery(d: DeliveryView, now_ms: u64)
    ensures
        ({
            let e = entry_of(d, now_ms);
            &&& e.delivery_id == d.delivery_id
            &&& e.queue == d.queue
            &&& e.dept == d.dept
            &&& e.source == d.source
            &&& e.observed_at_ms == d.observed_at_ms
            &&& e.not_before_ms == d.not_before_ms
            &&& e.attempt == d.attempt
            &&& e.redrive_count == d.redrive_count
            &&& e.lease_generation == d.lease_generation
            &&& e.lease_until_ms == d.lease_until_ms
            &&& e.subscriber_absent_since_ms == d.subscriber_absent_since_ms
            &&& e.last_error_excerpt == d.last_error_excerpt
            &&& e.status == DeliveryObserveStatus::InFlight <==> is_in_flight(d, now_ms)
            &&& e.status == DeliveryObserveStatus::Retrying <==> is_retrying(d, now_ms)
            &&& e.payload.bytes == crate::json::json_bytes(d.payload).len()
            &&& e.payload.digest == crate::digest::digest_text(crate::json::json_bytes(d.payload))
            &&& e.payload.schema == d.payload.text_at("schema"@)
            &&& e.payload.dedup_key == d.payload.text_at("dedup_key"@)
        }),
{
}

/// What is told of a dead delivery is what it is.
pub proof fn law_a_dead_entry_is_its_delivery(d: DeadView)
    ensures
        ({
            let e = dead_entry_of(d);
            &&& e.delivery_id == d.delivery_id
            &&& e.queue == d.queue
            &&& e.dept == d.dept
            &&& e.source == d.source
            &&& e.observed_at_ms == d.observed_at_ms
            &&& e.not_before_ms == d.not_before_ms
            &&& e.dead_at_ms == d.dead_at_ms
            &&& e.attempts == d.attempts
            &&& e.redrive_count == d.redrive_count
            &&& e.replayable == d.replayable
            &&& e.permanent == d.permanent
            &&& e.error_excerpt == d.error_excerpt
            &&& d.record matches Some(r) ==> e.payload.bytes == crate::json::json_bytes(
                r.payload,
            ).len() && e.payload.digest == crate::digest::digest_text(
                crate::json::json_bytes(r.payload),
            ) && e.payload.schema == r.payload.text_at("schema"@) && e.payload.dedup_key
                == r.payload.text_at("dedup_key"@)
        }),
{
}

proof fn lemma_same_tail(a: Seq<char>, x: Seq<char>, b: Seq<char>, y: Seq<char>)
    requires
        a + seq!['#'] + x == b + seq!['#'] + y,
        forall|i: int| 0 <= i < x.len() ==> #[trigger] x[i] != '#',
        forall|i: int| 0 <= i < y.len() ==> #[trigger] y[i] != '#',
    ensures
        a == b,
        x == y,
{
    let s = a + seq!['#'] + x;
    let t = b + seq!['#'] + y;
    assert(s.len() == a.len() + 1 + x.len());
    assert(t.len() == b.len() + 1 + y.len());
    assert(s[a.len() as int] == '#');
    assert(t[b.len() as int] == '#');
    if a.len() < b.len() {
        assert(s[b.len() as int] == x[b.len() - a.len() - 1]);
    } else if b.len() < a.len() {
        assert(t[a.len() as int] == y[a.len() - b.len() - 1]);
    }
    assert(a =~= s.take(a.len() as int));
    assert(b =~= t.take(b.len() as int));
    assert(x =~= s.skip(a.len() as int + 1));
    assert(y =~= t.skip(b.len() as int + 1));
}

/// Two leases have two fence tokens: the token tells the delivery and the generation.
pub proof fn law_fence_tokens_differ(a: Seq<char>, g: u64, b: Seq<char>, h: u64)
    requires
        fence_of(a, g) == fence_of(b, h),
    ensures
        a == b,
        g == h,
{
    reveal_strlit("#");
    assert("#"@ =~= seq!['#']);
    lemma_decimal(g as nat);
    lemma_decimal(h as nat);
    let x = decimal(g as nat);
    let y = decimal(h as nat);
    assert forall|i: int| 0 <= i < x.len() implies #[trigger] x[i] != '#' by {
        assert(is_digit(x[i]));
    }
    assert forall|i: int| 0 <= i < y.len() implies #[trigger] y[i] != '#' by {
        assert(is_digit(y[i]));
    }
    lemma_same_tail(a, x, b, y);
}

// The order.

/// Deliveries are told queue by queue, in a queue department by department, in a department by the
/// time from which they are due, and at one time by their ids.
pub proof fn law_the_order_of_deliveries(a: DeliveryView, b: DeliveryView)
    ensures
        text_less(a.queue, b.queue) ==> told_before(a, b) && !told_before(b, a),
        a.queue == b.queue && text_less(a.dept, b.dept) ==> told_before(a, b) && !told_before(b, a),
        a.queue == b.queue && a.dept == b.dept && a.not_before_ms < b.not_before_ms ==> told_before(
            a,
            b,
        ) && !told_before(b, a),
        a.queue == b.queue && a.dept == b.dept && a.not_before_ms == b.not_before_ms && text_less(
            a.delivery_id,
            b.delivery_id,
        ) ==> told_before(a, b) && !told_before(b, a),
{
    lemma_less_total(a.queue, b.queue);
    lemma_less_total(b.queue, b.queue);
    lemma_less_total(a.dept, b.dept);
    lemma_less_total(b.dept, b.dept);
    lemma_less_total(a.delivery_id, b.delivery_id);
}

/// Dead deliveries are told by the time of their death, and at one time by their ids.
pub proof fn law_the_order_of_the_dead(a: DeadView, b: DeadView)
    ensures
        a.dead_at_ms < b.dead_at_ms ==> died_before(a, b) && !died_before(b, a),
        a.dead_at_ms == b.dead_at_ms && text_less(a.delivery_id, b.delivery_id) ==> died_before(
            a,
            b,
        ) && !died_before(b, a),
{
    lemma_less_total(a.delivery_id, b.delivery_id);
}

// Cursors, windows and pages.

/// What is told from an id on is what stands behind the first delivery with that id.
pub proof fn law_what_is_told_behind_a_cursor(s: Seq<DeliveryView>, id: Seq<char>, k: int)
    requires
        0 <= k < s.len(),
        s[k].delivery_id == id,
        forall|i: int| 0 <= i < k ==> (#[trigger] s[i]).delivery_id != id,
    ensures
        told_since(s, Some(id)) == s.skip(k + 1),
    decreases k,
{
    lemma_behind(s, id, k);
}

proof fn lemma_behind(s: Seq<DeliveryView>, id: Seq<char>, k: int)
    requires
        0 <= k < s.len(),
        s[k].delivery_id == id,
        forall|i: int| 0 <= i < k ==> (#[trigger] s[i]).delivery_id != id,
    ensures
        behind(s, id) == Some(s.skip(k + 1)),
    decreases k,
{
    if k == 0 {
        assert(s.drop_first() =~= s.skip(1));
    } else {
        let rest = s.drop_first();
        assert(s[0].delivery_id != id);
        assert forall|i: int| 0 <= i < k - 1 implies (#[trigger] rest[i]).delivery_id != id by {
            assert(rest[i] == s[i + 1]);
        }
        lemma_behind(rest, id, k - 1);
        assert(rest.skip(k) =~= s.skip(k + 1));
    }
}

/// Everything is told where no id is given, and where the id that is given is not there.
pub proof fn law_an_unknown_cursor_leaves_nothing_out(
    s: Seq<DeliveryView>,
    gone: Seq<DeadView>,
    id: Seq<char>,
)
    ensures
        told_since(s, None) == s,
        dead_told_since(gone, None) == gone,
        (forall|i: int| 0 <= i < s.len() ==> (#[trigger] s[i]).delivery_id != id) ==> told_since(
            s,
            Some(id),
        ) == s,
        (forall|i: int| 0 <= i < gone.len() ==> (#[trigger] gone[i]).delivery_id != id)
            ==> dead_told_since(gone, Some(id)) == gone,
{
    if forall|i: int| 0 <= i < s.len() ==> (#[trigger] s[i]).delivery_id != id {
        lemma_nothing_behind(s, id);
    }
    if forall|i: int| 0 <= i < gone.len() ==> (#[trigger] gone[i]).delivery_id != id {
        lemma_nothing_dead_behind(gone, id);
    }
}

proof fn lemma_nothing_behind(s: Seq<DeliveryView>, id: Seq<char>)
    requires
        forall|i: int| 0 <= i < s.len() ==> (#[trigger] s[i]).delivery_id != id,
    ensures
        behind(s, id) is None,
    decreases s.len(),
{
    if s.len() > 0 {
        let rest = s.drop_first();
        assert(s[0].delivery_id != id);
        assert forall|i: int| 0 <= i < rest.len() implies (#[trigger] rest[i]).delivery_id != id by {
            assert(rest[i] == s[i + 1]);
        }
        lemma_nothing_behind(rest, id);
    }
}

proof fn lemma_nothing_dead_behind(s: Seq<DeadView>, id: Seq<char>)
    requires
        forall|i: int| 0 <= i < s.len() ==> (#[trigger] s[i]).delivery_id != id,
    ensures
        dead_behind(s, id) is None,
    decreases s.len(),
{
    if s.len() > 0 {
        let rest = s.drop_first();
        assert(s[0].delivery_id != id);
        assert forall|i: int| 0 <= i < rest.len() implies (#[trigger] rest[i]).delivery_id != id by {
            assert(rest[i] == s[i + 1]);
        }
        lemma_nothing_dead_behind(rest, id);
    }
}

/// What is told of the dead from an id on is what stands behind the first with that id.
pub proof fn law_what_is_told_of_the_dead_behind_a_cursor(
    s: Seq<DeadView>,
    id: Seq<char>,
    k: int,
)
    requires
        0 <= k < s.len(),
        s[k].delivery_id == id,
        forall|i: int| 0 <= i < k ==> (#[trigger] s[i]).delivery_id != id,
    ensures
        dead_told_since(s, Some(id)) == s.skip(k + 1),
{
    lemma_dead_behind(s, id, k);
}

proof fn lemma_dead_behind(s: Seq<DeadView>, id: Seq<char>, k: int)
    requires
        0 <= k < s.len(),
        s[k].delivery_id == id,
        forall|i: int| 0 <= i < k ==> (#[trigger] s[i]).delivery_id != id,
    ensures
        dead_behind(s, id) == Some(s.skip(k + 1)),
    decreases k,
{
    if k == 0 {
        assert(s.drop_first() =~= s.skip(1));
    } else {
        let rest = s.drop_first();
        assert(s[0].delivery_id != id);
        assert forall|i: int| 0 <= i < k - 1 implies (#[trigger] rest[i]).delivery_id != id by {
            assert(rest[i] == s[i + 1]);
        }
        lemma_dead_behind(rest, id, k - 1);
        assert(rest.skip(k) =~= s.skip(k + 1));
    }
}

/// Whether a dead delivery died in a window, its start included and its end not, and behind a cursor.
pub open spec fn is_wanted(
    d: DeadView,
    window: Option<DeadLetterWindow>,
    after: Option<CursorView>,
) -> bool {
    &&& match window {
        Some(w) => w.start_ms <= d.dead_at_ms && d.dead_at_ms < w.end_ms,
        None => true,
    }
    &&& match after {
        Some(c) => d.dead_at_ms > c.dead_at_ms || (d.dead_at_ms == c.dead_at_ms && text_less(
            c.delivery_id,
            d.delivery_id,
        )),
        None => true,
    }
}

/// The dead deliveries that died in a window and behind a cursor.
pub open spec fn those_wanted(
    all: Seq<DeadView>,
    window: Option<DeadLetterWindow>,
    after: Option<CursorView>,
) -> Seq<DeadView> {
    all.filter(|d: DeadView| is_wanted(d, window, after))
}

/// The dead deliveries that are told are those that died in the window and behind the cursor, each
/// once.
pub proof fn law_which_of_the_dead_are_told(
    all: Seq<DeadView>,
    window: Option<DeadLetterWindow>,
    after: Option<CursorView>,
)
    ensures
        dead_asked_for(all, window, after) == those_wanted(all, window, after),
    decreases all.len(),
{
    reveal(Seq::filter);
    if all.len() > 0 {
        law_which_of_the_dead_are_told(all.drop_last(), window, after);
    }
}

/// A page goes on where the last one ended: of dead deliveries with different ids, in their order,
/// those behind the cursor of a page that was cut off are just those that the page did not tell.
pub proof fn law_the_next_page_goes_on(told: Seq<DeadView>, limit: nat, i: int)
    requires
        died_in_order(told),
        forall|i: int, j: int|
            0 <= i < j < told.len() ==> (#[trigger] told[i]).delivery_id != (
            #[trigger] told[j]).delivery_id,
        0 < limit < told.len(),
        0 <= i < told.len(),
    ensures
        ({
            let shown = up_to(told, limit);
            let cursor = next_page(shown, told.len() > limit);
            shown == told.take(limit as int) && cursor is Some && (asked_for(
                told[i],
                None,
                cursor,
            ) <==> i >= limit)
        }),
{
    let shown = up_to(told, limit);
    let last = limit - 1;
    assert(shown.last() == told[last]);
    lemma_less_total(told[i].delivery_id, told[last].delivery_id);
    if i < last {
        assert(died_before(told[i], told[last]));
    } else if i > last {
        assert(died_before(told[last], told[i]));
        assert(told[last].delivery_id != told[i].delivery_id);
    }
}

/// No page follows one that was not cut off.
pub proof fn law_the_last_page_says_so(told: Seq<DeadView>, limit: nat)
    requires
        told.len() <= limit,
    ensures
        up_to(told, limit) == told,
        next_page(up_to(told, limit), told.len() > limit) is None,
{
}

// The whole snapshot.

proof fn lemma_same_members<T>(a: Seq<T>, b: Seq<T>)
    requires
        a.to_multiset() == b.to_multiset(),
    ensures
        a.len() == b.len(),
        forall|x: T| #[trigger] a.contains(x) == b.contains(x),
{
    a.to_multiset_ensures();
    b.to_multiset_ensures();
    assert forall|x: T| #[trigger] a.contains(x) == b.contains(x) by {
        assert(a.contains(x) == (a.to_multiset().count(x) > 0));
        assert(b.contains(x) == (b.to_multiset().count(x) > 0));
    }
}

/// Whether an entry is that of one of some deliveries.
pub open spec fn tells_of(e: EntryView, live: Seq<DeliveryView>, now_ms: u64) -> bool {
    exists|d: DeliveryView| #[trigger] live.contains(d) && e == entry_of(d, now_ms)
}

/// Whether a snapshot has the entry of a delivery.
pub open spec fn is_told(snapshot: DeliveryObserveSnapshot, d: DeliveryView, now_ms: u64) -> bool {
    exists|i: int|
        0 <= i < snapshot.deliveries@.len() && (#[trigger] snapshot.deliveries@[i])@ == entry_of(
            d,
            now_ms,
        )
}

/// Whether an entry is that of one of some dead deliveries.
pub open spec fn tells_of_dead(e: DeadEntryView, gone: Seq<DeadView>) -> bool {
    exists|d: DeadView| #[trigger] gone.contains(d) && e == dead_entry_of(d)
}

/// A snapshot without a cursor tells as many deliveries as there are, up to the limit, each as it is,
/// and says whether it left any out.
pub proof fn law_a_snapshot_tells_the_deliveries(
    snapshot: DeliveryObserveSnapshot,
    live: Seq<DeliveryView>,
    gone: Seq<DeadView>,
    durable_root: Seq<char>,
    database: Seq<char>,
    options: DeliveryObserveOptions,
)
    requires
        observed(snapshot, live, gone, durable_root, database, options),
        options.since is None,
    ensures
        snapshot.deliveries@.len() == if live.len() <= options.limit {
            live.len()
        } else {
            options.limit as nat
        },
        snapshot.truncated.deliveries <==> live.len() > options.limit,
        forall|i: int|
            0 <= i < snapshot.deliveries@.len() ==> tells_of(
                (#[trigger] snapshot.deliveries@[i])@,
                live,
                options.now_ms,
            ),
        live.len() <= options.limit ==> forall|d: DeliveryView| #[trigger]
            live.contains(d) ==> is_told(snapshot, d, options.now_ms),
{
    let asked = dead_asked_for(gone, options.dead_letter_window, options.after());
    let (told, dead_told) = choose|told: Seq<DeliveryView>, dead_told: Seq<DeadView>|
        #![trigger ordered_deliveries(told, live), ordered_dead(dead_told, asked)]
        ordered_deliveries(told, live) && ordered_dead(dead_told, asked) && tells(
            snapshot,
            told_since(told, crate::text::text_view(options.since)),
            dead_told_since(dead_told, crate::text::text_view(options.since)),
            options,
        );
    lemma_same_members(told, live);
    let shown = up_to(told, options.limit as nat);
    let entries = entries_of(shown, options.now_ms);
    assert(entry_views(snapshot.deliveries@) == entries);
    assert(snapshot.deliveries@.len() == entry_views(snapshot.deliveries@).len());
    assert forall|i: int| 0 <= i < snapshot.deliveries@.len() implies tells_of(
        (#[trigger] snapshot.deliveries@[i])@,
        live,
        options.now_ms,
    ) by {
        assert(entry_views(snapshot.deliveries@)[i] == snapshot.deliveries@[i]@);
        assert(entries[i] == entry_of(shown[i], options.now_ms));
        assert(told.contains(shown[i]));
        assert(live.contains(shown[i]));
    }
    if live.len() <= options.limit {
        assert forall|d: DeliveryView| #[trigger] live.contains(d) implies is_told(
            snapshot,
            d,
            options.now_ms,
        ) by {
            assert(told.contains(d));
            let i = choose|i: int| 0 <= i < told.len() && told[i] == d;
            assert(entry_views(snapshot.deliveries@)[i] == snapshot.deliveries@[i]@);
            assert(entries[i] == entry_of(shown[i], options.now_ms));
        }
    }
}

/// A snapshot without a cursor tells as many of the dead that are wanted as there are, up to the
/// limit, each as it is, and says whether it left any out.
pub proof fn law_a_snapshot_tells_the_dead(
    snapshot: DeliveryObserveSnapshot,
    live: Seq<DeliveryView>,
    gone: Seq<DeadView>,
    durable_root: Seq<char>,
    database: Seq<char>,
    options: DeliveryObserveOptions,
)
    requires
        observed(snapshot, live, gone, durable_root, database, options),
        options.since is None,
    ensures
        ({
            let wanted = those_wanted(gone, options.dead_letter_window, options.after());
            &&& snapshot.dead_letters@.len() == if wanted.len() <= options.limit {
                wanted.len()
            } else {
                options.limit as nat
            }
            &&& snapshot.truncated.dead_letters <==> wanted.len() > options.limit
            &&& options.dead_letter_window is Some ==> snapshot.dead_letters_complete == Some(
                wanted.len() <= options.limit,
            )
            &&& forall|i: int|
                0 <= i < snapshot.dead_letters@.len() ==> tells_of_dead(
                    (#[trigger] snapshot.dead_letters@[i])@,
                    wanted,
                )
        }),
{
    let asked = dead_asked_for(gone, options.dead_letter_window, options.after());
    law_which_of_the_dead_are_told(gone, options.dead_letter_window, options.after());
    let (told, dead_told) = choose|told: Seq<DeliveryView>, dead_told: Seq<DeadView>|
        #![trigger ordered_deliveries(told, live), ordered_dead(dead_told, asked)]
        ordered_deliveries(told, live) && ordered_dead(dead_told, asked) && tells(
            snapshot,
            told_since(told, crate::text::text_view(options.since)),
            dead_told_since(dead_told, crate::text::text_view(options.since)),
            options,
        );
    lemma_same_members(dead_told, asked);
    let shown = up_to(dead_told, options.limit as nat);
    let entries = dead_entries_of(shown);
    assert(dead_entry_views(snapshot.dead_letters@) == entries);
    assert(snapshot.dead_letters@.len() == dead_entry_views(snapshot.dead_letters@).len());
    assert forall|i: int| 0 <= i < snapshot.dead_letters@.len() implies tells_of_dead(
        (#[trigger] snapshot.dead_letters@[i])@,
        asked,
    ) by {
        assert(dead_entry_views(snapshot.dead_letters@)[i] == snapshot.dead_letters@[i]@);
        assert(entries[i] == dead_entry_of(shown[i]));
        assert(dead_told.contains(shown[i]));
        assert(asked.contains(shown[i]));
    }
}

// Lineages.

/// What is found of a lineage is a delivery of that queue, department and source, and one is found
/// where there is one.
pub proof fn law_what_is_found_of_a_lineage(found: Seq<DeliveryView>, key: LineageKey)
    ensures
        first_live(found, key) matches Some(d) ==> found.contains(d) && d.queue == key.queue
            && d.dept == key.dept && d.source == Some(key.source),
        first_live(found, key) is None ==> forall|i: int|
            0 <= i < found.len() ==> (#[trigger] found[i]).queue != key.queue || found[i].dept
                != key.dept || found[i].source != Some(key.source),
    decreases found.len(),
{
    if found.len() > 0 {
        let rest = found.drop_first();
        law_what_is_found_of_a_lineage(rest, key);
        match first_live(found, key) {
            Some(d) => {
                if d == found[0] {
                    assert(found.contains(found[0]));
                } else {
                    let i = choose|i: int| 0 <= i < rest.len() && rest[i] == d;
                    assert(found[i + 1] == d);
                }
            },
            None => {
                assert forall|i: int| 0 <= i < found.len() implies (#[trigger] found[i]).queue
                    != key.queue || found[i].dept != key.dept || found[i].source != Some(
                    key.source,
                ) by {
                    if i > 0 {
                        assert(rest[i - 1] == found[i]);
                    }
                }
            },
        }
    }
}

/// What is found as the end of a lineage is a dead delivery of that queue, department and source
/// that will not be sent again, and one is found where there is one.
pub proof fn law_what_is_found_as_the_end_of_a_lineage(found: Seq<DeadView>, key: LineageKey)
    ensures
        first_terminal(found, key) matches Some(d) ==> found.contains(d) && d.queue == key.queue
            && d.dept == key.dept && d.source == Some(key.source) && (d.permanent
            || !d.replayable),
        first_terminal(found, key) is None ==> forall|i: int|
            0 <= i < found.len() ==> (#[trigger] found[i]).queue != key.queue || found[i].dept
                != key.dept || found[i].source != Some(key.source) || (!found[i].permanent
                && found[i].replayable),
    decreases found.len(),
{
    if found.len() > 0 {
        let rest = found.drop_first();
        law_what_is_found_as_the_end_of_a_lineage(rest, key);
        match first_terminal(found, key) {
            Some(d) => {
                if d == found[0] {
                    assert(found.contains(found[0]));
                } else {
                    let i = choose|i: int| 0 <= i < rest.len() && rest[i] == d;
                    assert(found[i + 1] == d);
                }
            },
            None => {
                assert forall|i: int| 0 <= i < found.len() implies (#[trigger] found[i]).queue
                    != key.queue || found[i].dept != key.dept || found[i].source != Some(key.source)
                    || (!found[i].permanent && found[i].replayable) by {
                    if i > 0 {
                        assert(rest[i - 1] == found[i]);
                    }
                }
            },
        }
    }
}

/// The first snapshot of a store tells of the deliveries and of the dead that come first, up to the
/// limit, each as it is; it says when it was made and whether it left any out.
pub proof fn law_what_the_first_snapshot_tells(
    snapshot: DeliveryObserveSnapshot,
    live: Seq<DeliveryView>,
    gone: Seq<DeadView>,
    durable_root: Seq<char>,
    database: Seq<char>,
    now_ms: u64,
    limit: usize,
)
    requires
        observed_first(snapshot, live, gone, durable_root, database, now_ms, limit),
    ensures
        snapshot.generated_at_ms == now_ms,
        snapshot.source.durable_root@ == durable_root,
        snapshot.source.database@ == database,
        snapshot.limits.max_deliveries == limit && snapshot.limits.max_dead_letters == limit,
        snapshot.truncated.deliveries <==> live.len() > limit,
        snapshot.truncated.dead_letters <==> gone.len() > limit,
        snapshot.deliveries@.len() == if live.len() <= limit {
            live.len()
        } else {
            limit as nat
        },
        snapshot.dead_letters@.len() == if gone.len() <= limit {
            gone.len()
        } else {
            limit as nat
        },
        forall|i: int|
            0 <= i < snapshot.deliveries@.len() ==> tells_of(
                (#[trigger] snapshot.deliveries@[i])@,
                live,
                now_ms,
            ),
        forall|i: int|
            0 <= i < snapshot.dead_letters@.len() ==> tells_of_dead(
                (#[trigger] snapshot.dead_letters@[i])@,
                gone,
            ),
        live.len() <= limit ==> forall|d: DeliveryView| #[trigger]
            live.contains(d) ==> is_told(snapshot, d, now_ms),
{
    let first = up_to(live, limit as nat);
    let first_gone = up_to(gone, limit as nat);
    let (told, dead_told) = choose|told: Seq<DeliveryView>, dead_told: Seq<DeadView>| #[trigger]
        ordered_deliveries(told, first) && #[trigger] ordered_dead(dead_told, first_gone)
            && entry_views(snapshot.deliveries@) == entries_of(told, now_ms) && dead_entry_views(
            snapshot.dead_letters@,
        ) == dead_entries_of(dead_told);
    lemma_same_members(told, first);
    lemma_same_members(dead_told, first_gone);
    assert(snapshot.deliveries@.len() == entry_views(snapshot.deliveries@).len());
    assert(snapshot.dead_letters@.len() == dead_entry_views(snapshot.dead_letters@).len());
    assert forall|i: int| 0 <= i < snapshot.deliveries@.len() implies tells_of(
        (#[trigger] snapshot.deliveries@[i])@,
        live,
        now_ms,
    ) by {
        assert(entry_views(snapshot.deliveries@)[i] == snapshot.deliveries@[i]@);
        assert(entries_of(told, now_ms)[i] == entry_of(told[i], now_ms));
        assert(told.contains(told[i]));
        assert(first.contains(told[i]));
        let k = choose|k: int| 0 <= k < first.len() && first[k] == told[i];
        assert(live[k] == told[i]);
        assert(live.contains(told[i]));
    }
    assert forall|i: int| 0 <= i < snapshot.dead_letters@.len() implies tells_of_dead(
        (#[trigger] snapshot.dead_letters@[i])@,
        gone,
    ) by {
        assert(dead_entry_views(snapshot.dead_letters@)[i] == snapshot.dead_letters@[i]@);
        assert(dead_entries_of(dead_told)[i] == dead_entry_of(dead_told[i]));
        assert(dead_told.contains(dead_told[i]));
        assert(first_gone.contains(dead_told[i]));
        let k = choose|k: int| 0 <= k < first_gone.len() && first_gone[k] == dead_told[i];
        assert(gone[k] == dead_told[i]);
        assert(gone.contains(dead_told[i]));
    }
    if live.len() <= limit {
        assert forall|d: DeliveryView| #[trigger] live.contains(d) implies is_told(
            snapshot,
            d,
            now_ms,
        ) by {
            assert(first.contains(d));
            assert(told.contains(d));
            let i = choose|i: int| 0 <= i < told.len() && told[i] == d;
            assert(entry_views(snapshot.deliveries@)[i] == snapshot.deliveries@[i]@);
            assert(entries_of(told, now_ms)[i] == entry_of(told[i], now_ms));
        }
    }
}

// What is told of payloads and rows.

/// A payload is told by two of its texts and by the length and the digest of its own text; a dead
/// delivery by the payload of what is left of it, and by nothing where nothing is left.
pub proof fn law_what_is_summed_up(payload: JsonView, d: DeadView)
    ensures
        summary_of(payload).schema == payload.text_at("schema"@),
        summary_of(payload).dedup_key == payload.text_at("dedup_key"@),
        summary_of(payload).digest == digest_text(json_bytes(payload)),
        summary_of(payload).bytes == json_bytes(payload).len(),
        no_summary().schema is None && no_summary().dedup_key is None,
        no_summary().digest == digest_text(json_bytes(JsonView::Null)),
        d.record matches Some(r) ==> dead_payload(d) == r.payload,
        d.record is None ==> dead_payload(d) == JsonView::Null,
{
}

/// The rows that can be read are told, in their order, and no others.
pub proof fn law_which_rows_are_told(rows: Seq<Row>, d: DeliveryView, g: DeadView)
    ensures
        decoded_deliveries(rows).contains(d) <==> exists|i: int|
            0 <= i < rows.len() && decode_delivery((#[trigger] rows[i]).value@) == Some(d),
        decoded_dead(rows).contains(g) <==> exists|i: int|
            0 <= i < rows.len() && decode_dead((#[trigger] rows[i]).value@) == Some(g),
        decoded_deliveries(rows).len() <= rows.len(),
        decoded_dead(rows).len() <= rows.len(),
    decreases rows.len(),
{
    if rows.len() > 0 {
        let front = rows.drop_last();
        let last = rows[rows.len() - 1];
        law_which_rows_are_told(front, d, g);
        let before = decoded_deliveries(front);
        let all = decoded_deliveries(rows);
        if exists|i: int|
            0 <= i < rows.len() && decode_delivery((#[trigger] rows[i]).value@) == Some(d) {
            let i = choose|i: int|
                0 <= i < rows.len() && decode_delivery((#[trigger] rows[i]).value@) == Some(d);
            if i < front.len() {
                assert(front[i] == rows[i]);
                let k = choose|k: int| 0 <= k < before.len() && before[k] == d;
                assert(all[k] == d);
            } else {
                assert(all[before.len() as int] == d);
            }
        }
        if all.contains(d) {
            let k = choose|k: int| 0 <= k < all.len() && all[k] == d;
            if k < before.len() {
                assert(before[k] == d);
                let i = choose|i: int|
                    0 <= i < front.len() && decode_delivery((#[trigger] front[i]).value@) == Some(d);
                assert(rows[i] == front[i]);
            } else {
                assert(decode_delivery(last.value@) == Some(d));
            }
        }
        let dead_before = decoded_dead(front);
        let dead_all = decoded_dead(rows);
        if exists|i: int|
            0 <= i < rows.len() && decode_dead((#[trigger] rows[i]).value@) == Some(g) {
            let i = choose|i: int|
                0 <= i < rows.len() && decode_dead((#[trigger] rows[i]).value@) == Some(g);
            if i < front.len() {
                assert(front[i] == rows[i]);
                let k = choose|k: int| 0 <= k < dead_before.len() && dead_before[k] == g;
                assert(dead_all[k] == g);
            } else {
                assert(dead_all[dead_before.len() as int] == g);
            }
        }
        if dead_all.contains(g) {
            let k = choose|k: int| 0 <= k < dead_all.len() && dead_all[k] == g;
            if k < dead_before.len() {
                assert(dead_before[k] == g);
                let i = choose|i: int|
                    0 <= i < front.len() && decode_dead((#[trigger] front[i]).value@) == Some(g);
                assert(rows[i] == front[i]);
            } else {
                assert(decode_dead(last.value@) == Some(g));
            }
        }
    }
}

/// One entry is told of each delivery, at its place.
pub proof fn law_one_entry_for_each(ds: Seq<DeliveryView>, gs: Seq<DeadView>, now_ms: u64, i: int)
    ensures
        entries_of(ds, now_ms).len() == ds.len(),
        dead_entries_of(gs).len() == gs.len(),
        0 <= i < ds.len() ==> entries_of(ds, now_ms)[i] == entry_of(ds[i], now_ms),
        0 <= i < gs.len() ==> dead_entries_of(gs)[i] == dead_entry_of(gs[i]),
{
}

/// A snapshot is refused for a delivery whose payload is too long to be summed up, and for no other.
pub proof fn law_which_payload_is_too_long(
    live: Seq<DeliveryView>,
    gone: Seq<DeadView>,
    id: Seq<char>,
    i: int,
)
    ensures
        0 <= i < live.len() && json_bytes(live[i].payload).len() + 128 > usize::MAX ==> oversized(
            live,
            gone,
            live[i].delivery_id,
        ),
        (forall|k: int|
            0 <= k < live.len() ==> json_bytes((#[trigger] live[k]).payload).len() + 128
                <= usize::MAX) && (forall|k: int|
            0 <= k < gone.len() ==> json_bytes(dead_payload(#[trigger] gone[k])).len() + 128
                <= usize::MAX) ==> !oversized(live, gone, id),
{
    if 0 <= i < live.len() && json_bytes(live[i].payload).len() + 128 > usize::MAX {
        assert(live.contains(live[i]));
    }
    if oversized(live, gone, id) {
        if exists|d: DeliveryView| #[trigger]
            live.contains(d) && !digestible(d.payload) && d.delivery_id == id {
            let d = choose|d: DeliveryView| #[trigger]
                live.contains(d) && !digestible(d.payload) && d.delivery_id == id;
            let k = choose|k: int| 0 <= k < live.len() && live[k] == d;
            assert(json_bytes(live[k].payload).len() + 128 > usize::MAX);
        } else {
            let d = choose|d: DeadView| #[trigger]
                gone.contains(d) && !digestible(dead_payload(d)) && d.delivery_id == id;
            let k = choose|k: int| 0 <= k < gone.len() && gone[k] == d;
            assert(json_bytes(dead_payload(gone[k])).len() + 128 > usize::MAX);
        }
    }
}

/// An id to go on from may not be empty, and cannot be asked for together with a page.
pub proof fn law_which_requests_are_refused(options: DeliveryObserveOptions)
    ensures
        has_empty_cursor(options) <==> (options.since matches Some(id) && id@.len() == 0),
        pages_with_cursor(options) <==> options.dead_letter_page is Some && (options.since
            matches Some(id) && id@.len() > 0),
{
    if let Some(id) = options.since {
        if id@.len() == 0 {
            assert(id@ =~= Seq::<char>::empty());
        }
    }
}

} // verus!
