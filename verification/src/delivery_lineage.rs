//! Finding what became of the deliveries that one source sent to one department.

use vstd::prelude::*;
use crate::delivery_observe::{
    observe_lineage, scan_dead, scan_deliveries, stored_dead, stored_deliveries, tells_lineage,
    LineageObserveResult, ObserveError,
};
use crate::delivery_store::is_terminal_dead_record;
use crate::delivery_types::{
    dead_views, delivery_views, source_view, DeadRecord, DeadView, DeliveryRecord, DeliveryView,
    SourceRef, SourceView,
};
use crate::store_model::is_terminal;
use crate::tables::snapshot_rows;
use crate::text::same_text;
use redb::ReadTransaction;

verus! {

/// What is asked for: what one source sent to one department through one queue.
pub struct LineageKey {
    pub queue: Seq<char>,
    pub dept: Seq<char>,
    pub source: SourceView,
}

/// Whether a delivery is of a lineage.
pub open spec fn of_lineage(d: DeliveryView, key: LineageKey) -> bool {
    d.queue == key.queue && d.dept == key.dept && d.source == Some(key.source)
}

/// Whether a dead delivery is of a lineage and will not be sent again.
pub open spec fn ends_lineage(d: DeadView, key: LineageKey) -> bool {
    d.queue == key.queue && d.dept == key.dept && d.source == Some(key.source) && is_terminal(d)
}

/// The first delivery of a lineage.
pub open spec fn first_live(found: Seq<DeliveryView>, key: LineageKey) -> Option<DeliveryView>
    decreases found.len(),
{
    if found.len() == 0 {
        None
    } else if of_lineage(found[0], key) {
        Some(found[0])
    } else {
        first_live(found.drop_first(), key)
    }
}

/// The first dead delivery that ends a lineage.
pub open spec fn first_terminal(found: Seq<DeadView>, key: LineageKey) -> Option<DeadView>
    decreases found.len(),
{
    if found.len() == 0 {
        None
    } else if ends_lineage(found[0], key) {
        Some(found[0])
    } else {
        first_terminal(found.drop_first(), key)
    }
}

pub open spec fn optional_delivery(d: Option<DeliveryRecord>) -> Option<DeliveryView> {
    match d {
        Some(d) => Some(d@),
        None => None,
    }
}

pub open spec fn optional_dead(d: Option<DeadRecord>) -> Option<DeadView> {
    match d {
        Some(d) => Some(d@),
        None => None,
    }
}

/// What is there of a lineage.
pub struct DeliveryLineage {
    pub live_delivery: Option<DeliveryRecord>,
    pub terminal_dead_letter: Option<DeadRecord>,
}

fn is_source(source: &Option<SourceRef>, wanted: &SourceRef) -> (r: bool)
    ensures
        r == (source_view(*source) == Some(wanted@)),
{
    match source {
        Some(s) => s.kind == wanted.kind && same_text(
            s.reference.as_str(),
            wanted.reference.as_str(),
        ),
        None => false,
    }
}

fn take_live(live: Vec<DeliveryRecord>, queue: &str, dept: &str, source: &SourceRef) -> (r: Option<
    DeliveryRecord,
>)
    ensures
        optional_delivery(r) == first_live(
            delivery_views(live@),
            LineageKey { queue: queue@, dept: dept@, source: source@ },
        ),
{
    let ghost key = LineageKey { queue: queue@, dept: dept@, source: source@ };
    let ghost found = delivery_views(live@);
    let mut list: Vec<DeliveryRecord> = live;
    let mut i: usize = 0;
    assert(found.skip(0) =~= found);
    while i < list.len()
        invariant
            key == (LineageKey { queue: queue@, dept: dept@, source: source@ }),
            list@ == live@,
            found == delivery_views(live@),
            i <= list@.len(),
            first_live(found, key) == first_live(found.skip(i as int), key),
        decreases list@.len() - i,
    {
        proof {
            assert(found.skip(i as int)[0] == found[i as int]);
            assert(found.skip(i as int).drop_first() =~= found.skip(i + 1));
            assert(found[i as int] == list@[i as int]@);
        }
        if same_text(list[i].queue.as_str(), queue) && same_text(list[i].dept.as_str(), dept)
            && is_source(&list[i].source, source) {
            return Some(list.remove(i));
        }
        i = i + 1;
    }
    None
}

fn take_terminal(gone: Vec<DeadRecord>, queue: &str, dept: &str, source: &SourceRef) -> (r: Option<
    DeadRecord,
>)
    ensures
        optional_dead(r) == first_terminal(
            dead_views(gone@),
            LineageKey { queue: queue@, dept: dept@, source: source@ },
        ),
{
    let ghost key = LineageKey { queue: queue@, dept: dept@, source: source@ };
    let ghost found = dead_views(gone@);
    let mut list: Vec<DeadRecord> = gone;
    let mut i: usize = 0;
    assert(found.skip(0) =~= found);
    while i < list.len()
        invariant
            key == (LineageKey { queue: queue@, dept: dept@, source: source@ }),
            list@ == gone@,
            found == dead_views(gone@),
            i <= list@.len(),
            first_terminal(found, key) == first_terminal(found.skip(i as int), key),
        decreases list@.len() - i,
    {
        proof {
            assert(found.skip(i as int)[0] == found[i as int]);
            assert(found.skip(i as int).drop_first() =~= found.skip(i + 1));
            assert(found[i as int] == list@[i as int]@);
        }
        if same_text(list[i].queue.as_str(), queue) && same_text(list[i].dept.as_str(), dept)
            && is_source(&list[i].source, source) && is_terminal_dead_record(&list[i]) {
            return Some(list.remove(i));
        }
        i = i + 1;
    }
    None
}

/// What is there of a lineage among records: its first delivery, and its first dead delivery that
/// will not be sent again.
pub fn find_lineage(
    live: Vec<DeliveryRecord>,
    gone: Vec<DeadRecord>,
    queue: &str,
    dept: &str,
    source: &SourceRef,
) -> (r: DeliveryLineage)
    ensures
        optional_delivery(r.live_delivery) == first_live(
            delivery_views(live@),
            LineageKey { queue: queue@, dept: dept@, source: source@ },
        ),
        optional_dead(r.terminal_dead_letter) == first_terminal(
            dead_views(gone@),
            LineageKey { queue: queue@, dept: dept@, source: source@ },
        ),
{
    DeliveryLineage {
        live_delivery: take_live(live, queue, dept, source),
        terminal_dead_letter: take_terminal(gone, queue, dept, source),
    }
}

/// What is there of a lineage in a store.
pub open spec fn stored_lineage(
    live: Option<DeliveryView>,
    gone: Option<DeadView>,
    rows: Map<(Seq<char>, Seq<char>), Seq<u8>>,
    key: LineageKey,
) -> bool {
    &&& exists|found: Seq<DeliveryView>| #[trigger]
        stored_deliveries(found, rows) && live == first_live(found, key)
    &&& exists|found: Seq<DeadView>| #[trigger]
        stored_dead(found, rows) && gone == first_terminal(found, key)
}

/// Looks for a lineage in a store.
pub fn lookup_lineage(txn: &ReadTransaction, queue: &str, dept: &str, source: &SourceRef) -> (r:
    Result<DeliveryLineage, redb::Error>)
    ensures
        r matches Ok(found) ==> stored_lineage(
            optional_delivery(found.live_delivery),
            optional_dead(found.terminal_dead_letter),
            snapshot_rows(*txn),
            LineageKey { queue: queue@, dept: dept@, source: source@ },
        ),
{
    let live: Vec<DeliveryRecord> = match scan_deliveries(txn) {
        Ok(live) => live,
        Err(e) => return Err(e),
    };
    let gone: Vec<DeadRecord> = match scan_dead(txn) {
        Ok(gone) => gone,
        Err(e) => return Err(e),
    };
    assert(stored_deliveries(delivery_views(live@), snapshot_rows(*txn)));
    assert(stored_dead(dead_views(gone@), snapshot_rows(*txn)));
    Ok(find_lineage(live, gone, queue, dept, source))
}

/// Tells of a lineage in a store.
pub fn observe_store_lineage(
    txn: &ReadTransaction,
    queue: &str,
    dept: &str,
    source: &SourceRef,
    now_ms: u64,
) -> (r: Result<LineageObserveResult, ObserveError>)
    ensures
        r matches Err(ObserveError::Storage(_)) || exists|
            live: Option<DeliveryView>,
            gone: Option<DeadView>,
        |
            stored_lineage(
                live,
                gone,
                snapshot_rows(*txn),
                LineageKey { queue: queue@, dept: dept@, source: source@ },
            ) && #[trigger] tells_lineage(live, gone, now_ms, r),
{
    let found: DeliveryLineage = match lookup_lineage(txn, queue, dept, source) {
        Ok(found) => found,
        Err(e) => return Err(ObserveError::Storage(e)),
    };
    let told: Result<LineageObserveResult, ObserveError> = observe_lineage(
        &found.live_delivery,
        &found.terminal_dead_letter,
        now_ms,
    );
    assert(tells_lineage(
        optional_delivery(found.live_delivery),
        optional_dead(found.terminal_dead_letter),
        now_ms,
        told,
    ));
    told
}

} // verus!
