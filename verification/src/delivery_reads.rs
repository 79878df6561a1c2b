//! What is read from the delivery store.

use vstd::prelude::*;
use vstd::string::*;
use crate::delivery_index::{
    due_views, parse_dead_due_index_key, parsed_dead_key, parsed_key, DueIndexKey, DueView,
};
use crate::delivery_scan::{
    between, collect_due_keys, due_keys, first_keys, lemma_walk_done, lemma_walk_start,
    lemma_walk_step, successor, walked, StoreError,
};
use crate::delivery_store::{dead_bounds, dead_redrive_cooldown_elapsed, lease_end};
use crate::delivery_types::{
    dead_view, delivery_view, delivery_views, DeadRecord, DeadView, DeliveryRecord, DeliveryView,
    RedrivePolicy,
};
use crate::duration::{millis, Duration};
use crate::order::{lemma_at_most_transitive, lemma_less_total, less_text, text_less};
use crate::record_codec::{
    decode_dead, decode_dead_record, decode_delivery, delivery_bytes, encode_delivery,
    read_delivery, reads_back, storable,
};
use crate::store_invariant::{
    all_dead_read, lemma_lease_ready_sound, lemma_parsed_dead_read, sound, stays_sound,
};
use crate::store_model::{
    cooled_down, corrupt, dead, dead_due, dead_range_end, dead_range_start, deliveries, held_lease,
    is_terminal, leased, lemma_tables, live_at, parsed_dead_all, ready, with_lease,
};
use crate::tables::{
    insert_key, insert_row, list_rows, lists_rows, read_first_key, read_row, remove_key,
    snapshot_keys, snapshot_rows, state_of, Row,
};
use crate::text::{copy_text, texts_view};
use redb::{ReadTransaction, WriteTransaction};

verus! {

/// The delivery under an id among rows, where it can be read.
pub open spec fn live_among(rows: Map<(Seq<char>, Seq<char>), Seq<u8>>, id: Seq<char>) -> Option<
    DeliveryView,
> {
    if rows.contains_key((deliveries(), id)) {
        decode_delivery(rows[(deliveries(), id)])
    } else {
        None
    }
}

/// The dead delivery under an id among rows, where it can be read.
pub open spec fn dead_among(rows: Map<(Seq<char>, Seq<char>), Seq<u8>>, id: Seq<char>) -> Option<
    DeadView,
> {
    if rows.contains_key((dead(), id)) {
        decode_dead(rows[(dead(), id)])
    } else {
        None
    }
}

/// The delivery under an id.
pub fn get(txn: &ReadTransaction, delivery_id: &str) -> (r: Result<
    Option<DeliveryRecord>,
    StoreError,
>)
    ensures
        match r {
            Ok(Some(d)) => live_among(snapshot_rows(*txn), delivery_id@) == Some(d@),
            Ok(None) => !snapshot_rows(*txn).contains_key((deliveries(), delivery_id@)),
            Err(e) => e is Storage || (e is Undecodable && e->Undecodable_0@ == delivery_id@
                && snapshot_rows(*txn).contains_key((deliveries(), delivery_id@)) && live_among(
                snapshot_rows(*txn),
                delivery_id@,
            ) is None),
        },
{
    proof {
        lemma_tables();
    }
    match read_row(txn, "delivery_by_id", delivery_id) {
        Err(e) => Err(StoreError::Storage(e)),
        Ok(None) => Ok(None),
        Ok(Some(bytes)) => match read_delivery(bytes.as_slice()) {
            Some(d) => Ok(Some(d)),
            None => Err(StoreError::Undecodable(copy_text(delivery_id))),
        },
    }
}

/// The dead delivery under an id; one that cannot be read is passed over.
pub fn get_dead(txn: &ReadTransaction, delivery_id: &str) -> (r: Result<
    Option<DeadRecord>,
    StoreError,
>)
    ensures
        match r {
            Ok(d) => dead_view(d) == dead_among(snapshot_rows(*txn), delivery_id@),
            Err(e) => e is Storage,
        },
{
    proof {
        lemma_tables();
    }
    match read_row(txn, "dead_by_id", delivery_id) {
        Err(e) => Err(StoreError::Storage(e)),
        Ok(None) => Ok(None),
        Ok(Some(bytes)) => Ok(decode_dead_record(bytes.as_slice())),
    }
}

/// Whether a key of a dead delivery is worth a look: where it says nothing true, or where the
/// delivery has rested for long enough.
pub open spec fn worth_redrive(
    rows: Map<(Seq<char>, Seq<char>), Seq<u8>>,
    key: DueView,
    cooldown_ms: u64,
    now_ms: u64,
) -> bool {
    match dead_among(rows, key.delivery_id) {
        None => true,
        Some(d) => d.dead_at_ms != key.due_ms || cooled_down(d.dead_at_ms, cooldown_ms, now_ms),
    }
}

/// The front of the index of dead deliveries that `found` is.
pub open spec fn dead_front(
    list: Seq<Seq<char>>,
    keys: Set<(Seq<char>, Seq<char>)>,
    now_ms: u64,
) -> bool {
    first_keys(list, keys, dead_due(), dead_range_start(), dead_range_end(now_ms), list.len())
}

/// The first keys of dead deliveries that are worth a look: as many as the limit allows, and up to
/// the first that is not.
pub open spec fn due_dead(
    found: Seq<DueView>,
    rows: Map<(Seq<char>, Seq<char>), Seq<u8>>,
    keys: Set<(Seq<char>, Seq<char>)>,
    cooldown_ms: u64,
    now_ms: u64,
    limit: nat,
) -> bool {
    &&& found.len() <= limit
    &&& forall|i: int|
        0 <= i < found.len() ==> worth_redrive(rows, #[trigger] found[i], cooldown_ms, now_ms)
    &&& exists|list: Seq<Seq<char>>| #[trigger]
        dead_front(list, keys, now_ms) && parsed_dead_all(list) == Some(found) && (found.len()
            == limit || whole_dead_range(list, keys, now_ms) || stopped(
            list,
            rows,
            keys,
            cooldown_ms,
            now_ms,
        ))
}

pub open spec fn whole_dead_range(
    list: Seq<Seq<char>>,
    keys: Set<(Seq<char>, Seq<char>)>,
    now_ms: u64,
) -> bool {
    forall|k: Seq<char>| #[trigger]
        between(keys, dead_due(), dead_range_start(), dead_range_end(now_ms), k) ==> list.contains(
            k,
        )
}

/// The next key is not worth a look yet.
pub open spec fn stopped(
    list: Seq<Seq<char>>,
    rows: Map<(Seq<char>, Seq<char>), Seq<u8>>,
    keys: Set<(Seq<char>, Seq<char>)>,
    cooldown_ms: u64,
    now_ms: u64,
) -> bool {
    exists|next: Seq<char>| #[trigger]
        dead_front(list.push(next), keys, now_ms) && parsed_dead_key(next) is Some
            && !worth_redrive(rows, parsed_dead_key(next)->0, cooldown_ms, now_ms)
}

/// Finds the keys of dead deliveries that are worth a look.
pub fn collect_due_dead_keys(
    txn: &ReadTransaction,
    policy: &RedrivePolicy,
    now_ms: u64,
    batch_limit: usize,
) -> (r: Result<Vec<DueIndexKey>, StoreError>)
    ensures
        match r {
            Ok(found) => due_dead(
                due_views(found@),
                snapshot_rows(*txn),
                snapshot_keys(*txn),
                millis(policy.cooldown@) as u64,
                now_ms,
                batch_limit as nat,
            ),
            Err(e) => e is Storage || (e is BadIndexKey && parsed_dead_key(
                e->BadIndexKey_0@,
            ) is None && snapshot_keys(*txn).contains((dead_due(), e->BadIndexKey_0@))),
        },
        batch_limit == 0 ==> (r matches Ok(found) && found@.len() == 0),
{
    proof {
        lemma_tables();
    }
    let ghost rows = snapshot_rows(*txn);
    let ghost keys = snapshot_keys(*txn);
    let cooldown_ms: u64 = policy.cooldown.millis();
    let (start, end): (String, String) = dead_bounds(now_ms);
    let mut found: Vec<DueIndexKey> = Vec::new();
    let ghost mut list: Seq<Seq<char>> = Seq::empty();
    let mut cursor: String = copy_text(start.as_str());
    proof {
        lemma_walk_start(keys, dead_due(), start@, end@);
        assert(due_views(found@) =~= Seq::<DueView>::empty());
    }
    while found.len() < batch_limit
        invariant
            dead_due().len() == 16,
            rows == snapshot_rows(*txn),
            keys == snapshot_keys(*txn),
            cooldown_ms == millis(policy.cooldown@),
            start@ == dead_range_start(),
            end@ == dead_range_end(now_ms),
            found@.len() <= batch_limit,
            list.len() == found@.len(),
            walked(list, keys, dead_due(), start@, end@, cursor@),
            parsed_dead_all(list) == Some(due_views(found@)),
            forall|i: int|
                0 <= i < found@.len() ==> worth_redrive(
                    rows,
                    #[trigger] due_views(found@)[i],
                    cooldown_ms,
                    now_ms,
                ),
        decreases batch_limit - found@.len(),
    {
        let key: String = match read_first_key(
            txn,
            "dead_by_dept_due",
            cursor.as_str(),
            end.as_str(),
        ) {
            Err(e) => return Err(StoreError::Storage(e)),
            Ok(None) => {
                proof {
                    lemma_walk_done(
                        list,
                        keys,
                        dead_due(),
                        start@,
                        end@,
                        cursor@,
                        (list.len() + 1) as nat,
                    );
                    lemma_walk_front(list, keys, start@, end@, cursor@);
                    assert(whole_dead_range(list, keys, now_ms)) by {
                        assert forall|k: Seq<char>| #[trigger]
                            between(
                                keys,
                                dead_due(),
                                dead_range_start(),
                                dead_range_end(now_ms),
                                k,
                            ) implies list.contains(k) by {
                            assert(between(keys, dead_due(), start@, end@, k));
                        }
                    }
                    assert(dead_front(list, keys, now_ms));
                }
                return Ok(found);
            },
            Ok(Some(key)) => key,
        };
        let parsed: DueIndexKey = match parse_dead_due_index_key(key.as_str()) {
            None => {
                return Err(StoreError::BadIndexKey(key));
            },
            Some(parsed) => parsed,
        };
        let ghost next = list.push(key@);
        proof {
            lemma_walk_step(list, keys, dead_due(), start@, end@, cursor@, key@);
            lemma_walk_front(next, keys, start@, end@, successor(key@));
            lemma_walk_front(list, keys, start@, end@, cursor@);
        }
        let worth: bool = match get_dead(txn, parsed.delivery_id.as_str()) {
            Err(e) => return Err(e),
            Ok(None) => true,
            Ok(Some(d)) => d.dead_at_ms != parsed.due_ms || dead_redrive_cooldown_elapsed(
                d.dead_at_ms,
                cooldown_ms,
                now_ms,
            ),
        };
        if !worth {
            proof {
                assert(dead_front(list, keys, now_ms));
                assert(dead_front(list.push(key@), keys, now_ms));
                assert(stopped(list, rows, keys, cooldown_ms, now_ms));
            }
            return Ok(found);
        }
        cursor = copy_text(key.as_str());
        cursor.push('\0');
        let ghost had = due_views(found@);
        let ghost view = parsed@;
        found.push(parsed);
        proof {
            assert(due_views(found@) =~= had.push(view));
            assert(next.drop_last() =~= list);
            assert(next.last() == key@);
            list = next;
            assert(cursor@ =~= successor(key@));
        }
    }
    proof {
        lemma_walk_front(list, keys, start@, end@, cursor@);
        assert(dead_front(list, keys, now_ms));
    }
    Ok(found)
}

/// Finds the keys of dead deliveries that are worth a look, where there is anything to send again:
/// nothing is looked for where no delivery is wanted, and nothing is to be written where no key is
/// found.
pub fn plan_redrive(
    txn: &ReadTransaction,
    policy: &RedrivePolicy,
    now_ms: u64,
    batch_limit: usize,
) -> (r: Result<Option<Vec<DueIndexKey>>, StoreError>)
    ensures
        batch_limit == 0 ==> (r matches Ok(found) && found is None),
        match r {
            Ok(Some(found)) => found@.len() > 0 && due_dead(
                due_views(found@),
                snapshot_rows(*txn),
                snapshot_keys(*txn),
                millis(policy.cooldown@) as u64,
                now_ms,
                batch_limit as nat,
            ) && all_dead_read(due_views(found@)),
            Ok(None) => batch_limit == 0 || due_dead(
                Seq::empty(),
                snapshot_rows(*txn),
                snapshot_keys(*txn),
                millis(policy.cooldown@) as u64,
                now_ms,
                batch_limit as nat,
            ),
            Err(e) => e is Storage || (e is BadIndexKey && parsed_dead_key(
                e->BadIndexKey_0@,
            ) is None && snapshot_keys(*txn).contains((dead_due(), e->BadIndexKey_0@))),
        },
{
    if batch_limit == 0 {
        return Ok(None);
    }
    match collect_due_dead_keys(txn, policy, now_ms, batch_limit) {
        Err(e) => Err(e),
        Ok(found) => {
            if found.len() == 0 {
                assert(due_views(found@) =~= Seq::<DueView>::empty());
                Ok(None)
            } else {
                proof {
                    let list = choose|list: Seq<Seq<char>>| #[trigger]
                        dead_front(list, snapshot_keys(*txn), now_ms) && parsed_dead_all(list)
                            == Some(due_views(found@));
                    lemma_parsed_dead_read(list);
                }
                Ok(Some(found))
            }
        },
    }
}

/// What a walk has passed is the front of what it walks through.
proof fn lemma_walk_front(
    list: Seq<Seq<char>>,
    keys: Set<(Seq<char>, Seq<char>)>,
    from: Seq<char>,
    to: Seq<char>,
    cursor: Seq<char>,
)
    requires
        walked(list, keys, dead_due(), from, to, cursor),
    ensures
        first_keys(list, keys, dead_due(), from, to, list.len()),
{
    lemma_walk_done(list, keys, dead_due(), from, to, cursor, list.len());
}

// The next delivery, where one is taken at a time.

/// Whether one delivery goes before another: the one that was due earlier; of two due at the same
/// time by queue, department and id.
pub open spec fn goes_first(a: DeliveryView, b: DeliveryView) -> bool {
    if a.not_before_ms != b.not_before_ms {
        a.not_before_ms < b.not_before_ms
    } else if a.queue != b.queue {
        text_less(a.queue, b.queue)
    } else if a.dept != b.dept {
        text_less(a.dept, b.dept)
    } else {
        text_less(a.delivery_id, b.delivery_id)
    }
}

fn is_before(a: &DeliveryRecord, b: &DeliveryRecord) -> (r: bool)
    ensures
        r == goes_first(a@, b@),
{
    if a.not_before_ms != b.not_before_ms {
        a.not_before_ms < b.not_before_ms
    } else if !crate::text::same_text(a.queue.as_str(), b.queue.as_str()) {
        less_text(a.queue.as_str(), b.queue.as_str())
    } else if !crate::text::same_text(a.dept.as_str(), b.dept.as_str()) {
        less_text(a.dept.as_str(), b.dept.as_str())
    } else {
        less_text(a.delivery_id.as_str(), b.delivery_id.as_str())
    }
}

proof fn lemma_goes_first(a: DeliveryView, b: DeliveryView, c: DeliveryView)
    ensures
        !goes_first(b, a) && !goes_first(c, b) ==> !goes_first(c, a),
        !goes_first(a, a),
        !(goes_first(a, b) && goes_first(b, a)),
{
    lemma_less_total(a.queue, b.queue);
    lemma_less_total(b.queue, c.queue);
    lemma_less_total(a.queue, c.queue);
    lemma_less_total(a.dept, b.dept);
    lemma_less_total(b.dept, c.dept);
    lemma_less_total(a.dept, c.dept);
    lemma_less_total(a.delivery_id, b.delivery_id);
    lemma_less_total(b.delivery_id, c.delivery_id);
    lemma_less_total(a.delivery_id, c.delivery_id);
    lemma_less_total(a.delivery_id, a.delivery_id);
    lemma_at_most_transitive(a.queue, b.queue, c.queue);
    lemma_at_most_transitive(a.dept, b.dept, c.dept);
    lemma_at_most_transitive(a.delivery_id, b.delivery_id, c.delivery_id);
}

/// The deliveries that keys name, where they are there.
pub open spec fn named_deliveries(
    rows: Map<(Seq<char>, Seq<char>), Seq<u8>>,
    keys: Seq<DueView>,
) -> Seq<DeliveryView>
    decreases keys.len(),
{
    if keys.len() == 0 {
        Seq::empty()
    } else {
        let front = named_deliveries(rows, keys.drop_last());
        match live_among(rows, keys.last().delivery_id) {
            Some(d) => front.push(d),
            None => front,
        }
    }
}

/// The deliveries that are ready at a time, in the order of the index.
pub open spec fn due_ready(
    found: Seq<DeliveryView>,
    rows: Map<(Seq<char>, Seq<char>), Seq<u8>>,
    keys: Set<(Seq<char>, Seq<char>)>,
    now_ms: u64,
) -> bool {
    exists|due: Seq<DueView>| #[trigger]
        due_keys(due, keys, ready(), None, now_ms, usize::MAX as nat) && found == named_deliveries(
            rows,
            due,
        )
}

/// Why the deliveries that are ready cannot be told: a key of the index or a delivery cannot be
/// read.
pub open spec fn unreadable(
    e: StoreError,
    rows: Map<(Seq<char>, Seq<char>), Seq<u8>>,
    keys: Set<(Seq<char>, Seq<char>)>,
) -> bool {
    match e {
        StoreError::Storage(_) => true,
        StoreError::BadIndexKey(k) => keys.contains((ready(), k@)) && parsed_key(k@) is None,
        StoreError::Undecodable(id) => rows.contains_key((deliveries(), id@)) && live_among(
            rows,
            id@,
        ) is None,
        _ => false,
    }
}

/// The deliveries that are ready at a time.
pub fn due_ready_records(txn: &ReadTransaction, now_ms: u64) -> (r: Result<
    Vec<DeliveryRecord>,
    StoreError,
>)
    ensures
        match r {
            Ok(found) => due_ready(
                delivery_views(found@),
                snapshot_rows(*txn),
                snapshot_keys(*txn),
                now_ms,
            ),
            Err(e) => unreadable(e, snapshot_rows(*txn), snapshot_keys(*txn)),
        },
{
    proof {
        lemma_tables();
    }
    let keys: Vec<DueIndexKey> = match collect_due_keys(
        txn,
        "ready_by_dept_due",
        None,
        now_ms,
        usize::MAX,
    ) {
        Ok(keys) => keys,
        Err(e) => return Err(e),
    };
    let ghost views = due_views(keys@);
    let ghost rows = snapshot_rows(*txn);
    let mut found: Vec<DeliveryRecord> = Vec::new();
    let mut i: usize = 0;
    assert(delivery_views(found@) =~= Seq::<DeliveryView>::empty());
    while i < keys.len()
        invariant
            views == due_views(keys@),
            rows == snapshot_rows(*txn),
            i <= keys@.len(),
            delivery_views(found@) == named_deliveries(rows, views.take(i as int)),
        decreases keys@.len() - i,
    {
        proof {
            assert(views.take(i + 1).drop_last() =~= views.take(i as int));
            assert(views.take(i + 1).last() == keys@[i as int]@);
        }
        let ghost had = delivery_views(found@);
        match get(txn, keys[i].delivery_id.as_str()) {
            Err(e) => return Err(e),
            Ok(None) => {},
            Ok(Some(d)) => {
                let ghost v = d@;
                found.push(d);
                assert(delivery_views(found@) =~= had.push(v));
            },
        }
        i = i + 1;
    }
    assert(views.take(views.len() as int) =~= views);
    Ok(found)
}

/// The delivery that is taken next: one that no other goes before.
pub fn next_due(txn: &ReadTransaction, now_ms: u64) -> (r: Result<
    Option<DeliveryRecord>,
    StoreError,
>)
    ensures
        match r {
            Ok(next) => exists|found: Seq<DeliveryView>| #[trigger]
                due_ready(found, snapshot_rows(*txn), snapshot_keys(*txn), now_ms) && match next {
                    None => found.len() == 0,
                    Some(d) => found.contains(d@) && forall|i: int|
                        0 <= i < found.len() ==> !goes_first(#[trigger] found[i], d@),
                },
            Err(e) => unreadable(e, snapshot_rows(*txn), snapshot_keys(*txn)),
        },
{
    let mut found: Vec<DeliveryRecord> = match due_ready_records(txn, now_ms) {
        Ok(found) => found,
        Err(e) => return Err(e),
    };
    let ghost views = delivery_views(found@);
    if found.len() == 0 {
        return Ok(None);
    }
    let mut best: usize = 0;
    let mut i: usize = 1;
    proof {
        lemma_goes_first(views[0], views[0], views[0]);
    }
    while i < found.len()
        invariant
            views == delivery_views(found@),
            best < i <= found@.len(),
            forall|j: int| 0 <= j < i ==> !goes_first(#[trigger] views[j], views[best as int]),
        decreases found@.len() - i,
    {
        let ghost before = views[best as int];
        let ghost this = views[i as int];
        if is_before(&found[i], &found[best]) {
            proof {
                assert forall|j: int| 0 <= j < i + 1 implies !goes_first(
                    #[trigger] views[j],
                    this,
                ) by {
                    lemma_goes_first(this, before, views[j]);
                    lemma_goes_first(before, this, this);
                }
            }
            best = i;
        }
        i = i + 1;
    }
    assert(views[best as int] == found@[best as int]@);
    Ok(Some(found.swap_remove(best)))
}

/// Leases one delivery, where it is not leased and is due. A sound store stays sound.
pub fn lease_delivery(
    txn: &mut WriteTransaction,
    delivery_id: &str,
    now_ms: u64,
    lease_dur: Duration,
) -> (r: Result<Option<DeliveryRecord>, StoreError>)
    ensures
        match r {
            Ok(leased_record) => !corrupt(state_of(*old(txn)), delivery_id@) && match live_at(
                state_of(*old(txn)),
                delivery_id@,
            ) {
                Some(d) => if d.lease_until_ms is Some || d.not_before_ms > now_ms {
                    leased_record is None && state_of(*final(txn)) == state_of(*old(txn))
                } else {
                    let until = lease_end(now_ms, lease_dur@);
                    delivery_view(leased_record) == Some(with_lease(d, until)) && state_of(
                        *final(txn),
                    ) == state_of(*old(txn)).without_key(
                        ready(),
                        crate::delivery_index::index_key(d.dept, d.not_before_ms, delivery_id@),
                    ).with_row(
                        deliveries(),
                        delivery_id@,
                        delivery_bytes(with_lease(d, until)),
                    ).with_key(
                        leased(),
                        crate::delivery_index::index_key(d.dept, until, delivery_id@),
                    )
                },
                None => leased_record is None && state_of(*final(txn)) == state_of(*old(txn)),
            },
            Err(e) => e is Storage || (e is Undecodable && corrupt(
                state_of(*old(txn)),
                delivery_id@,
            )),
        },
        r is Ok ==> stays_sound(state_of(*old(txn)), state_of(*final(txn))),
        r matches Ok(Some(d)) ==> reads_back(d@),
        r matches Ok(Some(d)) ==> storable(d@) ==> held_lease(
            state_of(*final(txn)),
            delivery_id@,
            d@.lease_generation,
        ) == Some(d@),
{
    proof {
        lemma_tables();
    }
    let lease_until: u64 = now_ms.saturating_add(lease_dur.millis());
    let mut record: DeliveryRecord = match crate::delivery_store::read_delivery_table(
        txn,
        delivery_id,
    ) {
        Err(e) => return Err(e),
        Ok(None) => return Ok(None),
        Ok(Some(record)) => record,
    };
    let ghost before = record@;
    if record.lease_until_ms.is_some() || record.not_before_ms > now_ms {
        return Ok(None);
    }
    let old_key: String = crate::delivery_index::make_index_key(
        record.dept.as_str(),
        record.not_before_ms,
        delivery_id,
    );
    match remove_key(txn, "ready_by_dept_due", old_key.as_str()) {
        Ok(_) => {},
        Err(e) => return Err(StoreError::Storage(e)),
    }
    record.lease_generation = record.lease_generation.saturating_add(1);
    record.lease_until_ms = Some(lease_until);
    assert(record@ == with_lease(before, lease_until));
    let bytes: Vec<u8> = encode_delivery(&record);
    proof {
        if sound(state_of(*old(txn))) {
            lemma_lease_ready_sound(state_of(*old(txn)), delivery_id@, before, lease_until);
        }
    }
    match insert_row(txn, "delivery_by_id", delivery_id, bytes.as_slice()) {
        Ok(_) => {},
        Err(e) => return Err(StoreError::Storage(e)),
    }
    let new_key: String = crate::delivery_index::make_index_key(
        record.dept.as_str(),
        lease_until,
        delivery_id,
    );
    match insert_key(txn, "leased_by_dept_until", new_key.as_str()) {
        Ok(_) => Ok(Some(record)),
        Err(e) => Err(StoreError::Storage(e)),
    }
}

/// The ids of dead deliveries that have rested for long enough to be sent again, in the order of
/// the rows. The search ends as soon as there are as many as the limit says.
pub open spec fn rested_ids(rows: Seq<Row>, cooldown_ms: u64, now_ms: u64, limit: nat) -> Seq<
    Seq<char>,
>
    decreases rows.len(),
{
    if rows.len() == 0 {
        Seq::empty()
    } else {
        let front = rested_ids(rows.drop_last(), cooldown_ms, now_ms, limit);
        if front.len() > 0 && front.len() >= limit {
            front
        } else {
            match decode_dead(rows.last().value@) {
                Some(d) => if !is_terminal(d) && cooled_down(d.dead_at_ms, cooldown_ms, now_ms) {
                    front.push(d.delivery_id)
                } else {
                    front
                },
                None => front,
            }
        }
    }
}

proof fn lemma_rested_ids_stay(
    rows: Seq<Row>,
    n: int,
    cooldown_ms: u64,
    now_ms: u64,
    limit: nat,
)
    requires
        0 <= n <= rows.len(),
        ({
            let front = rested_ids(rows.take(n), cooldown_ms, now_ms, limit);
            front.len() > 0 && front.len() >= limit
        }),
    ensures
        rested_ids(rows, cooldown_ms, now_ms, limit) == rested_ids(
            rows.take(n),
            cooldown_ms,
            now_ms,
            limit,
        ),
    decreases rows.len() - n,
{
    if n == rows.len() {
        assert(rows.take(n) =~= rows);
    } else {
        assert(rows.take(n + 1).drop_last() =~= rows.take(n));
        lemma_rested_ids_stay(rows, n + 1, cooldown_ms, now_ms, limit);
    }
}

/// Finds the ids of dead deliveries that have rested for long enough by looking at every one.
pub fn collect_due_dead_ids(
    txn: &WriteTransaction,
    policy: &RedrivePolicy,
    now_ms: u64,
    batch_limit: usize,
) -> (r: Result<Vec<String>, StoreError>)
    ensures
        match r {
            Ok(ids) => exists|rows: Seq<Row>| #[trigger]
                lists_rows(rows, state_of(*txn).rows, dead()) && texts_view(ids@) == rested_ids(
                    rows,
                    millis(policy.cooldown@) as u64,
                    now_ms,
                    batch_limit as nat,
                ),
            Err(e) => e is Storage,
        },
{
    proof {
        lemma_tables();
    }
    let cooldown_ms: u64 = policy.cooldown.millis();
    let rows: Vec<Row> = match list_rows(txn, "dead_by_id") {
        Ok(rows) => rows,
        Err(e) => return Err(StoreError::Storage(e)),
    };
    let mut due: Vec<String> = Vec::new();
    let mut i: usize = 0;
    assert(texts_view(due@) =~= Seq::<Seq<char>>::empty());
    while i < rows.len()
        invariant
            i <= rows@.len(),
            lists_rows(rows@, state_of(*txn).rows, dead()),
            cooldown_ms == millis(policy.cooldown@),
            texts_view(due@) == rested_ids(
                rows@.take(i as int),
                cooldown_ms,
                now_ms,
                batch_limit as nat,
            ),
        decreases rows@.len() - i,
    {
        if due.len() > 0 && due.len() >= batch_limit {
            proof {
                lemma_rested_ids_stay(
                    rows@,
                    i as int,
                    cooldown_ms,
                    now_ms,
                    batch_limit as nat,
                );
            }
            return Ok(due);
        }
        let ghost had = texts_view(due@);
        assert(rows@.take(i + 1).drop_last() =~= rows@.take(i as int));
        match decode_dead_record(rows[i].value.as_slice()) {
            None => {},
            Some(d) => {
                if !(d.permanent || !d.replayable) && dead_redrive_cooldown_elapsed(
                    d.dead_at_ms,
                    cooldown_ms,
                    now_ms,
                ) {
                    let ghost id = d@.delivery_id;
                    due.push(d.delivery_id);
                    assert(texts_view(due@) =~= had.push(id));
                }
            },
        }
        i = i + 1;
    }
    assert(rows@.take(rows@.len() as int) =~= rows@);
    Ok(due)
}

} // verus!
