//! The durable delivery store: a state machine over the tables of a redb transaction.
//!
//! Every operation works inside a transaction that the caller begins, and ends by a commit where
//! the operation says that something changed, or by dropping it. After an error the transaction is
//! dropped.

use vstd::prelude::*;
use vstd::string::*;
use crate::delivery_index::{
    dead_index_key, due_views, make_dead_due_index_key, make_index_key, parse_dead_due_index_key,
    parsed_dead_key, parsed_key, DueIndexKey, DueView,
};
use crate::delivery_retry::{
    backoff_delay, backoff_millis, bounded_jitter, error_excerpt, jitter_bound,
};
use crate::delivery_scan::{collect_due_keys, due_keys, first_keys, stored_range, StoreError};
use crate::delivery_types::{
    copy_delivery, copy_source, dead_view, dead_views, delivery_view, delivery_views, same_source,
    DeadRecord, DeadView, DeliveryRecord, DeliveryView, RedrivePolicy, RetryPolicy,
};
use crate::digest::{fnv1a64, FNV_OFFSET};
use crate::duration::{millis, Duration};
use crate::json::{same_json, same_optional_json};
use crate::numeral::{padded_hex_text, push_padded_decimal};
use crate::record_codec::{
    all_dead_read_back, all_read_back, dead_bytes, dead_reads_back, decode_dead_record, encode_dead,
    encode_delivery, is_dead_written, is_written, read_delivery, reads_back,
};
use crate::store_model::{
    acked, after_failure, awaits_redrive, compactable, compacted, compaction_run, compaction_step,
    compaction_stuck, conflicts, cooled_down, corrupt, dead_at, dead_of, dead_range_end,
    dead_range_start, defer_outcome, deferred, duplicates_leased, enqueued, expired_quota,
    first_slot, found_from, given_up, giving_up, held_lease, is_terminal,
    law_redrive_stops_where_stuck, law_suppression_holds, lease_batch, lease_run, lemma_tables,
    live_at, marked_dirty, parsed_dead_all, plus_capped, put_off, redrive_run, redrive_step,
    redrive_stuck, redriven, renewal_corrupt, renewed, renewed_all, renewed_records, retried,
    retry_at, retry_outcome, same_content, slot_key, suppressed, suppressing, suppressing_from,
    tombstone, FailureView, LeaseRun, LockBusyDeferOutcome, RedriveRun, RedriveStep, RetryOutcome,
    TERMINAL_DEAD_COMPACTION_LIMIT, TERMINAL_DEAD_RETENTION_MS, TERMINAL_SUPPRESSION_SLOTS,
};
use crate::store_laws::{law_compaction_keeps, law_compaction_spares_the_recent};
use crate::store_invariant::{
    all_dead_read, all_read, lemma_ack_sound, lemma_bury_sound, lemma_compaction_step_sound,
    lemma_due_keys_read, lemma_enqueue_sound, lemma_mark_sound, lemma_parsed_dead_read,
    lemma_redrive_step_sound, lemma_renew_sound, lemma_reschedule_sound, sound, sound_at,
    stays_sound, tidy,
};
use crate::store_leases::{keys_stand, law_a_batch_keeps_a_store_sound, BatchCall};
use crate::store_history::after_compaction;
use crate::store_redrives::{law_redrive_tells_what_is_there, told_truly};
use crate::tables::{
    get_row, get_text, insert_key, insert_row, insert_text, keeps_tables, remove_key, remove_row,
    snapshot_keys, state_of, StoreState,
};
use crate::text::{copy_text, same_text, texts_view};
use redb::{ReadTransaction, WriteTransaction};

verus! {

/// The delivery under an id.
pub(crate) fn read_delivery_table(txn: &WriteTransaction, delivery_id: &str) -> (r: Result<
    Option<DeliveryRecord>,
    StoreError,
>)
    ensures
        match r {
            Ok(Some(d)) => live_at(state_of(*txn), delivery_id@) == Some(d@),
            Ok(None) => state_of(*txn).row(
                crate::store_model::deliveries(),
                delivery_id@,
            ) is None,
            Err(e) => e is Storage || (e is Undecodable && e->Undecodable_0@ == delivery_id@
                && corrupt(state_of(*txn), delivery_id@)),
        },
{
    proof {
        lemma_tables();
    }
    match get_row(txn, "delivery_by_id", delivery_id) {
        Err(e) => Err(StoreError::Storage(e)),
        Ok(None) => Ok(None),
        Ok(Some(bytes)) => match read_delivery(bytes.as_slice()) {
            Some(d) => Ok(Some(d)),
            None => Err(StoreError::Undecodable(copy_text(delivery_id))),
        },
    }
}

/// The dead delivery under an id, where it can be read.
fn read_dead_table(txn: &WriteTransaction, delivery_id: &str) -> (r: Result<
    Option<DeadRecord>,
    redb::Error,
>)
    ensures
        r matches Ok(d) ==> dead_view(d) == dead_at(state_of(*txn), delivery_id@),
{
    proof {
        lemma_tables();
    }
    match get_row(txn, "dead_by_id", delivery_id) {
        Err(e) => Err(e),
        Ok(None) => Ok(None),
        Ok(Some(bytes)) => Ok(decode_dead_record(bytes.as_slice())),
    }
}

fn slot_key_text(start: u64, offset: u64) -> (r: String)
    requires
        start < TERMINAL_SUPPRESSION_SLOTS,
        offset < TERMINAL_SUPPRESSION_SLOTS,
    ensures
        r@ == crate::numeral::zero_padded(
            crate::numeral::hex(
                ((start + offset) as nat) % TERMINAL_SUPPRESSION_SLOTS as nat,
            ),
            5,
        ),
{
    padded_hex_text((start + offset) % TERMINAL_SUPPRESSION_SLOTS, 5)
}

fn start_slot(delivery_id: &str) -> (r: u64)
    ensures
        r == first_slot(delivery_id@),
        r < TERMINAL_SUPPRESSION_SLOTS,
{
    fnv1a64(FNV_OFFSET, delivery_id.as_bytes()) % TERMINAL_SUPPRESSION_SLOTS
}

/// Sees to it that a delivery does not come back.
pub fn suppress_terminal_delivery(txn: &mut WriteTransaction, delivery_id: &str) -> (r: Result<
    (),
    StoreError,
>)
    ensures
        match r {
            Ok(_) => suppressing(state_of(*old(txn)), delivery_id@) == Some(
                state_of(*final(txn)),
            ),
            Err(e) => e is Storage || (e is SuppressionExhausted
                && e->SuppressionExhausted_0@ == delivery_id@ && suppressing(
                state_of(*old(txn)),
                delivery_id@,
            ) is None),
        },
        r is Ok ==> keeps_tables(*old(txn), *final(txn)),
{
    let ghost s = state_of(*txn);
    let start: u64 = start_slot(delivery_id);
    let mut offset: u64 = 0;
    proof {
        lemma_tables();
    }
    while offset < TERMINAL_SUPPRESSION_SLOTS
        invariant
            keeps_tables(*old(txn), *txn),
            crate::store_model::suppression().len() == 28,
            s == state_of(*txn),
            s == state_of(*old(txn)),
            start == first_slot(delivery_id@),
            start < TERMINAL_SUPPRESSION_SLOTS,
            offset <= TERMINAL_SUPPRESSION_SLOTS,
            suppressing(s, delivery_id@) == suppressing_from(s, delivery_id@, offset as nat),
        decreases TERMINAL_SUPPRESSION_SLOTS - offset,
    {
        let slot: String = slot_key_text(start, offset);
        assert(slot@ == slot_key(delivery_id@, offset as nat));
        match get_text(txn, "terminal_suppression_by_slot", slot.as_str()) {
            Err(e) => return Err(StoreError::Storage(e)),
            Ok(Some(held)) => {
                if same_text(held.as_str(), delivery_id) {
                    return Ok(());
                }
            },
            Ok(None) => {
                return match insert_text(
                    txn,
                    "terminal_suppression_by_slot",
                    slot.as_str(),
                    delivery_id,
                ) {
                    Ok(_) => Ok(()),
                    Err(e) => Err(StoreError::Storage(e)),
                };
            },
        }
        offset = offset + 1;
    }
    Err(StoreError::SuppressionExhausted(copy_text(delivery_id)))
}

/// Whether a delivery must not come back.
pub fn terminal_delivery_is_suppressed(txn: &WriteTransaction, delivery_id: &str) -> (r: Result<
    bool,
    StoreError,
>)
    ensures
        match r {
            Ok(yes) => yes == suppressed(state_of(*txn), delivery_id@),
            Err(e) => e is Storage,
        },
{
    let ghost s = state_of(*txn);
    let start: u64 = start_slot(delivery_id);
    let mut offset: u64 = 0;
    proof {
        lemma_tables();
    }
    while offset < TERMINAL_SUPPRESSION_SLOTS
        invariant
            crate::store_model::suppression().len() == 28,
            s == state_of(*txn),
            start == first_slot(delivery_id@),
            start < TERMINAL_SUPPRESSION_SLOTS,
            offset <= TERMINAL_SUPPRESSION_SLOTS,
            suppressed(s, delivery_id@) == found_from(s, delivery_id@, offset as nat),
        decreases TERMINAL_SUPPRESSION_SLOTS - offset,
    {
        let slot: String = slot_key_text(start, offset);
        assert(slot@ == slot_key(delivery_id@, offset as nat));
        match get_text(txn, "terminal_suppression_by_slot", slot.as_str()) {
            Err(e) => return Err(StoreError::Storage(e)),
            Ok(None) => return Ok(false),
            Ok(Some(held)) => {
                if same_text(held.as_str(), delivery_id) {
                    return Ok(true);
                }
            },
        }
        offset = offset + 1;
    }
    Ok(false)
}

/// Whether a dead delivery stays dead.
pub fn is_terminal_dead_record(d: &DeadRecord) -> (r: bool)
    ensures
        r == is_terminal(d@),
{
    d.permanent || !d.replayable
}

/// Whether a dead delivery waits to be sent again.
pub fn should_index_dead_record(d: &DeadRecord) -> (r: bool)
    ensures
        r == awaits_redrive(d@),
{
    !d.permanent && d.replayable && d.record.is_some()
}

fn parse_dead_list(list: &Vec<String>) -> (r: Result<Vec<DueIndexKey>, StoreError>)
    ensures
        match r {
            Ok(keys) => parsed_dead_all(texts_view(list@)) == Some(due_views(keys@)),
            Err(e) => e is BadIndexKey && parsed_dead_key(e->BadIndexKey_0@) is None && texts_view(
                list@,
            ).contains(e->BadIndexKey_0@),
        },
{
    let ghost views = texts_view(list@);
    let mut keys: Vec<DueIndexKey> = Vec::new();
    let mut i: usize = 0;
    assert(due_views(keys@) =~= Seq::<DueView>::empty());
    while i < list.len()
        invariant
            views == texts_view(list@),
            i <= list@.len(),
            parsed_dead_all(views.take(i as int)) == Some(due_views(keys@)),
        decreases list@.len() - i,
    {
        proof {
            assert(views.take(i + 1).drop_last() =~= views.take(i as int));
            assert(views.take(i + 1).last() == list@[i as int]@);
            assert(views[i as int] == list@[i as int]@);
        }
        match parse_dead_due_index_key(list[i].as_str()) {
            None => {
                return Err(StoreError::BadIndexKey(copy_text(list[i].as_str())));
            },
            Some(key) => {
                let ghost before = due_views(keys@);
                let ghost k = key@;
                keys.push(key);
                assert(due_views(keys@) =~= before.push(k));
            },
        }
        i = i + 1;
    }
    assert(views.take(views.len() as int) =~= views);
    Ok(keys)
}

pub(crate) fn dead_bounds(ms: u64) -> (r: (String, String))
    ensures
        r.0@ == dead_range_start(),
        r.1@ == dead_range_end(ms),
{
    let mut start: String = String::new();
    push_padded_decimal(&mut start, 0, 20);
    assert(start@ =~= crate::delivery_index::time_code(0));
    start.append("/");
    let mut end: String = String::new();
    push_padded_decimal(&mut end, ms, 20);
    assert(end@ =~= crate::delivery_index::time_code(ms));
    end.append("/");
    end.append("\u{10ffff}");
    (start, end)
}

fn collect_compactable_terminal_dead_keys(txn: &WriteTransaction, cutoff_ms: u64) -> (r: Result<
    Vec<DueIndexKey>,
    StoreError,
>)
    ensures
        match r {
            Ok(keys) => compactable(due_views(keys@), state_of(*txn), cutoff_ms)
                && keys@.len() <= TERMINAL_DEAD_COMPACTION_LIMIT,
            Err(e) => e is Storage || (e is BadIndexKey && state_of(*txn).has_key(
                crate::store_model::terminal(),
                e->BadIndexKey_0@,
            ) && parsed_dead_key(e->BadIndexKey_0@) is None),
        },
{
    proof {
        lemma_tables();
    }
    let (start, end): (String, String) = dead_bounds(cutoff_ms);
    match stored_range(
        txn,
        "terminal_dead_by_time",
        start.as_str(),
        end.as_str(),
        TERMINAL_DEAD_COMPACTION_LIMIT,
    ) {
        Err(e) => Err(StoreError::Storage(e)),
        Ok(list) => {
            assert(first_keys(
                texts_view(list@),
                state_of(*txn).keys,
                crate::store_model::terminal(),
                dead_range_start(),
                dead_range_end(cutoff_ms),
                TERMINAL_DEAD_COMPACTION_LIMIT as nat,
            ));
            match parse_dead_list(&list) {
                Ok(keys) => {
                    proof {
                        lemma_parsed_dead_len(texts_view(list@));
                    }
                    Ok(keys)
                },
                Err(e) => Err(e),
            }
        },
    }
}

proof fn lemma_parsed_dead_len(list: Seq<Seq<char>>)
    ensures
        parsed_dead_all(list) matches Some(keys) ==> keys.len() == list.len(),
    decreases list.len(),
{
    if list.len() > 0 {
        lemma_parsed_dead_len(list.drop_last());
    }
}

/// Why a compaction can fail: a key of the index cannot be read, or no slot is left for the delivery
/// that is named.
pub open spec fn compaction_failure(s: StoreState, now_ms: u64, e: StoreError) -> bool {
    match e {
        StoreError::Storage(_) => true,
        StoreError::BadIndexKey(k) => now_ms >= TERMINAL_DEAD_RETENTION_MS && s.has_key(
            crate::store_model::terminal(),
            k@,
        ) && parsed_dead_key(k@) is None,
        StoreError::SuppressionExhausted(id) => now_ms >= TERMINAL_DEAD_RETENTION_MS && exists|
            keys: Seq<DueView>,
        | #[trigger]
            compactable(keys, s, (now_ms - TERMINAL_DEAD_RETENTION_MS) as u64) && compaction_stuck(
                s,
                keys,
                (now_ms - TERMINAL_DEAD_RETENTION_MS) as u64,
            ) == Some(id@),
        _ => false,
    }
}

fn compact_key(txn: &mut WriteTransaction, key: &DueIndexKey, cutoff_ms: u64) -> (r: Result<
    bool,
    StoreError,
>)
    ensures
        match r {
            Ok(true) => compaction_step(state_of(*old(txn)), key@, cutoff_ms) == Some(
                Some(state_of(*final(txn))),
            ),
            Ok(false) => compaction_step(state_of(*old(txn)), key@, cutoff_ms) == Some(
                None::<StoreState>,
            ) && state_of(*final(txn)) == state_of(*old(txn)),
            Err(e) => e is Storage || (e is SuppressionExhausted && e->SuppressionExhausted_0@
                == key@.delivery_id && compaction_step(
                state_of(*old(txn)),
                key@,
                cutoff_ms,
            ) is None),
        },
{
    proof {
        reveal(compaction_step);
        lemma_tables();
    }
    let delivery_id: &str = key.delivery_id.as_str();
    let record: DeadRecord = match read_dead_table(txn, delivery_id) {
        Err(e) => return Err(StoreError::Storage(e)),
        Ok(None) => {
            return match remove_key(txn, "terminal_dead_by_time", key.key.as_str()) {
                Ok(_) => Ok(true),
                Err(e) => Err(StoreError::Storage(e)),
            };
        },
        Ok(Some(record)) => record,
    };
    let own_key: String = make_dead_due_index_key(
        record.dept.as_str(),
        record.dead_at_ms,
        delivery_id,
    );
    if record.dead_at_ms != key.due_ms || !is_terminal_dead_record(&record) {
        match remove_key(txn, "terminal_dead_by_time", key.key.as_str()) {
            Ok(_) => {},
            Err(e) => return Err(StoreError::Storage(e)),
        }
        if is_terminal_dead_record(&record) {
            match insert_key(txn, "terminal_dead_by_time", own_key.as_str()) {
                Ok(_) => {},
                Err(e) => return Err(StoreError::Storage(e)),
            }
            match suppress_terminal_delivery(txn, delivery_id) {
                Ok(_) => {},
                Err(e) => return Err(e),
            }
        }
        return Ok(true);
    }
    if record.dead_at_ms > cutoff_ms {
        return Ok(false);
    }
    match remove_row(txn, "dead_by_id", delivery_id) {
        Ok(_) => {},
        Err(e) => return Err(StoreError::Storage(e)),
    }
    match remove_key(txn, "terminal_dead_by_time", key.key.as_str()) {
        Ok(_) => {},
        Err(e) => return Err(StoreError::Storage(e)),
    }
    match remove_key(txn, "dead_by_dept_due", own_key.as_str()) {
        Ok(_) => Ok(true),
        Err(e) => Err(StoreError::Storage(e)),
    }
}

/// Drops deliveries that have been dead for good for longer than the retention, a bounded number
/// at a time. Returns how many keys were looked at. A sound store stays sound.
pub fn compact_terminal_dead_records(txn: &mut WriteTransaction, now_ms: u64) -> (r: Result<
    usize,
    StoreError,
>)
    ensures
        match r {
            Ok(n) => compacted(state_of(*old(txn)), now_ms, state_of(*final(txn)), n as nat),
            Err(e) => compaction_failure(state_of(*old(txn)), now_ms, e),
        },
        r is Ok ==> stays_sound(state_of(*old(txn)), state_of(*final(txn))),
        now_ms < TERMINAL_DEAD_RETENTION_MS ==> r is Ok,
{
    if now_ms < TERMINAL_DEAD_RETENTION_MS {
        return Ok(0);
    }
    let cutoff_ms: u64 = now_ms - TERMINAL_DEAD_RETENTION_MS;
    let ghost s = state_of(*txn);
    let keys: Vec<DueIndexKey> = match collect_compactable_terminal_dead_keys(txn, cutoff_ms) {
        Ok(keys) => keys,
        Err(e) => return Err(e),
    };
    let ghost views = due_views(keys@);
    proof {
        let list = choose|list: Seq<Seq<char>>| #[trigger]
            first_keys(
                list,
                s.keys,
                crate::store_model::terminal(),
                dead_range_start(),
                dead_range_end(cutoff_ms),
                TERMINAL_DEAD_COMPACTION_LIMIT as nat,
            ) && parsed_dead_all(list) == Some(views);
        lemma_parsed_dead_read(list);
    }
    let mut count: usize = 0;
    let mut i: usize = 0;
    assert(views.skip(0) =~= views);
    while i < keys.len()
        invariant
            views == due_views(keys@),
            s == state_of(*old(txn)),
            cutoff_ms == now_ms - TERMINAL_DEAD_RETENTION_MS,
            now_ms >= TERMINAL_DEAD_RETENTION_MS,
            compactable(views, s, cutoff_ms),
            i <= keys@.len(),
            keys@.len() <= TERMINAL_DEAD_COMPACTION_LIMIT,
            count == i,
            all_dead_read(views),
            stays_sound(s, state_of(*txn)),
            compaction_run(s, views, cutoff_ms, 0) == compaction_run(
                state_of(*txn),
                views.skip(i as int),
                cutoff_ms,
                count as nat,
            ),
            compaction_stuck(s, views, cutoff_ms) == compaction_stuck(
                state_of(*txn),
                views.skip(i as int),
                cutoff_ms,
            ),
        decreases keys@.len() - i,
    {
        proof {
            assert(views.skip(i as int)[0] == keys@[i as int]@);
            assert(views.skip(i as int).drop_first() =~= views.skip(i + 1));
            assert(parsed_dead_key(views[i as int].key) == Some(views[i as int]));
            if sound(state_of(*txn)) {
                lemma_compaction_step_sound(state_of(*txn), views[i as int], cutoff_ms);
            }
        }
        match compact_key(txn, &keys[i], cutoff_ms) {
            Err(e) => return Err(e),
            Ok(false) => {
                return Ok(count);
            },
            Ok(true) => {},
        }
        count = count + 1;
        i = i + 1;
    }
    Ok(count)
}

/// Whether two records are the same delivery, apart from how far it has come.
pub fn same_delivery_content(left: &DeliveryRecord, right: &DeliveryRecord) -> (r: bool)
    ensures
        r == same_content(left@, right@),
{
    same_text(left.delivery_id.as_str(), right.delivery_id.as_str()) && same_text(
        left.queue.as_str(),
        right.queue.as_str(),
    ) && same_text(left.dept.as_str(), right.dept.as_str()) && same_json(
        &left.payload,
        &right.payload,
    ) && same_source(&left.source, &right.source) && same_optional_json(
        &left.cron_payload,
        &right.cron_payload,
    )
}

/// Puts a delivery in. One that is there already is left as it is, but for a mark where it is leased
/// and the same by its key; one with the same id and other contents is refused, unless either is
/// collapsed by its id; one that must not come back is dropped. A sound store stays sound.
pub fn enqueue(txn: &mut WriteTransaction, record: &DeliveryRecord) -> (r: Result<(), StoreError>)
    ensures
        match r {
            Ok(_) => !corrupt(state_of(*old(txn)), record@.delivery_id) && !conflicts(
                state_of(*old(txn)),
                record@,
            ) && enqueued(state_of(*old(txn)), record@, state_of(*final(txn))),
            Err(StoreError::ConflictingDuplicate(id)) => id@ == record@.delivery_id && conflicts(
                state_of(*old(txn)),
                record@,
            ),
            Err(StoreError::Undecodable(id)) => id@ == record@.delivery_id && corrupt(
                state_of(*old(txn)),
                record@.delivery_id,
            ),
            Err(e) => state_of(*old(txn)).row(
                crate::store_model::deliveries(),
                record@.delivery_id,
            ) is None && compaction_failure(state_of(*old(txn)), record@.observed_at_ms, e) || e
                is Storage,
        },
        r is Ok && record@.lease_until_ms is None ==> stays_sound(
            state_of(*old(txn)),
            state_of(*final(txn)),
        ),
        r is Ok && state_of(*old(txn)).row(
            crate::store_model::deliveries(),
            record@.delivery_id,
        ) is None && !suppressed(state_of(*final(txn)), record@.delivery_id) ==> is_written(
            live_at(state_of(*final(txn)), record@.delivery_id),
            record@,
        ),
        r is Ok && duplicates_leased(state_of(*old(txn)), record@) ==> is_written(
            live_at(state_of(*final(txn)), record@.delivery_id),
            marked_dirty(live_at(state_of(*old(txn)), record@.delivery_id)->0),
        ),
        r matches Err(StoreError::ConflictingDuplicate(_)) ==> state_of(*final(txn)) == state_of(
            *old(txn),
        ),
{
    proof {
        lemma_tables();
    }
    let delivery_id: &str = record.delivery_id.as_str();
    match read_delivery_table(txn, delivery_id) {
        Err(e) => return Err(e),
        Ok(Some(mut current)) => {
            if current.collapse_by_dedup_id || record.collapse_by_dedup_id {
                if current.lease_until_ms.is_none() {
                    return Ok(());
                }
                let ghost s = state_of(*txn);
                let ghost was = current@;
                current.pending_dirty = true;
                assert(current@ == marked_dirty(was));
                let bytes: Vec<u8> = encode_delivery(&current);
                proof {
                    if sound(s) {
                        assert(sound_at(s, delivery_id@));
                        lemma_mark_sound(s, delivery_id@, was);
                    }
                }
                return match insert_row(txn, "delivery_by_id", delivery_id, bytes.as_slice()) {
                    Err(e) => Err(StoreError::Storage(e)),
                    Ok(_) => Ok(()),
                };
            }
            if same_delivery_content(&current, record) {
                return Ok(());
            }
            return Err(StoreError::ConflictingDuplicate(copy_text(delivery_id)));
        },
        Ok(None) => {},
    }
    let ghost s = state_of(*txn);
    let count: usize = match compact_terminal_dead_records(txn, record.observed_at_ms) {
        Err(e) => return Err(e),
        Ok(count) => count,
    };
    let ghost mid = state_of(*txn);
    assert(compacted(s, record@.observed_at_ms, mid, count as nat));
    match terminal_delivery_is_suppressed(txn, delivery_id) {
        Err(e) => return Err(e),
        Ok(true) => return Ok(()),
        Ok(false) => {},
    }
    let bytes: Vec<u8> = encode_delivery(record);
    match insert_row(txn, "delivery_by_id", delivery_id, bytes.as_slice()) {
        Err(e) => return Err(StoreError::Storage(e)),
        Ok(_) => {},
    }
    let key: String = make_index_key(record.dept.as_str(), record.not_before_ms, delivery_id);
    proof {
        law_compaction_keeps(s, record@.observed_at_ms, mid, count as nat);
        if sound(mid) && record@.lease_until_ms is None {
            lemma_enqueue_sound(mid, record@);
        }
    }
    match insert_key(txn, "ready_by_dept_due", key.as_str()) {
        Err(e) => Err(StoreError::Storage(e)),
        Ok(_) => Ok(()),
    }
}

// Leases.

/// How many deliveries of a batch may be ones whose lease has run out.
pub fn expired_lease_quota(batch_limit: usize) -> (r: usize)
    ensures
        r == expired_quota(batch_limit as nat),
{
    if batch_limit == 0 {
        0
    } else if batch_limit / 2 >= 1 {
        batch_limit / 2
    } else {
        1
    }
}

/// How many keys are looked at for a batch: eight for each delivery, and one for each that is left
/// out.
pub open spec fn budget(batch_limit: nat, excluded_len: nat) -> nat {
    let scaled = if batch_limit * 8 <= usize::MAX {
        batch_limit * 8
    } else {
        usize::MAX as nat
    };
    if scaled + excluded_len <= usize::MAX {
        scaled + excluded_len
    } else {
        usize::MAX as nat
    }
}

pub fn scan_budget(batch_limit: usize, excluded_len: usize) -> (r: usize)
    ensures
        r == budget(batch_limit as nat, excluded_len as nat),
{
    let scaled: usize = match batch_limit.checked_mul(8) {
        Some(n) => n,
        None => usize::MAX,
    };
    scaled.saturating_add(excluded_len)
}

/// The keys that a batch is leased from.
pub struct LeaseableKeys {
    pub expired: Vec<DueIndexKey>,
    pub ready: Vec<DueIndexKey>,
}

pub open spec fn optional_view(s: Option<&str>) -> Option<Seq<char>> {
    match s {
        Some(v) => Some(v@),
        None => None,
    }
}

/// The keys of the leases that have run out, up to their quota.
pub open spec fn expired_leases(
    found: Seq<DueView>,
    keys: Set<(Seq<char>, Seq<char>)>,
    dept: Option<Seq<char>>,
    now_ms: u64,
    batch_limit: nat,
    excluded_len: nat,
) -> bool {
    exists|all: Seq<DueView>| #[trigger]
        due_keys(
            all,
            keys,
            crate::store_model::leased(),
            dept,
            now_ms,
            budget(batch_limit, excluded_len),
        ) && found == if all.len() <= expired_quota(batch_limit) {
            all
        } else {
            all.take(expired_quota(batch_limit) as int)
        }
}

/// Whether these are the keys that a batch is leased from.
pub open spec fn leaseable(
    found: LeaseableKeys,
    keys: Set<(Seq<char>, Seq<char>)>,
    dept: Option<Seq<char>>,
    now_ms: u64,
    batch_limit: nat,
    excluded_len: nat,
) -> bool {
    &&& expired_leases(
        due_views(found.expired@),
        keys,
        dept,
        now_ms,
        batch_limit,
        excluded_len,
    )
    &&& due_keys(
        due_views(found.ready@),
        keys,
        crate::store_model::ready(),
        dept,
        now_ms,
        budget(batch_limit, excluded_len),
    )
    &&& all_read(due_views(found.expired@))
    &&& all_read(due_views(found.ready@))
}

/// Whether a key of the indexes of live deliveries cannot be read.
pub open spec fn bad_live_key(e: StoreError, keys: Set<(Seq<char>, Seq<char>)>) -> bool {
    e is BadIndexKey && parsed_key(e->BadIndexKey_0@) is None && (keys.contains(
        (crate::store_model::leased(), e->BadIndexKey_0@),
    ) || keys.contains((crate::store_model::ready(), e->BadIndexKey_0@)))
}

/// Finds the keys that a batch is leased from: of leases that have run out, and of deliveries that
/// are ready.
pub fn collect_leaseable_keys(
    txn: &ReadTransaction,
    now_ms: u64,
    batch_limit: usize,
    dept: Option<&str>,
    excluded: &Vec<String>,
) -> (r: Result<LeaseableKeys, StoreError>)
    ensures
        match r {
            Ok(found) => leaseable(
                found,
                snapshot_keys(*txn),
                optional_view(dept),
                now_ms,
                batch_limit as nat,
                excluded@.len(),
            ),
            Err(e) => e is Storage || bad_live_key(e, snapshot_keys(*txn)),
        },
        budget(batch_limit as nat, excluded@.len()) == 0 ==> r is Ok,
{
    proof {
        lemma_tables();
    }
    let quota: usize = expired_lease_quota(batch_limit);
    let limit: usize = scan_budget(batch_limit, excluded.len());
    let mut expired: Vec<DueIndexKey> = match collect_due_keys(
        txn,
        "leased_by_dept_until",
        dept,
        now_ms,
        limit,
    ) {
        Ok(keys) => keys,
        Err(e) => return Err(e),
    };
    let ghost all = due_views(expired@);
    proof {
        lemma_due_keys_read(
            all,
            snapshot_keys(*txn),
            crate::store_model::leased(),
            optional_view(dept),
            now_ms,
            limit as nat,
        );
    }
    if expired.len() > quota {
        expired.truncate(quota);
        assert(due_views(expired@) =~= all.take(quota as int));
    }
    let ready: Vec<DueIndexKey> = match collect_due_keys(
        txn,
        "ready_by_dept_due",
        dept,
        now_ms,
        limit,
    ) {
        Ok(keys) => keys,
        Err(e) => return Err(e),
    };
    proof {
        lemma_due_keys_read(
            due_views(ready@),
            snapshot_keys(*txn),
            crate::store_model::ready(),
            optional_view(dept),
            now_ms,
            limit as nat,
        );
    }
    Ok(LeaseableKeys { expired, ready })
}

/// Finds the keys that a batch is leased from, where there is anything to lease: nothing is looked
/// for where no delivery is wanted, and nothing is to be written where no key is found.
pub fn plan_lease(
    txn: &ReadTransaction,
    now_ms: u64,
    batch_limit: usize,
    dept: Option<&str>,
    excluded: &Vec<String>,
) -> (r: Result<Option<LeaseableKeys>, StoreError>)
    ensures
        batch_limit == 0 ==> (r matches Ok(found) && found is None),
        match r {
            Ok(Some(found)) => (found.expired@.len() > 0 || found.ready@.len() > 0) && leaseable(
                found,
                snapshot_keys(*txn),
                optional_view(dept),
                now_ms,
                batch_limit as nat,
                excluded@.len(),
            ),
            Ok(None) => batch_limit == 0 || exists|none: LeaseableKeys| #[trigger]
                leaseable(
                    none,
                    snapshot_keys(*txn),
                    optional_view(dept),
                    now_ms,
                    batch_limit as nat,
                    excluded@.len(),
                ) && none.expired@.len() == 0 && none.ready@.len() == 0,
            Err(e) => e is Storage || bad_live_key(e, snapshot_keys(*txn)),
        },
{
    if batch_limit == 0 {
        return Ok(None);
    }
    match collect_leaseable_keys(txn, now_ms, batch_limit, dept, excluded) {
        Err(e) => Err(e),
        Ok(found) => {
            if found.expired.len() == 0 && found.ready.len() == 0 {
                assert(leaseable(
                    found,
                    snapshot_keys(*txn),
                    optional_view(dept),
                    now_ms,
                    batch_limit as nat,
                    excluded@.len(),
                ));
                Ok(None)
            } else {
                Ok(Some(found))
            }
        },
    }
}

/// When a lease that is taken now runs out.
pub open spec fn lease_end(now_ms: u64, lease: nat) -> u64 {
    plus_capped(now_ms, millis(lease))
}

/// The leased deliveries, and whether anything changed.
pub struct LeaseBatch {
    pub leased: Vec<DeliveryRecord>,
    pub mutated: bool,
}

pub open spec fn batch_of(batch: LeaseBatch, state: StoreState) -> LeaseRun {
    LeaseRun { state, leased: delivery_views(batch.leased@), mutated: batch.mutated }
}

/// Whether keys name nothing but deliveries that are left out.
pub open spec fn only_excluded(keys: Seq<DueView>, excluded: Seq<Seq<char>>) -> bool {
    forall|i: int|
        0 <= i < keys.len() ==> excluded.contains((#[trigger] keys[i]).delivery_id)
}

/// Leases from keys one after the other, until `stop` deliveries are leased.
fn lease_from(
    txn: &mut WriteTransaction,
    batch: LeaseBatch,
    keys: &Vec<DueIndexKey>,
    stop: usize,
    now_ms: u64,
    lease_until: u64,
    dept: Option<&str>,
    excluded: &Vec<String>,
    expired: bool,
) -> (r: Result<LeaseBatch, StoreError>)
    ensures
        ({
            let run = lease_run(
                batch_of(batch, state_of(*old(txn))),
                due_views(keys@),
                stop as nat,
                now_ms,
                lease_until,
                optional_view(dept),
                texts_view(excluded@),
                expired,
            );
            match r {
                Ok(done) => run == Some(batch_of(done, state_of(*final(txn)))),
                Err(e) => e is Storage || (e is Undecodable && run is None),
            }
        }),
        r is Ok && sound(state_of(*old(txn))) && all_read(due_views(keys@)) ==> sound(
            state_of(*final(txn)),
        ),
        r matches Ok(done) ==> (all_read_back(delivery_views(batch.leased@)) ==> all_read_back(
            delivery_views(done.leased@),
        )),
        stop <= batch.leased@.len() || only_excluded(due_views(keys@), texts_view(excluded@))
            ==> r is Ok,
{
    let ghost start = batch_of(batch, state_of(*txn));
    let ghost views = due_views(keys@);
    let mut leased: Vec<DeliveryRecord> = batch.leased;
    let mut mutated: bool = batch.mutated;
    let mut i: usize = 0;
    assert(views.skip(0) =~= views);
    assert(delivery_views(leased@) =~= start.leased);
    while i < keys.len() && leased.len() < stop
        invariant
            leased@.len() >= batch.leased@.len(),
            views == due_views(keys@),
            start == batch_of(batch, state_of(*old(txn))),
            i <= keys@.len(),
            sound(start.state) && all_read(views) ==> sound(state_of(*txn)),
            all_read_back(start.leased) ==> all_read_back(delivery_views(leased@)),
            lease_run(
                start,
                views,
                stop as nat,
                now_ms,
                lease_until,
                optional_view(dept),
                texts_view(excluded@),
                expired,
            ) == lease_run(
                LeaseRun {
                    state: state_of(*txn),
                    leased: delivery_views(leased@),
                    mutated,
                },
                views.skip(i as int),
                stop as nat,
                now_ms,
                lease_until,
                optional_view(dept),
                texts_view(excluded@),
                expired,
            ),
        decreases keys@.len() - i,
    {
        proof {
            assert(views.skip(i as int)[0] == keys@[i as int]@);
            assert(views.skip(i as int).drop_first() =~= views.skip(i + 1));
        }
        let ghost had = delivery_views(leased@);
        assert(all_read(views) ==> parsed_key(views[i as int].key) == Some(views[i as int]));
        assert(views[i as int] == keys@[i as int]@);
        match crate::delivery_transition::lease_key(
            txn,
            &keys[i],
            now_ms,
            lease_until,
            dept,
            excluded,
            expired,
        ) {
            Err(e) => return Err(e),
            Ok(outcome) => {
                mutated = mutated || outcome.mutated;
                match outcome.record {
                    Some(record) => {
                        let ghost d = record@;
                        leased.push(record);
                        assert(delivery_views(leased@) =~= had.push(d));
                    },
                    None => {},
                }
            },
        }
        i = i + 1;
    }
    Ok(LeaseBatch { leased, mutated })
}

/// Leases a batch of deliveries from keys that were found before. Keys that say nothing true any
/// more are dropped on the way. A sound store stays sound, and without stray keys where the keys that
/// were found still stand.
pub fn lease_collected(
    txn: &mut WriteTransaction,
    keys: &LeaseableKeys,
    now_ms: u64,
    batch_limit: usize,
    lease_dur: Duration,
    dept: Option<&str>,
    excluded: &Vec<String>,
) -> (r: Result<LeaseBatch, StoreError>)
    ensures
        ({
            let run = lease_batch(
                state_of(*old(txn)),
                due_views(keys.expired@),
                due_views(keys.ready@),
                batch_limit as nat,
                now_ms,
                lease_end(now_ms, lease_dur@),
                optional_view(dept),
                texts_view(excluded@),
            );
            match r {
                Ok(done) => run == Some(batch_of(done, state_of(*final(txn)))),
                Err(e) => e is Storage || (e is Undecodable && run is None),
            }
        }),
        r is Ok && sound(state_of(*old(txn))) && all_read(due_views(keys.expired@)) && all_read(
            due_views(keys.ready@),
        ) ==> sound(state_of(*final(txn))) && (tidy(state_of(*old(txn))) && keys_stand(
            state_of(*old(txn)),
            due_views(keys.ready@),
        ) ==> tidy(state_of(*final(txn)))),
        r matches Ok(done) ==> all_read_back(delivery_views(done.leased@)),
        batch_limit == 0 || (only_excluded(due_views(keys.expired@), texts_view(excluded@))
            && only_excluded(due_views(keys.ready@), texts_view(excluded@))) ==> r is Ok,
{
    let lease_until: u64 = now_ms.saturating_add(lease_dur.millis());
    let quota: usize = expired_lease_quota(batch_limit);
    let start: LeaseBatch = LeaseBatch { leased: Vec::new(), mutated: false };
    assert(delivery_views(start.leased@) =~= Seq::<DeliveryView>::empty());
    let first: LeaseBatch = match lease_from(
        txn,
        start,
        &keys.expired,
        quota,
        now_ms,
        lease_until,
        dept,
        excluded,
        true,
    ) {
        Ok(batch) => batch,
        Err(e) => return Err(e),
    };
    let done: LeaseBatch = match lease_from(
        txn,
        first,
        &keys.ready,
        batch_limit,
        now_ms,
        lease_until,
        dept,
        excluded,
        false,
    ) {
        Ok(batch) => batch,
        Err(e) => return Err(e),
    };
    proof {
        if sound(state_of(*old(txn))) && all_read(due_views(keys.expired@)) && all_read(
            due_views(keys.ready@),
        ) {
            law_a_batch_keeps_a_store_sound(
                state_of(*old(txn)),
                BatchCall {
                    expired_keys: due_views(keys.expired@),
                    ready_keys: due_views(keys.ready@),
                    batch_limit: batch_limit as nat,
                    now_ms,
                    until_ms: lease_until,
                    dept: optional_view(dept),
                    excluded: texts_view(excluded@),
                },
                batch_of(done, state_of(*txn)),
            );
        }
    }
    Ok(done)
}

/// A lease that was renewed, and the delivery that it is on.
pub struct Renewal {
    pub delivery_id: String,
    pub record: DeliveryRecord,
}

/// The renewed deliveries by their ids.
pub open spec fn renewals_view(v: Seq<Renewal>) -> Map<Seq<char>, DeliveryView>
    decreases v.len(),
{
    if v.len() == 0 {
        Map::empty()
    } else {
        renewals_view(v.drop_last()).insert(v.last().delivery_id@, v.last().record@)
    }
}

pub open spec fn requests_view(v: Seq<(String, u64)>) -> Seq<(Seq<char>, u64)> {
    Seq::new(v.len(), |i: int| (v[i].0@, v[i].1))
}

/// Renews the leases that are held by the generations that are named; the others are passed over.
/// A sound store stays sound.
pub fn renew_leases(
    txn: &mut WriteTransaction,
    renewals: &Vec<(String, u64)>,
    lease_until_ms: u64,
) -> (r: Result<Vec<Renewal>, StoreError>)
    ensures
        match r {
            Ok(applied) => !renewal_corrupt(
                state_of(*old(txn)),
                requests_view(renewals@),
                lease_until_ms,
            ) && state_of(*final(txn)) == renewed_all(
                state_of(*old(txn)),
                requests_view(renewals@),
                lease_until_ms,
            ) && renewals_view(applied@) == renewed_records(
                state_of(*old(txn)),
                requests_view(renewals@),
                lease_until_ms,
            ),
            Err(e) => e is Storage || (e is Undecodable && renewal_corrupt(
                state_of(*old(txn)),
                requests_view(renewals@),
                lease_until_ms,
            )),
        },
        r is Ok ==> stays_sound(state_of(*old(txn)), state_of(*final(txn))),
        renewals@.len() == 0 ==> r is Ok,
{
    proof {
        lemma_tables();
    }
    let ghost s = state_of(*txn);
    let ghost requests = requests_view(renewals@);
    let mut applied: Vec<Renewal> = Vec::new();
    let mut i: usize = 0;
    assert(renewals_view(applied@) =~= renewed_records(s, requests.take(0), lease_until_ms));
    while i < renewals.len()
        invariant
            crate::store_model::leased().len() == 20,
            crate::store_model::deliveries().len() == 14,
            s == state_of(*old(txn)),
            requests == requests_view(renewals@),
            i <= renewals@.len(),
            !renewal_corrupt(s, requests.take(i as int), lease_until_ms),
            stays_sound(s, state_of(*txn)),
            state_of(*txn) == renewed_all(s, requests.take(i as int), lease_until_ms),
            renewals_view(applied@) == renewed_records(
                s,
                requests.take(i as int),
                lease_until_ms,
            ),
        decreases renewals@.len() - i,
    {
        let delivery_id: &str = renewals[i].0.as_str();
        let generation: u64 = renewals[i].1;
        let ghost front = state_of(*txn);
        proof {
            assert(requests.take(i + 1).drop_last() =~= requests.take(i as int));
            assert(requests.take(i + 1).last() == (delivery_id@, generation));
        }
        match read_delivery_table(txn, delivery_id) {
            Err(e) => {
                proof {
                    if e is Undecodable {
                        lemma_renewal_corrupt_stays(s, requests, lease_until_ms, i + 1);
                    }
                }
                return Err(e);
            },
            Ok(None) => {},
            Ok(Some(mut current)) => {
                let ghost d = current@;
                match current.lease_until_ms {
                    Some(old_lease_until) => {
                        if current.lease_generation == generation {
                            let old_key: String = make_index_key(
                                current.dept.as_str(),
                                old_lease_until,
                                delivery_id,
                            );
                            match remove_key(txn, "leased_by_dept_until", old_key.as_str()) {
                                Ok(_) => {},
                                Err(e) => return Err(StoreError::Storage(e)),
                            }
                            current.lease_until_ms = Some(lease_until_ms);
                            let bytes: Vec<u8> = encode_delivery(&current);
                            match insert_row(
                                txn,
                                "delivery_by_id",
                                delivery_id,
                                bytes.as_slice(),
                            ) {
                                Ok(_) => {},
                                Err(e) => return Err(StoreError::Storage(e)),
                            }
                            let new_key: String = make_index_key(
                                current.dept.as_str(),
                                lease_until_ms,
                                delivery_id,
                            );
                            match insert_key(txn, "leased_by_dept_until", new_key.as_str()) {
                                Ok(_) => {},
                                Err(e) => return Err(StoreError::Storage(e)),
                            }
                            proof {
                                if sound(front) {
                                    lemma_renew_sound(front, delivery_id@, d, lease_until_ms);
                                }
                            }
                            let ghost had = applied@;
                            applied.push(
                                Renewal { delivery_id: copy_text(delivery_id), record: current },
                            );
                            assert(applied@.drop_last() =~= had);
                        }
                    },
                    None => {},
                }
            },
        }
        i = i + 1;
    }
    assert(requests.take(requests.len() as int) =~= requests);
    Ok(applied)
}

/// Renews one lease, where the generation that is named holds it.
pub fn renew_lease(
    txn: &mut WriteTransaction,
    delivery_id: &str,
    lease_generation: u64,
    lease_until_ms: u64,
) -> (r: Result<bool, StoreError>)
    ensures
        match r {
            Ok(applied) => !corrupt(state_of(*old(txn)), delivery_id@) && match held_lease(
                state_of(*old(txn)),
                delivery_id@,
                lease_generation,
            ) {
                Some(d) => applied && state_of(*final(txn)) == renewed(
                    state_of(*old(txn)),
                    delivery_id@,
                    d,
                    lease_until_ms,
                ),
                None => !applied && state_of(*final(txn)) == state_of(*old(txn)),
            },
            Err(e) => e is Storage || (e is Undecodable && corrupt(
                state_of(*old(txn)),
                delivery_id@,
            )),
        },
        r is Ok ==> stays_sound(state_of(*old(txn)), state_of(*final(txn))),
{
    let mut renewals: Vec<(String, u64)> = Vec::new();
    renewals.push((copy_text(delivery_id), lease_generation));
    proof {
        let s = state_of(*txn);
        let requests = requests_view(renewals@);
        assert(requests.drop_last() =~= Seq::<(Seq<char>, u64)>::empty());
        assert(requests.last() == (delivery_id@, lease_generation));
        assert(renewed_all(s, requests.drop_last(), lease_until_ms) == s);
        assert(renewed_records(s, requests.drop_last(), lease_until_ms) =~= Map::empty());
        assert(!renewal_corrupt(s, requests.drop_last(), lease_until_ms));
    }
    match renew_leases(txn, &renewals, lease_until_ms) {
        Ok(applied) => {
            proof {
                if applied@.len() == 0 {
                    assert(!renewals_view(applied@).contains_key(delivery_id@));
                } else {
                    let last = applied@.last();
                    assert(renewals_view(applied@).contains_key(last.delivery_id@));
                }
            }
            Ok(applied.len() > 0)
        },
        Err(e) => Err(e),
    }
}

proof fn lemma_renewal_corrupt_stays(
    s: StoreState,
    requests: Seq<(Seq<char>, u64)>,
    until_ms: u64,
    n: int,
)
    requires
        0 <= n <= requests.len(),
        renewal_corrupt(s, requests.take(n), until_ms),
    ensures
        renewal_corrupt(s, requests, until_ms),
    decreases requests.len() - n,
{
    if n == requests.len() {
        assert(requests.take(n) =~= requests);
    } else {
        assert(requests.take(n + 1).drop_last() =~= requests.take(n));
        lemma_renewal_corrupt_stays(s, requests, until_ms, n + 1);
    }
}

/// Takes a delivery that is done out, where the generation holds its lease. A sound store stays
/// sound.
pub fn ack(txn: &mut WriteTransaction, delivery_id: &str, lease_generation: u64) -> (r: Result<
    bool,
    StoreError,
>)
    ensures
        match r {
            Ok(applied) => !corrupt(state_of(*old(txn)), delivery_id@) && match held_lease(
                state_of(*old(txn)),
                delivery_id@,
                lease_generation,
            ) {
                Some(d) => applied && state_of(*final(txn)) == acked(
                    state_of(*old(txn)),
                    delivery_id@,
                    d,
                ),
                None => !applied && state_of(*final(txn)) == state_of(*old(txn)),
            },
            Err(e) => e is Storage || (e is Undecodable && corrupt(
                state_of(*old(txn)),
                delivery_id@,
            )),
        },
        r is Ok ==> stays_sound(state_of(*old(txn)), state_of(*final(txn))),
{
    proof {
        lemma_tables();
    }
    let current: DeliveryRecord = match read_delivery_table(txn, delivery_id) {
        Err(e) => return Err(e),
        Ok(None) => return Ok(false),
        Ok(Some(current)) => current,
    };
    if current.lease_generation != lease_generation {
        return Ok(false);
    }
    let lease_until: u64 = match current.lease_until_ms {
        None => return Ok(false),
        Some(until) => until,
    };
    proof {
        if sound(state_of(*txn)) {
            lemma_ack_sound(state_of(*txn), delivery_id@, current@);
        }
    }
    let key: String = make_index_key(current.dept.as_str(), lease_until, delivery_id);
    match remove_key(txn, "leased_by_dept_until", key.as_str()) {
        Ok(_) => {},
        Err(e) => return Err(StoreError::Storage(e)),
    }
    match remove_row(txn, "delivery_by_id", delivery_id) {
        Ok(_) => Ok(true),
        Err(e) => Err(StoreError::Storage(e)),
    }
}

// Retries.

/// Why a delivery failed, and whether it is worth another run.
pub struct RetryFailure {
    pub message: String,
    pub replayable: bool,
}

impl View for RetryFailure {
    type V = FailureView;

    open spec fn view(&self) -> FailureView {
        FailureView { message: self.message@, replayable: self.replayable }
    }
}

/// The store after a failed delivery is given back: a delivery that is not leased is left alone;
/// else the delivery is given back and the store is compacted.
pub open spec fn retry_done(
    s: StoreState,
    delivery_id: Seq<char>,
    generation: u64,
    failure: FailureView,
    policy: RetryPolicy,
    now_ms: u64,
    jitter_ms: nat,
    t: StoreState,
) -> bool {
    if live_at(s, delivery_id) matches Some(d) && d.lease_until_ms is None {
        t == s
    } else {
        exists|mid: StoreState, count: nat|
            retried(s, delivery_id, generation, failure, policy, now_ms, jitter_ms) == Some(mid)
                && #[trigger] compacted(mid, now_ms, t, count)
    }
}

/// Why a delivery cannot be given back: no slot is left, or the compaction fails.
pub open spec fn retry_failure(
    s: StoreState,
    delivery_id: Seq<char>,
    generation: u64,
    failure: FailureView,
    policy: RetryPolicy,
    now_ms: u64,
    jitter_ms: nat,
    e: StoreError,
) -> bool {
    e is Storage || match retried(s, delivery_id, generation, failure, policy, now_ms, jitter_ms) {
        None => e is SuppressionExhausted && e->SuppressionExhausted_0@ == delivery_id,
        Some(mid) => compaction_failure(mid, now_ms, e),
    }
}

/// Writes what is left of a delivery that has run out of attempts.
fn bury(
    txn: &mut WriteTransaction,
    delivery_id: &str,
    failed: DeliveryRecord,
    replayable: bool,
    now_ms: u64,
) -> (r: Result<(), StoreError>)
    ensures
        ({
            let d = failed@;
            let key = dead_index_key(d.dept, now_ms, delivery_id@);
            let buried = state_of(*old(txn)).with_row(
                crate::store_model::dead(),
                delivery_id@,
                dead_bytes(tombstone(d, replayable, now_ms)),
            );
            let after = if replayable {
                Some(buried.with_key(crate::store_model::dead_due(), key))
            } else {
                suppressing(
                    buried.with_key(crate::store_model::terminal(), key),
                    delivery_id@,
                )
            };
            match r {
                Ok(_) => after matches Some(t) && state_of(*final(txn)) == t.without_row(
                    crate::store_model::deliveries(),
                    delivery_id@,
                ),
                Err(e) => e is Storage || (e is SuppressionExhausted && e->SuppressionExhausted_0@
                    == delivery_id@ && after is None),
            }
        }),
        r is Ok ==> dead_reads_back(tombstone(failed@, replayable, now_ms)),
{
    proof {
        lemma_tables();
    }
    let key: String = make_dead_due_index_key(failed.dept.as_str(), now_ms, delivery_id);
    let ghost left = tombstone(failed@, replayable, now_ms);
    let buried: DeadRecord = DeadRecord {
        delivery_id: copy_text(failed.delivery_id.as_str()),
        queue: copy_text(failed.queue.as_str()),
        dept: copy_text(failed.dept.as_str()),
        source: copy_source(&failed.source),
        observed_at_ms: failed.observed_at_ms,
        not_before_ms: failed.not_before_ms,
        dead_at_ms: now_ms,
        attempts: failed.attempt,
        redrive_count: failed.redrive_count,
        replayable,
        permanent: !replayable,
        error_excerpt: crate::text::copy_optional_text(&failed.last_error_excerpt),
        record: if replayable {
            Some(failed)
        } else {
            None
        },
    };
    assert(buried@ == left);
    let bytes: Vec<u8> = encode_dead(&buried);
    match insert_row(txn, "dead_by_id", delivery_id, bytes.as_slice()) {
        Ok(_) => {},
        Err(e) => return Err(StoreError::Storage(e)),
    }
    if replayable {
        match insert_key(txn, "dead_by_dept_due", key.as_str()) {
            Ok(_) => {},
            Err(e) => return Err(StoreError::Storage(e)),
        }
    } else {
        match insert_key(txn, "terminal_dead_by_time", key.as_str()) {
            Ok(_) => {},
            Err(e) => return Err(StoreError::Storage(e)),
        }
        match suppress_terminal_delivery(txn, delivery_id) {
            Ok(_) => {},
            Err(e) => return Err(e),
        }
    }
    match remove_row(txn, "delivery_by_id", delivery_id) {
        Ok(_) => Ok(()),
        Err(e) => Err(StoreError::Storage(e)),
    }
}

/// Whether a store holds what becomes of a delivery that is given back as failed: the delivery with
/// one more attempt, or the dead delivery that is left of it.
pub open spec fn holds_retried(
    s: StoreState,
    delivery_id: Seq<char>,
    generation: u64,
    failure: FailureView,
    policy: RetryPolicy,
    now_ms: u64,
    jitter_ms: nat,
    t: StoreState,
) -> bool {
    match held_lease(s, delivery_id, generation) {
        None => live_at(t, delivery_id) == live_at(s, delivery_id),
        Some(d) => {
            let failed = after_failure(d, failure);
            if failed.attempt >= policy.max_attempts {
                live_at(t, delivery_id) is None && is_dead_written(
                    dead_at(t, delivery_id),
                    dead_of(d, failure, now_ms),
                )
            } else {
                is_written(
                    live_at(t, delivery_id),
                    DeliveryView {
                        not_before_ms: retry_at(policy, failed.attempt, now_ms, jitter_ms),
                        ..failed
                    },
                )
            }
        },
    }
}

/// Gives a failed delivery back with a given jitter. It is due again after a delay, or dead where
/// it has no attempts left. A sound store stays sound.
pub fn retry_with_jitter(
    txn: &mut WriteTransaction,
    delivery_id: &str,
    lease_generation: u64,
    failure: &RetryFailure,
    policy: &RetryPolicy,
    now_ms: u64,
    jitter: Duration,
) -> (r: Result<RetryOutcome, StoreError>)
    ensures
        match r {
            Ok(outcome) => !corrupt(state_of(*old(txn)), delivery_id@) && outcome == retry_outcome(
                state_of(*old(txn)),
                delivery_id@,
                lease_generation,
                failure@,
                *policy,
            ) && retry_done(
                state_of(*old(txn)),
                delivery_id@,
                lease_generation,
                failure@,
                *policy,
                now_ms,
                millis(jitter@),
                state_of(*final(txn)),
            ),
            Err(StoreError::Undecodable(id)) => id@ == delivery_id@ && corrupt(
                state_of(*old(txn)),
                delivery_id@,
            ),
            Err(e) => retry_failure(
                state_of(*old(txn)),
                delivery_id@,
                lease_generation,
                failure@,
                *policy,
                now_ms,
                millis(jitter@),
                e,
            ),
        },
        r is Ok ==> stays_sound(state_of(*old(txn)), state_of(*final(txn))) && holds_retried(
            state_of(*old(txn)),
            delivery_id@,
            lease_generation,
            failure@,
            *policy,
            now_ms,
            millis(jitter@),
            state_of(*final(txn)),
        ),
{
    proof {
        lemma_tables();
    }
    let ghost s = state_of(*txn);
    let outcome: RetryOutcome = match read_delivery_table(txn, delivery_id) {
        Err(e) => return Err(e),
        Ok(None) => RetryOutcome::Missing,
        Ok(Some(mut current)) => {
            let ghost d = current@;
            let lease_until: u64 = match current.lease_until_ms {
                None => return Ok(RetryOutcome::Stale),
                Some(until) => until,
            };
            if current.lease_generation != lease_generation {
                RetryOutcome::Stale
            } else {
                let old_key: String = make_index_key(
                    current.dept.as_str(),
                    lease_until,
                    delivery_id,
                );
                match remove_key(txn, "leased_by_dept_until", old_key.as_str()) {
                    Ok(_) => {},
                    Err(e) => return Err(StoreError::Storage(e)),
                }
                let attempt: u64 = current.attempt.saturating_add(1);
                current.attempt = attempt;
                current.last_error_excerpt = Some(error_excerpt(failure.message.as_str()));
                current.lease_until_ms = None;
                assert(current@ == after_failure(d, failure@));
                let ghost gone = dead_of(d, failure@, now_ms);
                if attempt >= policy.max_attempts {
                    let replayable: bool = failure.replayable;
                    match bury(txn, delivery_id, current, replayable, now_ms) {
                        Ok(_) => {},
                        Err(e) => return Err(e),
                    }
                    proof {
                        if sound(s) {
                            assert(sound_at(s, delivery_id@));
                            lemma_bury_sound(s, delivery_id@, d, gone);
                        }
                        let tombstone = s.without_key(
                            crate::store_model::leased(),
                            crate::delivery_index::index_key(d.dept, lease_until, delivery_id@),
                        ).with_row(
                            crate::store_model::dead(),
                            delivery_id@,
                            dead_bytes(gone),
                        ).with_key(
                            crate::store_model::terminal(),
                            dead_index_key(d.dept, now_ms, delivery_id@),
                        );
                        if !replayable {
                            law_suppression_holds(tombstone, delivery_id@);
                        }
                        assert(state_of(*txn).row(crate::store_model::dead(), delivery_id@) == Some(
                            dead_bytes(gone),
                        ));
                    }
                    if replayable {
                        RetryOutcome::DeadPendingRedrive
                    } else {
                        RetryOutcome::PermanentDead
                    }
                } else {
                    let delay: Duration = backoff_delay(policy.base, policy.cap, attempt);
                    let due: u64 = now_ms.saturating_add(delay.millis()).saturating_add(
                        jitter.millis(),
                    );
                    proof {
                        let ms = backoff_millis(
                            policy.base@ / 1_000_000,
                            policy.cap@ / 1_000_000,
                            attempt as nat,
                        );
                        assert(delay@ == ms * 1_000_000);
                        assert(millis(delay@) == ms);
                        assert(due == retry_at(*policy, attempt, now_ms, millis(jitter@)));
                    }
                    current.not_before_ms = due;
                    let bytes: Vec<u8> = encode_delivery(&current);
                    match insert_row(txn, "delivery_by_id", delivery_id, bytes.as_slice()) {
                        Ok(_) => {},
                        Err(e) => return Err(StoreError::Storage(e)),
                    }
                    let new_key: String = make_index_key(
                        current.dept.as_str(),
                        due,
                        delivery_id,
                    );
                    match insert_key(txn, "ready_by_dept_due", new_key.as_str()) {
                        Ok(_) => {},
                        Err(e) => return Err(StoreError::Storage(e)),
                    }
                    proof {
                        if sound(s) {
                            assert(sound_at(s, delivery_id@));
                            lemma_reschedule_sound(s, delivery_id@, d, current@);
                        }
                    }
                    RetryOutcome::Scheduled
                }
            }
        },
    };
    let ghost mid = state_of(*txn);
    assert(retried(
        s,
        delivery_id@,
        lease_generation,
        failure@,
        *policy,
        now_ms,
        millis(jitter@),
    ) == Some(mid));
    assert(stays_sound(s, mid));
    assert(holds_retried(
        s,
        delivery_id@,
        lease_generation,
        failure@,
        *policy,
        now_ms,
        millis(jitter@),
        mid,
    ));
    match compact_terminal_dead_records(txn, now_ms) {
        Err(e) => Err(e),
        Ok(count) => {
            assert(compacted(mid, now_ms, state_of(*txn), count as nat));
            proof {
                law_compaction_keeps(mid, now_ms, state_of(*txn), count as nat);
                assert(live_at(state_of(*txn), delivery_id@) == live_at(mid, delivery_id@));
                if dead_at(mid, delivery_id@) matches Some(gone) && gone.dead_at_ms == now_ms {
                    law_compaction_spares_the_recent(
                        mid,
                        now_ms,
                        state_of(*txn),
                        count as nat,
                        delivery_id@,
                    );
                }
            }
            Ok(outcome)
        },
    }
}

/// Gives a failed delivery back. The next attempt comes after a delay that doubles with every
/// attempt, and a jitter of up to a quarter of the base delay. A sound store stays sound.
pub fn retry(
    txn: &mut WriteTransaction,
    delivery_id: &str,
    lease_generation: u64,
    failure: &RetryFailure,
    policy: &RetryPolicy,
    now_ms: u64,
) -> (r: Result<RetryOutcome, StoreError>)
    ensures
        match r {
            Ok(outcome) => !corrupt(state_of(*old(txn)), delivery_id@) && outcome == retry_outcome(
                state_of(*old(txn)),
                delivery_id@,
                lease_generation,
                failure@,
                *policy,
            ) && exists|jitter_ms: nat|
                jitter_ms <= jitter_bound(policy.base@ / 1_000_000) && #[trigger] retry_done(
                    state_of(*old(txn)),
                    delivery_id@,
                    lease_generation,
                    failure@,
                    *policy,
                    now_ms,
                    jitter_ms,
                    state_of(*final(txn)),
                ) && holds_retried(
                    state_of(*old(txn)),
                    delivery_id@,
                    lease_generation,
                    failure@,
                    *policy,
                    now_ms,
                    jitter_ms,
                    state_of(*final(txn)),
                ),
            Err(StoreError::Undecodable(id)) => id@ == delivery_id@ && corrupt(
                state_of(*old(txn)),
                delivery_id@,
            ),
            Err(e) => exists|jitter_ms: nat| #[trigger]
                retry_failure(
                    state_of(*old(txn)),
                    delivery_id@,
                    lease_generation,
                    failure@,
                    *policy,
                    now_ms,
                    jitter_ms,
                    e,
                ),
        },
        r is Ok ==> stays_sound(state_of(*old(txn)), state_of(*final(txn))),
{
    let attempt: u64 = match read_delivery_table(txn, delivery_id) {
        Err(e) => {
            assert(e is Storage ==> retry_failure(
                state_of(*old(txn)),
                delivery_id@,
                lease_generation,
                failure@,
                *policy,
                now_ms,
                0,
                e,
            ));
            return Err(e);
        },
        Ok(None) => 0,
        Ok(Some(current)) => current.attempt.saturating_add(1),
    };
    let jitter: Duration = bounded_jitter(delivery_id, attempt, policy.base);
    assert(millis(jitter@) <= jitter_bound(policy.base@ / 1_000_000)) by {
        let bound = jitter_bound(policy.base@ / 1_000_000);
        assert(jitter@ <= bound * 1_000_000);
        assert(jitter@ / 1_000_000 <= bound);
    }
    retry_with_jitter(txn, delivery_id, lease_generation, failure, policy, now_ms, jitter)
}

/// Puts a delivery off because its run found a lock busy: its lease is given up, no attempt is
/// counted, and it is due again after the delay of a first attempt. A sound store stays sound.
pub fn defer_lock_busy(
    txn: &mut WriteTransaction,
    delivery_id: &str,
    lease_generation: u64,
    lock: &str,
    policy: &RetryPolicy,
    now_ms: u64,
) -> (r: Result<LockBusyDeferOutcome, StoreError>)
    ensures
        match r {
            Ok(outcome) => !corrupt(state_of(*old(txn)), delivery_id@) && outcome == defer_outcome(
                state_of(*old(txn)),
                delivery_id@,
                lease_generation,
            ) && state_of(*final(txn)) == deferred(
                state_of(*old(txn)),
                delivery_id@,
                lease_generation,
                lock@,
                *policy,
                now_ms,
            ),
            Err(e) => e is Storage || (e is Undecodable && e->Undecodable_0@ == delivery_id@
                && corrupt(state_of(*old(txn)), delivery_id@)),
        },
        r is Ok ==> stays_sound(state_of(*old(txn)), state_of(*final(txn))),
        r matches Ok(LockBusyDeferOutcome::Scheduled) ==> is_written(
            live_at(state_of(*final(txn)), delivery_id@),
            put_off(live_at(state_of(*old(txn)), delivery_id@)->0, lock@, *policy, now_ms),
        ),
{
    proof {
        lemma_tables();
    }
    let ghost s = state_of(*txn);
    match read_delivery_table(txn, delivery_id) {
        Err(e) => Err(e),
        Ok(None) => Ok(LockBusyDeferOutcome::Missing),
        Ok(Some(mut current)) => {
            let ghost d = current@;
            let lease_until: u64 = match current.lease_until_ms {
                None => return Ok(LockBusyDeferOutcome::Stale),
                Some(until) => until,
            };
            if current.lease_generation != lease_generation {
                return Ok(LockBusyDeferOutcome::Stale);
            }
            let old_key: String = make_index_key(current.dept.as_str(), lease_until, delivery_id);
            match remove_key(txn, "leased_by_dept_until", old_key.as_str()) {
                Ok(_) => {},
                Err(e) => return Err(StoreError::Storage(e)),
            }
            let delay: Duration = backoff_delay(policy.base, policy.cap, 1);
            let due: u64 = now_ms.saturating_add(delay.millis());
            proof {
                let ms = backoff_millis(policy.base@ / 1_000_000, policy.cap@ / 1_000_000, 1);
                assert(delay@ == ms * 1_000_000);
                assert(millis(delay@) == ms);
                assert(due == retry_at(*policy, 1, now_ms, 0));
            }
            let mut reason: String = copy_text("lock_busy: ");
            reason.append(lock);
            current.last_error_excerpt = Some(error_excerpt(reason.as_str()));
            current.lease_until_ms = None;
            current.not_before_ms = due;
            assert(current@ == put_off(d, lock@, *policy, now_ms));
            let bytes: Vec<u8> = encode_delivery(&current);
            match insert_row(txn, "delivery_by_id", delivery_id, bytes.as_slice()) {
                Ok(_) => {},
                Err(e) => return Err(StoreError::Storage(e)),
            }
            let new_key: String = make_index_key(current.dept.as_str(), due, delivery_id);
            match insert_key(txn, "ready_by_dept_due", new_key.as_str()) {
                Ok(_) => {},
                Err(e) => return Err(StoreError::Storage(e)),
            }
            proof {
                if sound(s) {
                    assert(sound_at(s, delivery_id@));
                    lemma_reschedule_sound(s, delivery_id@, d, current@);
                }
            }
            Ok(LockBusyDeferOutcome::Scheduled)
        },
    }
}

// Redrives.

/// Whether a dead delivery has rested for long enough.
pub fn dead_redrive_cooldown_elapsed(dead_at_ms: u64, cooldown_ms: u64, now_ms: u64) -> (r: bool)
    ensures
        r == cooled_down(dead_at_ms, cooldown_ms, now_ms),
{
    dead_at_ms.saturating_add(cooldown_ms) <= now_ms
}

/// What came of one key of a dead delivery.
struct KeyRedrive {
    redriven: Option<DeliveryRecord>,
    permanent: Option<DeadRecord>,
    mutated: bool,
}

spec fn key_redrive(k: KeyRedrive, state: StoreState) -> RedriveStep {
    RedriveStep {
        state,
        redriven: delivery_view(k.redriven),
        permanent: dead_view(k.permanent),
        mutated: k.mutated,
    }
}

/// Gives a dead delivery up for good.
fn give_up(txn: &mut WriteTransaction, key: &DueIndexKey, d: DeadRecord) -> (r: Result<
    KeyRedrive,
    StoreError,
>)
    ensures
        match r {
            Ok(k) => giving_up(state_of(*old(txn)), key@, d@) == Some(
                key_redrive(k, state_of(*final(txn))),
            ),
            Err(e) => e is Storage || (e is SuppressionExhausted && e->SuppressionExhausted_0@
                == key@.delivery_id && giving_up(
                state_of(*old(txn)),
                key@,
                d@,
            ) is None),
        },
        r is Ok ==> dead_reads_back(d@),
{
    proof {
        lemma_tables();
    }
    let delivery_id: &str = key.delivery_id.as_str();
    match remove_key(txn, "dead_by_dept_due", key.key.as_str()) {
        Ok(_) => {},
        Err(e) => return Err(StoreError::Storage(e)),
    }
    let bytes: Vec<u8> = encode_dead(&d);
    match insert_row(txn, "dead_by_id", delivery_id, bytes.as_slice()) {
        Ok(_) => {},
        Err(e) => return Err(StoreError::Storage(e)),
    }
    let own_key: String = make_dead_due_index_key(d.dept.as_str(), d.dead_at_ms, delivery_id);
    match insert_key(txn, "terminal_dead_by_time", own_key.as_str()) {
        Ok(_) => {},
        Err(e) => return Err(StoreError::Storage(e)),
    }
    match suppress_terminal_delivery(txn, delivery_id) {
        Ok(_) => Ok(KeyRedrive { redriven: None, permanent: Some(d), mutated: true }),
        Err(e) => Err(e),
    }
}

fn redrive_key(
    txn: &mut WriteTransaction,
    key: &DueIndexKey,
    policy: &RedrivePolicy,
    now_ms: u64,
) -> (r: Result<KeyRedrive, StoreError>)
    ensures
        match r {
            Ok(k) => redrive_step(state_of(*old(txn)), key@, *policy, now_ms) == Some(
                key_redrive(k, state_of(*final(txn))),
            ),
            Err(e) => e is Storage || (e is SuppressionExhausted && e->SuppressionExhausted_0@
                == key@.delivery_id && redrive_step(
                state_of(*old(txn)),
                key@,
                *policy,
                now_ms,
            ) is None),
        },
        r matches Ok(k) ==> (k.redriven matches Some(d) ==> reads_back(d@)),
        r matches Ok(k) ==> (k.permanent matches Some(d) ==> dead_reads_back(d@)),
{
    proof {
        reveal(redrive_step);
        lemma_tables();
    }
    let delivery_id: &str = key.delivery_id.as_str();
    let mut d: DeadRecord = match read_dead_table(txn, delivery_id) {
        Err(e) => return Err(StoreError::Storage(e)),
        Ok(None) => {
            return match remove_key(txn, "dead_by_dept_due", key.key.as_str()) {
                Ok(_) => Ok(KeyRedrive { redriven: None, permanent: None, mutated: true }),
                Err(e) => Err(StoreError::Storage(e)),
            };
        },
        Ok(Some(d)) => d,
    };
    let ghost was = d@;
    if d.dead_at_ms != key.due_ms {
        match remove_key(txn, "dead_by_dept_due", key.key.as_str()) {
            Ok(_) => {},
            Err(e) => return Err(StoreError::Storage(e)),
        }
        if should_index_dead_record(&d) {
            let own_key: String = make_dead_due_index_key(
                d.dept.as_str(),
                d.dead_at_ms,
                delivery_id,
            );
            match insert_key(txn, "dead_by_dept_due", own_key.as_str()) {
                Ok(_) => {},
                Err(e) => return Err(StoreError::Storage(e)),
            }
        }
        return Ok(KeyRedrive { redriven: None, permanent: None, mutated: true });
    }
    if !dead_redrive_cooldown_elapsed(d.dead_at_ms, policy.cooldown.millis(), now_ms) {
        return Ok(KeyRedrive { redriven: None, permanent: None, mutated: false });
    }
    if is_terminal_dead_record(&d) {
        return match remove_key(txn, "dead_by_dept_due", key.key.as_str()) {
            Ok(_) => Ok(KeyRedrive { redriven: None, permanent: None, mutated: true }),
            Err(e) => Err(StoreError::Storage(e)),
        };
    }
    let mut record: DeliveryRecord = match copy_delivery(&d.record) {
        None => {
            d.permanent = true;
            d.replayable = false;
            d.record = None;
            assert(d@ == given_up(was));
            return give_up(txn, key, d);
        },
        Some(record) => record,
    };
    let ghost first = record@;
    if d.redrive_count >= policy.max_redrives {
        d.permanent = true;
        d.replayable = false;
        d.record = None;
        assert(d@ == given_up(was));
        return give_up(txn, key, d);
    }
    let live: bool = match get_row(txn, "delivery_by_id", delivery_id) {
        Err(e) => return Err(StoreError::Storage(e)),
        Ok(row) => row.is_some(),
    };
    if live {
        d.permanent = true;
        d.replayable = false;
        d.record = None;
        d.error_excerpt = Some(error_excerpt("redrive collision with live delivery"));
        return give_up(txn, key, d);
    }
    match remove_key(txn, "dead_by_dept_due", key.key.as_str()) {
        Ok(_) => {},
        Err(e) => return Err(StoreError::Storage(e)),
    }
    record.redrive_count = d.redrive_count.saturating_add(1);
    record.attempt = 0;
    record.lease_until_ms = None;
    record.lease_generation = record.lease_generation.saturating_add(1);
    record.not_before_ms = now_ms;
    record.last_error_excerpt = None;
    assert(record@ == redriven(was, first, now_ms));
    let bytes: Vec<u8> = encode_delivery(&record);
    match insert_row(txn, "delivery_by_id", delivery_id, bytes.as_slice()) {
        Ok(_) => {},
        Err(e) => return Err(StoreError::Storage(e)),
    }
    let new_key: String = make_index_key(record.dept.as_str(), now_ms, delivery_id);
    match insert_key(txn, "ready_by_dept_due", new_key.as_str()) {
        Ok(_) => {},
        Err(e) => return Err(StoreError::Storage(e)),
    }
    match remove_row(txn, "dead_by_id", delivery_id) {
        Ok(_) => Ok(KeyRedrive { redriven: Some(record), permanent: None, mutated: true }),
        Err(e) => Err(StoreError::Storage(e)),
    }
}

/// The deliveries that are sent again, those that are given up, and whether anything changed.
pub struct RedriveResult {
    pub redriven: Vec<DeliveryRecord>,
    pub permanent: Vec<DeadRecord>,
    pub mutated: bool,
}

/// What comes of the keys of dead deliveries, and of the compaction behind it.
pub open spec fn redrive_done(
    s: StoreState,
    keys: Seq<DueView>,
    policy: RedrivePolicy,
    now_ms: u64,
    result: RedriveResult,
    t: StoreState,
) -> bool {
    match redrive_run(redrive_start(s), keys, policy, now_ms) {
        None => false,
        Some(run) => {
            &&& run.redriven == delivery_views(result.redriven@)
            &&& run.permanent == dead_views(result.permanent@)
            &&& settled(run.state, run.mutated, now_ms, result.mutated, t)
        },
    }
}

/// The store after a compaction, and whether anything changed before it or by it.
pub open spec fn settled(
    s: StoreState,
    changed_before: bool,
    now_ms: u64,
    changed: bool,
    t: StoreState,
) -> bool {
    exists|count: nat| #[trigger]
        compacted(s, now_ms, t, count) && changed == (changed_before || count > 0)
}

pub open spec fn redrive_result(result: RedriveResult, state: StoreState) -> RedriveRun {
    RedriveRun {
        state,
        redriven: delivery_views(result.redriven@),
        permanent: dead_views(result.permanent@),
        mutated: result.mutated,
    }
}

pub open spec fn redrive_start(s: StoreState) -> RedriveRun {
    RedriveRun { state: s, redriven: Seq::empty(), permanent: Seq::empty(), mutated: false }
}

/// Looks at keys of dead deliveries one after the other.
fn redrive_keys(
    txn: &mut WriteTransaction,
    keys: &Vec<DueIndexKey>,
    policy: &RedrivePolicy,
    now_ms: u64,
) -> (r: Result<RedriveResult, StoreError>)
    ensures
        match r {
            Ok(result) => redrive_run(
                redrive_start(state_of(*old(txn))),
                due_views(keys@),
                *policy,
                now_ms,
            ) == Some(redrive_result(result, state_of(*final(txn)))),
            Err(e) => e is Storage || (e is SuppressionExhausted && redrive_stuck(
                state_of(*old(txn)),
                due_views(keys@),
                *policy,
                now_ms,
            ) == Some(e->SuppressionExhausted_0@)),
        },
        r is Ok && all_dead_read(due_views(keys@)) ==> stays_sound(
            state_of(*old(txn)),
            state_of(*final(txn)),
        ),
        r matches Ok(result) ==> all_read_back(delivery_views(result.redriven@))
            && all_dead_read_back(dead_views(result.permanent@)),
        keys@.len() == 0 ==> r is Ok,
{
    let ghost start = redrive_start(state_of(*txn));
    let ghost views = due_views(keys@);
    let mut result: RedriveResult = RedriveResult {
        redriven: Vec::new(),
        permanent: Vec::new(),
        mutated: false,
    };
    let mut i: usize = 0;
    assert(views.skip(0) =~= views);
    assert(delivery_views(result.redriven@) =~= Seq::<DeliveryView>::empty());
    assert(dead_views(result.permanent@) =~= Seq::<DeadView>::empty());
    while i < keys.len()
        invariant
            views == due_views(keys@),
            start == redrive_start(state_of(*old(txn))),
            i <= keys@.len(),
            all_dead_read(views) ==> stays_sound(start.state, state_of(*txn)),
            all_read_back(delivery_views(result.redriven@)),
            all_dead_read_back(dead_views(result.permanent@)),
            redrive_run(start, views, *policy, now_ms) == redrive_run(
                redrive_result(result, state_of(*txn)),
                views.skip(i as int),
                *policy,
                now_ms,
            ),
            redrive_stuck(start.state, views, *policy, now_ms) == redrive_stuck(
                state_of(*txn),
                views.skip(i as int),
                *policy,
                now_ms,
            ),
        decreases keys@.len() - i,
    {
        proof {
            assert(views.skip(i as int)[0] == keys@[i as int]@);
            assert(views.skip(i as int).drop_first() =~= views.skip(i + 1));
        }
        let ghost had_again = delivery_views(result.redriven@);
        let ghost had_permanent = dead_views(result.permanent@);
        let ghost before = state_of(*txn);
        match redrive_key(txn, &keys[i], policy, now_ms) {
            Err(e) => return Err(e),
            Ok(step) => {
                proof {
                    if sound(before) && all_dead_read(views) {
                        assert(parsed_dead_key(views[i as int].key) == Some(views[i as int]));
                        lemma_redrive_step_sound(before, views[i as int], *policy, now_ms);
                    }
                }
                result.mutated = result.mutated || step.mutated;
                match step.redriven {
                    Some(record) => {
                        let ghost d = record@;
                        result.redriven.push(record);
                        assert(delivery_views(result.redriven@) =~= had_again.push(d));
                    },
                    None => {},
                }
                match step.permanent {
                    Some(d) => {
                        let ghost v = d@;
                        result.permanent.push(d);
                        assert(dead_views(result.permanent@) =~= had_permanent.push(v));
                    },
                    None => {},
                }
            },
        }
        i = i + 1;
    }
    Ok(result)
}

/// Sends dead deliveries again, from keys that were found before, and gives those up that were
/// sent again too often. A sound store stays sound, and holds what is told.
pub fn redrive_collected(
    txn: &mut WriteTransaction,
    keys: &Vec<DueIndexKey>,
    policy: &RedrivePolicy,
    now_ms: u64,
) -> (r: Result<RedriveResult, StoreError>)
    ensures
        match r {
            Ok(result) => redrive_done(
                state_of(*old(txn)),
                due_views(keys@),
                *policy,
                now_ms,
                result,
                state_of(*final(txn)),
            ),
            Err(e) => e is Storage || match redrive_run(
                redrive_start(state_of(*old(txn))),
                due_views(keys@),
                *policy,
                now_ms,
            ) {
                None => e is SuppressionExhausted && redrive_stuck(
                    state_of(*old(txn)),
                    due_views(keys@),
                    *policy,
                    now_ms,
                ) == Some(e->SuppressionExhausted_0@),
                Some(run) => compaction_failure(run.state, now_ms, e),
            },
        },
        r is Ok && all_dead_read(due_views(keys@)) ==> stays_sound(
            state_of(*old(txn)),
            state_of(*final(txn)),
        ),
        r matches Ok(result) ==> all_read_back(delivery_views(result.redriven@))
            && all_dead_read_back(dead_views(result.permanent@)),
        r matches Ok(result) ==> (sound(state_of(*old(txn))) && all_dead_read(due_views(keys@))
            ==> told_truly(
            state_of(*old(txn)),
            *policy,
            now_ms,
            delivery_views(result.redriven@),
            dead_views(result.permanent@),
            state_of(*final(txn)),
        ) && result.redriven@.len() + result.permanent@.len() <= keys@.len()),
        keys@.len() == 0 && now_ms < TERMINAL_DEAD_RETENTION_MS ==> r is Ok,
{
    let mut result: RedriveResult = match redrive_keys(txn, keys, policy, now_ms) {
        Ok(result) => result,
        Err(e) => {
            proof {
                law_redrive_stops_where_stuck(
                    redrive_start(state_of(*old(txn))),
                    due_views(keys@),
                    *policy,
                    now_ms,
                );
            }
            return Err(e);
        },
    };
    let ghost mid = state_of(*txn);
    let ghost run = redrive_result(result, mid);
    let count: usize = match compact_terminal_dead_records(txn, now_ms) {
        Err(e) => return Err(e),
        Ok(count) => count,
    };
    result.mutated = result.mutated || count > 0;
    proof {
        lemma_redrive_done(
            state_of(*old(txn)),
            due_views(keys@),
            *policy,
            now_ms,
            run,
            result,
            state_of(*txn),
            count as nat,
        );
        if sound(state_of(*old(txn))) && all_dead_read(due_views(keys@)) {
            assert(after_compaction(mid, now_ms, state_of(*txn)));
            law_redrive_tells_what_is_there(
                state_of(*old(txn)),
                due_views(keys@),
                *policy,
                now_ms,
                run,
                state_of(*txn),
            );
        }
    }
    Ok(result)
}

proof fn lemma_redrive_done(
    s: StoreState,
    keys: Seq<DueView>,
    policy: RedrivePolicy,
    now_ms: u64,
    run: RedriveRun,
    result: RedriveResult,
    t: StoreState,
    count: nat,
)
    requires
        redrive_run(redrive_start(s), keys, policy, now_ms) == Some(run),
        run.redriven == delivery_views(result.redriven@),
        run.permanent == dead_views(result.permanent@),
        compacted(run.state, now_ms, t, count),
        result.mutated == (run.mutated || count > 0),
    ensures
        redrive_done(s, keys, policy, now_ms, result, t),
{
    assert(settled(run.state, run.mutated, now_ms, result.mutated, t));
}

} // verus!
