//! Leasing a delivery by a key of an index.

use vstd::prelude::*;
use crate::delivery_index::{make_index_key, parsed_key, DueIndexKey};
use crate::delivery_scan::StoreError;
use crate::delivery_types::{delivery_view, DeliveryRecord};
use crate::record_codec::{encode_delivery, reads_back, storable};
use crate::store_invariant::{lemma_lease_step_sound, sound, tidy};
use crate::store_model::{held_lease, lease_step, lemma_tables, ready, with_lease, LeaseStep};
use crate::tables::{insert_key, insert_row, remove_key, state_of, StoreState};
use crate::text::{list_holds, same_text, texts_view};
use redb::WriteTransaction;

verus! {

/// What came of a key: the leased delivery, if any, and whether anything changed.
pub struct LeaseKeyOutcome {
    pub record: Option<DeliveryRecord>,
    pub mutated: bool,
}

pub open spec fn is_outcome(
    outcome: LeaseKeyOutcome,
    state: StoreState,
    step: Option<LeaseStep>,
) -> bool {
    step == Some(
        LeaseStep { state, record: delivery_view(outcome.record), mutated: outcome.mutated },
    )
}

/// Takes a key out of the index that it came from.
fn remove_index_key(txn: &mut WriteTransaction, key: &DueIndexKey, expired: bool) -> (r: Result<
    (),
    redb::Error,
>)
    ensures
        r is Ok ==> state_of(*final(txn)) == if expired {
            state_of(*old(txn)).without_key(crate::store_model::leased(), key@.key)
        } else {
            state_of(*old(txn)).without_key(crate::store_model::ready(), key@.key)
        },
{
    proof {
        lemma_tables();
    }
    if expired {
        remove_key(txn, "leased_by_dept_until", key.key.as_str())
    } else {
        remove_key(txn, "ready_by_dept_due", key.key.as_str())
    }
}

/// Takes the delivery that a key of an index names.
fn take_key(
    txn: &mut WriteTransaction,
    key: &DueIndexKey,
    now_ms: u64,
    lease_until: u64,
    dept: Option<&str>,
    excluded: &Vec<String>,
    from_expired_lease: bool,
) -> (r: Result<LeaseKeyOutcome, StoreError>)
    ensures
        ({
            let step = lease_step(
                state_of(*old(txn)),
                key@,
                now_ms,
                lease_until,
                match dept {
                    Some(d) => Some(d@),
                    None => None,
                },
                texts_view(excluded@),
                from_expired_lease,
            );
            match r {
                Ok(outcome) => is_outcome(outcome, state_of(*final(txn)), step),
                Err(e) => e is Storage || (e is Undecodable && e->Undecodable_0@
                    == key@.delivery_id && step is None),
            }
        }),
        r matches Ok(outcome) ==> (outcome.record matches Some(d) ==> reads_back(d@)),
        texts_view(excluded@).contains(key@.delivery_id) ==> r is Ok,
{
    proof {
        reveal(lease_step);
        lemma_tables();
    }
    let delivery_id: &str = key.delivery_id.as_str();
    if list_holds(excluded, delivery_id) {
        return Ok(LeaseKeyOutcome { record: None, mutated: false });
    }
    let mut record: DeliveryRecord = match crate::delivery_store::read_delivery_table(
        txn,
        delivery_id,
    ) {
        Err(e) => return Err(e),
        Ok(Some(record)) => record,
        Ok(None) => {
            return match remove_index_key(txn, key, from_expired_lease) {
                Ok(_) => Ok(LeaseKeyOutcome { record: None, mutated: true }),
                Err(e) => Err(StoreError::Storage(e)),
            };
        },
    };
    let ghost before = record@;
    match dept {
        Some(wanted) => {
            if !same_text(record.dept.as_str(), wanted) {
                return Ok(LeaseKeyOutcome { record: None, mutated: false });
            }
        },
        None => {},
    }
    match remove_index_key(txn, key, from_expired_lease) {
        Ok(_) => {},
        Err(e) => return Err(StoreError::Storage(e)),
    }
    let stale: bool = match record.lease_until_ms {
        Some(until) => !from_expired_lease || until != key.due_ms,
        None => from_expired_lease,
    };
    if stale {
        return Ok(LeaseKeyOutcome { record: None, mutated: true });
    }
    if record.not_before_ms > now_ms && !from_expired_lease {
        let own_key: String = make_index_key(
            record.dept.as_str(),
            record.not_before_ms,
            delivery_id,
        );
        return match insert_key(txn, "ready_by_dept_due", own_key.as_str()) {
            Ok(_) => Ok(LeaseKeyOutcome { record: None, mutated: true }),
            Err(e) => Err(StoreError::Storage(e)),
        };
    }
    match record.lease_until_ms {
        Some(old_lease_until) => {
            let old_key: String = make_index_key(
                record.dept.as_str(),
                old_lease_until,
                delivery_id,
            );
            match remove_key(txn, "leased_by_dept_until", old_key.as_str()) {
                Ok(_) => {},
                Err(e) => return Err(StoreError::Storage(e)),
            }
        },
        None => {},
    }
    record.lease_generation = record.lease_generation.saturating_add(1);
    record.lease_until_ms = Some(lease_until);
    assert(record@ == with_lease(before, lease_until));
    let bytes: Vec<u8> = encode_delivery(&record);
    match insert_row(txn, "delivery_by_id", delivery_id, bytes.as_slice()) {
        Ok(_) => {},
        Err(e) => return Err(StoreError::Storage(e)),
    }
    let new_key: String = make_index_key(record.dept.as_str(), lease_until, delivery_id);
    match insert_key(txn, "leased_by_dept_until", new_key.as_str()) {
        Ok(_) => Ok(LeaseKeyOutcome { record: Some(record), mutated: true }),
        Err(e) => Err(StoreError::Storage(e)),
    }
}

/// Leases the delivery that a key of an index names, where the key says something true. A sound
/// store stays sound. The generation of the new lease holds it, and the one before holds nothing
/// any more.
pub fn lease_key(
    txn: &mut WriteTransaction,
    key: &DueIndexKey,
    now_ms: u64,
    lease_until: u64,
    dept: Option<&str>,
    excluded: &Vec<String>,
    from_expired_lease: bool,
) -> (r: Result<LeaseKeyOutcome, StoreError>)
    ensures
        ({
            let step = lease_step(
                state_of(*old(txn)),
                key@,
                now_ms,
                lease_until,
                match dept {
                    Some(d) => Some(d@),
                    None => None,
                },
                texts_view(excluded@),
                from_expired_lease,
            );
            match r {
                Ok(outcome) => is_outcome(outcome, state_of(*final(txn)), step),
                Err(e) => e is Storage || (e is Undecodable && e->Undecodable_0@
                    == key@.delivery_id && step is None),
            }
        }),
        r is Ok && sound(state_of(*old(txn))) && parsed_key(key@.key) == Some(key@) ==> sound(
            state_of(*final(txn)),
        ) && ((from_expired_lease || state_of(*old(txn)).has_key(ready(), key@.key)) && tidy(
            state_of(*old(txn)),
        ) ==> tidy(state_of(*final(txn)))),
        r matches Ok(outcome) ==> (outcome.record matches Some(d) ==> (storable(d@) ==> held_lease(
            state_of(*final(txn)),
            key@.delivery_id,
            d@.lease_generation,
        ) == Some(d@) && forall|generation: u64|
            generation < u64::MAX && #[trigger] held_lease(
                state_of(*old(txn)),
                key@.delivery_id,
                generation,
            ) is Some ==> held_lease(
                state_of(*final(txn)),
                key@.delivery_id,
                generation,
            ) is None)),
        r matches Ok(outcome) ==> (outcome.record matches Some(d) ==> reads_back(d@)),
        texts_view(excluded@).contains(key@.delivery_id) ==> r is Ok,
{
    let outcome: LeaseKeyOutcome = match take_key(
        txn,
        key,
        now_ms,
        lease_until,
        dept,
        excluded,
        from_expired_lease,
    ) {
        Ok(outcome) => outcome,
        Err(e) => return Err(e),
    };
    proof {
        if sound(state_of(*old(txn))) && parsed_key(key@.key) == Some(key@) {
            lemma_lease_step_sound(
                state_of(*old(txn)),
                key@,
                now_ms,
                lease_until,
                match dept {
                    Some(d) => Some(d@),
                    None => None,
                },
                texts_view(excluded@),
                from_expired_lease,
            );
        }
        reveal(lease_step);
        lemma_tables();
    }
    Ok(outcome)
}

} // verus!
