//! Opening a store, and bringing one that an older version wrote up to date.

use vstd::prelude::*;
use vstd::string::*;
use crate::delivery_index::{dead_index_key, make_dead_due_index_key, make_index_key};
use crate::delivery_scan::StoreError;
use crate::delivery_store::{
    is_terminal_dead_record, should_index_dead_record, suppress_terminal_delivery,
};
use crate::delivery_types::{DeadView, DeliveryRecord};
use crate::record_codec::{
    dead_bytes, decode_dead, decode_dead_record, decode_delivery, encode_dead, read_delivery,
};
use crate::store_invariant::{
    lemma_place_names, lemma_tidy_same, named_dead, place, sound, sound_at, stands, stays_sound,
    tidy,
};
use crate::store_model::{
    awaits_redrive, corrupt, dead, dead_at, dead_due, deliveries, given_up, is_terminal,
    law_suppression_holds, leased, lemma_tables, live_at, meta, ready, suppressed, suppressing,
    suppression, terminal,
};
use crate::tables::{
    ascending, create_keys_table, create_rows_table, create_texts_table, delete_table, get_text,
    insert_key, insert_row, insert_text, keeps_tables, list_keys, list_rows, lists_keys, lists_rows,
    present_tables, row_keys, state_of, Row, StoreState,
};
use crate::text::{copy_text, same_text, texts_view};
use redb::WriteTransaction;

verus! {

// The tables of older versions.

pub open spec fn old_ready() -> Seq<char> {
    "ready_by_due"@
}

pub open spec fn old_leased() -> Seq<char> {
    "leased_by_until"@
}

pub open spec fn old_suppressed() -> Seq<char> {
    "terminal_suppressed_by_id"@
}

pub open spec fn old_filter() -> Seq<char> {
    "terminal_suppression_filter"@
}

pub proof fn lemma_old_tables()
    ensures
        old_ready().len() == 12,
        old_leased().len() == 15,
        old_suppressed().len() == 25,
        old_filter().len() == 27,
{
    reveal_strlit("ready_by_due");
    reveal_strlit("leased_by_until");
    reveal_strlit("terminal_suppressed_by_id");
    reveal_strlit("terminal_suppression_filter");
}

// The indexes of live deliveries.

/// Whether a live delivery belongs in an index at a place.
pub open spec fn is_place(s: StoreState, id: Seq<char>, at: (Seq<char>, Seq<char>)) -> bool {
    live_at(s, id) matches Some(d) && place(d, d.delivery_id) == at
}

/// The store with the two indexes of live deliveries made anew.
#[verifier::opaque]
pub open spec fn rebuilt_due(s: StoreState, t: StoreState) -> bool {
    let base = s.without_table(ready()).without_table(leased());
    &&& t.rows == base.rows
    &&& t.texts == base.texts
    &&& forall|at: (Seq<char>, Seq<char>)| #[trigger]
        t.keys.contains(at) <==> base.keys.contains(at) || exists|id: Seq<char>| #[trigger]
            is_place(s, id, at)
}

spec fn entry_of(bytes: Seq<u8>) -> Option<(Seq<char>, Seq<char>)> {
    match decode_delivery(bytes) {
        Some(d) => Some(place(d, d.delivery_id)),
        None => None,
    }
}

spec fn entry_before(rows: Seq<Row>, n: int, at: (Seq<char>, Seq<char>)) -> bool {
    exists|j: int| 0 <= j < n && entry_of(#[trigger] rows[j].value@) == Some(at)
}

/// Makes the indexes of live deliveries anew.
pub fn rebuild_due_indexes(txn: &mut WriteTransaction) -> (r: Result<(), StoreError>)
    ensures
        match r {
            Ok(_) => rebuilt_due(state_of(*old(txn)), state_of(*final(txn))) && forall|
                id: Seq<char>,
            | !#[trigger] corrupt(state_of(*old(txn)), id),
            Err(e) => e is Storage || (e is Undecodable && corrupt(
                state_of(*old(txn)),
                e->Undecodable_0@,
            )),
        },
        r is Ok ==> keeps_tables(*old(txn), *final(txn)),
{
    proof {
        lemma_tables();
    }
    let ghost s = state_of(*txn);
    match delete_table(txn, "ready_by_dept_due") {
        Ok(_) => {},
        Err(e) => return Err(StoreError::Storage(e)),
    }
    match delete_table(txn, "leased_by_dept_until") {
        Ok(_) => {},
        Err(e) => return Err(StoreError::Storage(e)),
    }
    let ghost base = state_of(*txn);
    match create_keys_table(txn, "ready_by_dept_due") {
        Ok(_) => {},
        Err(e) => return Err(StoreError::Storage(e)),
    }
    match create_keys_table(txn, "leased_by_dept_until") {
        Ok(_) => {},
        Err(e) => return Err(StoreError::Storage(e)),
    }
    let rows: Vec<Row> = match list_rows(txn, "delivery_by_id") {
        Ok(rows) => rows,
        Err(e) => return Err(StoreError::Storage(e)),
    };
    proof {
        assert forall|id: Seq<char>| #[trigger] s.row(deliveries(), id) == base.row(
            deliveries(),
            id,
        ) by {}
    }
    let mut i: usize = 0;
    while i < rows.len()
        invariant
            keeps_tables(*old(txn), *txn),
            ready().len() == 17,
            leased().len() == 20,
            s == state_of(*old(txn)),
            i <= rows@.len(),
            lists_rows(rows@, base.rows, deliveries()),
            forall|id: Seq<char>| #[trigger]
                s.row(deliveries(), id) == base.row(deliveries(), id),
            state_of(*txn).rows == base.rows,
            state_of(*txn).texts == base.texts,
            forall|at: (Seq<char>, Seq<char>)| #[trigger]
                state_of(*txn).keys.contains(at) <==> base.keys.contains(at) || entry_before(
                    rows@,
                    i as int,
                    at,
                ),
            forall|j: int| 0 <= j < i ==> entry_of(#[trigger] rows@[j].value@) is Some,
        decreases rows@.len() - i,
    {
        let ghost before = state_of(*txn);
        let ghost bytes = rows@[i as int].value@;
        let ghost key = rows@[i as int].key@;
        proof {
            assert(base.rows.contains_key((deliveries(), key)));
            assert(base.row(deliveries(), key) == Some(bytes));
            assert(s.row(deliveries(), key) == Some(bytes));
        }
        let record: DeliveryRecord = match read_delivery(rows[i].value.as_slice()) {
            None => {
                return Err(StoreError::Undecodable(copy_text(rows[i].key.as_str())));
            },
            Some(record) => record,
        };
        let ghost at = place(record@, record@.delivery_id);
        match record.lease_until_ms {
            Some(until) => {
                let k: String = make_index_key(
                    record.dept.as_str(),
                    until,
                    record.delivery_id.as_str(),
                );
                match insert_key(txn, "leased_by_dept_until", k.as_str()) {
                    Ok(_) => {},
                    Err(e) => return Err(StoreError::Storage(e)),
                }
            },
            None => {
                let k: String = make_index_key(
                    record.dept.as_str(),
                    record.not_before_ms,
                    record.delivery_id.as_str(),
                );
                match insert_key(txn, "ready_by_dept_due", k.as_str()) {
                    Ok(_) => {},
                    Err(e) => return Err(StoreError::Storage(e)),
                }
            },
        }
        proof {
            assert(entry_of(bytes) == Some(at));
            assert(state_of(*txn).keys == before.keys.insert(at));
            assert forall|other: (Seq<char>, Seq<char>)| #[trigger]
                state_of(*txn).keys.contains(other) <==> base.keys.contains(other) || entry_before(
                    rows@,
                    i + 1,
                    other,
                ) by {
                assert(before.keys.contains(other) <==> base.keys.contains(other) || entry_before(
                    rows@,
                    i as int,
                    other,
                ));
                if other == at {
                    assert(entry_of(rows@[i as int].value@) == Some(other));
                }
                if entry_before(rows@, i as int, other) {
                    let j = choose|j: int|
                        0 <= j < i && entry_of(#[trigger] rows@[j].value@) == Some(other);
                    assert(0 <= j < i + 1 && entry_of(rows@[j].value@) == Some(other));
                }
            }
        }
        i = i + 1;
    }
    proof {
        reveal(rebuilt_due);
        let t = state_of(*txn);
        assert forall|at: (Seq<char>, Seq<char>)| #[trigger]
            t.keys.contains(at) <==> base.keys.contains(at) || exists|id: Seq<char>| #[trigger]
                is_place(s, id, at) by {
            if entry_before(rows@, rows@.len() as int, at) {
                let j = choose|j: int|
                    0 <= j < rows@.len() && entry_of(#[trigger] rows@[j].value@) == Some(at);
                let id = rows@[j].key@;
                assert(base.rows.contains_key((deliveries(), id)));
                assert(s.row(deliveries(), id) == base.row(deliveries(), id));
                assert(is_place(s, id, at));
            }
            if exists|id: Seq<char>| #[trigger] is_place(s, id, at) {
                let id = choose|id: Seq<char>| #[trigger] is_place(s, id, at);
                assert(s.row(deliveries(), id) == base.row(deliveries(), id));
                assert(base.rows.contains_key((deliveries(), id)));
                assert(row_keys(rows@).contains(id));
                let j = choose|j: int| 0 <= j < row_keys(rows@).len() && row_keys(rows@)[j] == id;
                assert(rows@[j].key@ == id);
                assert(entry_of(rows@[j].value@) == Some(at));
            }
        }
        assert forall|id: Seq<char>| !#[trigger] corrupt(s, id) by {
            if s.row(deliveries(), id) is Some {
                assert(s.row(deliveries(), id) == base.row(deliveries(), id));
                assert(base.rows.contains_key((deliveries(), id)));
                assert(row_keys(rows@).contains(id));
                let j = choose|j: int| 0 <= j < row_keys(rows@).len() && row_keys(rows@)[j] == id;
                assert(rows@[j].key@ == id);
                assert(entry_of(rows@[j].value@) is Some);
            }
        }
    }
    Ok(())
}

// Dead deliveries of older versions.

/// A dead delivery given up, where there is one.
pub open spec fn retired(d: Option<DeadView>) -> Option<DeadView> {
    match d {
        Some(d) => Some(given_up(d)),
        None => None,
    }
}

/// The store with every dead delivery that can be read given up for good.
#[verifier::opaque]
pub open spec fn all_retired(s: StoreState, t: StoreState) -> bool {
    &&& t.keys == s.keys
    &&& t.texts == s.texts
    &&& forall|at: (Seq<char>, Seq<char>)| #[trigger]
        t.rows.contains_key(at) == s.rows.contains_key(at)
    &&& forall|at: (Seq<char>, Seq<char>)|
        s.rows.contains_key(at) ==> #[trigger] t.rows[at] == retired_row(at.0, s.rows[at])
}

pub open spec fn retired_row(table: Seq<char>, bytes: Seq<u8>) -> Seq<u8> {
    match decode_dead(bytes) {
        Some(d) => if table == dead() {
            dead_bytes(given_up(d))
        } else {
            bytes
        },
        None => bytes,
    }
}

/// Gives every dead delivery up for good.
pub fn mark_existing_dead_records_permanent(txn: &mut WriteTransaction) -> (r: Result<
    (),
    StoreError,
>)
    ensures
        match r {
            Ok(_) => all_retired(state_of(*old(txn)), state_of(*final(txn))) && forall|
                id: Seq<char>,
            | #[trigger]
                dead_at(state_of(*final(txn)), id) == retired(dead_at(state_of(*old(txn)), id)),
            Err(e) => e is Storage,
        },
        r is Ok ==> keeps_tables(*old(txn), *final(txn)),
{
    proof {
        lemma_tables();
    }
    let ghost s = state_of(*txn);
    let rows: Vec<Row> = match list_rows(txn, "dead_by_id") {
        Ok(rows) => rows,
        Err(e) => return Err(StoreError::Storage(e)),
    };
    let mut i: usize = 0;
    while i < rows.len()
        invariant
            keeps_tables(*old(txn), *txn),
            dead().len() == 10,
            s == state_of(*old(txn)),
            i <= rows@.len(),
            lists_rows(rows@, s.rows, dead()),
            state_of(*txn).keys == s.keys,
            state_of(*txn).texts == s.texts,
            forall|at: (Seq<char>, Seq<char>)| #[trigger]
                state_of(*txn).rows.contains_key(at) == s.rows.contains_key(at),
            forall|at: (Seq<char>, Seq<char>)|
                s.rows.contains_key(at) ==> #[trigger] state_of(*txn).rows[at] == if key_before(
                    rows@,
                    i as int,
                    at.1,
                ) {
                    retired_row(at.0, s.rows[at])
                } else {
                    s.rows[at]
                },
            forall|j: int|
                0 <= j < i ==> decode_dead(
                    retired_row(dead(), #[trigger] rows@[j].value@),
                ) == retired(decode_dead(rows@[j].value@)),
        decreases rows@.len() - i,
    {
        let ghost before = state_of(*txn);
        let ghost id = rows@[i as int].key@;
        let ghost bytes = rows@[i as int].value@;
        proof {
            assert(s.rows.contains_key((dead(), id)) && s.rows[(dead(), id)] == bytes);
        }
        match decode_dead_record(rows[i].value.as_slice()) {
            None => {},
            Some(mut record) => {
                let ghost was = record@;
                record.permanent = true;
                record.replayable = false;
                record.record = None;
                assert(record@ == given_up(was));
                let new: Vec<u8> = encode_dead(&record);
                match insert_row(txn, "dead_by_id", rows[i].key.as_str(), new.as_slice()) {
                    Ok(_) => {},
                    Err(e) => return Err(StoreError::Storage(e)),
                }
            },
        }
        proof {
            let now = state_of(*txn);
            assert forall|at: (Seq<char>, Seq<char>)|
                s.rows.contains_key(at) implies #[trigger] now.rows[at] == if key_before(
                rows@,
                i + 1,
                at.1,
            ) {
                retired_row(at.0, s.rows[at])
            } else {
                s.rows[at]
            } by {
                assert(before.rows[at] == if key_before(rows@, i as int, at.1) {
                    retired_row(at.0, s.rows[at])
                } else {
                    s.rows[at]
                });
                if key_before(rows@, i as int, at.1) {
                    let j = choose|j: int| 0 <= j < i && (#[trigger] rows@[j]).key@ == at.1;
                    assert(0 <= j < i + 1 && rows@[j].key@ == at.1);
                } else if at.1 == id {
                    assert(rows@[i as int].key@ == at.1);
                    assert(key_before(rows@, i + 1, at.1));
                }
            }
        }
        i = i + 1;
    }
    proof {
        reveal(all_retired);
        let t = state_of(*txn);
        assert forall|at: (Seq<char>, Seq<char>)|
            s.rows.contains_key(at) implies #[trigger] t.rows[at] == retired_row(
            at.0,
            s.rows[at],
        ) by {
            if at.0 == dead() {
                assert(s.rows.contains_key((dead(), at.1)));
                assert(row_keys(rows@).contains(at.1));
                let j = choose|j: int| 0 <= j < row_keys(rows@).len() && row_keys(rows@)[j] == at.1;
                assert(rows@[j].key@ == at.1);
                assert(key_before(rows@, rows@.len() as int, at.1));
            }
        }
        assert forall|id: Seq<char>| #[trigger] dead_at(t, id) == retired(dead_at(s, id)) by {
            if s.rows.contains_key((dead(), id)) {
                assert(row_keys(rows@).contains(id));
                let j = choose|j: int| 0 <= j < row_keys(rows@).len() && row_keys(rows@)[j] == id;
                assert(rows@[j].key@ == id);
                assert(s.rows[(dead(), id)] == rows@[j].value@);
                assert(t.rows[(dead(), id)] == retired_row(dead(), rows@[j].value@));
            }
        }
    }
    Ok(())
}

spec fn key_before(rows: Seq<Row>, n: int, key: Seq<char>) -> bool {
    exists|j: int| 0 <= j < n && (#[trigger] rows[j]).key@ == key
}

/// Whether a dead delivery that waits to be sent again belongs in the index at a place.
pub open spec fn is_dead_place(s: StoreState, id: Seq<char>, at: (Seq<char>, Seq<char>)) -> bool {
    dead_at(s, id) matches Some(d) && awaits_redrive(d) && at == (
        dead_due(),
        dead_index_key(d.dept, d.dead_at_ms, id),
    )
}

/// The store with the index of dead deliveries that wait to be sent again made anew.
#[verifier::opaque]
pub open spec fn rebuilt_dead_due(s: StoreState, t: StoreState) -> bool {
    let base = s.without_table(dead_due());
    &&& t.rows == base.rows
    &&& t.texts == base.texts
    &&& forall|at: (Seq<char>, Seq<char>)| #[trigger]
        t.keys.contains(at) <==> base.keys.contains(at) || exists|id: Seq<char>| #[trigger]
            is_dead_place(s, id, at)
}

/// Whether a dead delivery that stays dead belongs in the index at a place.
pub open spec fn is_terminal_place(
    s: StoreState,
    id: Seq<char>,
    at: (Seq<char>, Seq<char>),
) -> bool {
    dead_at(s, id) matches Some(d) && is_terminal(d) && at == (
        terminal(),
        dead_index_key(d.dept, d.dead_at_ms, id),
    )
}

/// The store with the index of dead deliveries that stay dead made anew.
pub open spec fn reindexed_terminal(s: StoreState, t: StoreState) -> bool {
    let base = s.without_table(terminal());
    &&& t.rows == base.rows
    &&& t.texts == base.texts
    &&& forall|at: (Seq<char>, Seq<char>)| #[trigger]
        t.keys.contains(at) <==> base.keys.contains(at) || exists|id: Seq<char>| #[trigger]
            is_terminal_place(s, id, at)
}

spec fn dead_entry(row: Row, stays: bool) -> Option<(Seq<char>, Seq<char>)> {
    match decode_dead(row.value@) {
        Some(d) => if stays && is_terminal(d) {
            Some((terminal(), dead_index_key(d.dept, d.dead_at_ms, row.key@)))
        } else if !stays && awaits_redrive(d) {
            Some((dead_due(), dead_index_key(d.dept, d.dead_at_ms, row.key@)))
        } else {
            None
        },
        None => None,
    }
}

spec fn dead_entry_before(
    rows: Seq<Row>,
    stays: bool,
    n: int,
    at: (Seq<char>, Seq<char>),
) -> bool {
    exists|j: int| 0 <= j < n && dead_entry(#[trigger] rows[j], stays) == Some(at)
}

/// Indexes dead deliveries: those that stay dead, or those that wait to be sent again. Returns the
/// ids of those that were indexed.
fn index_dead_rows(txn: &mut WriteTransaction, rows: &Vec<Row>, stays: bool) -> (r: Result<
    Vec<String>,
    StoreError,
>)
    requires
        ascending(row_keys(rows@)),
    ensures
        match r {
            Ok(ids) => {
                &&& state_of(*final(txn)).rows == state_of(*old(txn)).rows
                &&& state_of(*final(txn)).texts == state_of(*old(txn)).texts
                &&& forall|at: (Seq<char>, Seq<char>)| #[trigger]
                    state_of(*final(txn)).keys.contains(at) <==> state_of(
                        *old(txn),
                    ).keys.contains(at) || dead_entry_before(rows@, stays, rows@.len() as int, at)
                &&& ascending(texts_view(ids@))
                &&& forall|j: int|
                    0 <= j < rows@.len() && dead_entry(#[trigger] rows@[j], stays) is Some
                        ==> texts_view(ids@).contains(rows@[j].key@)
                &&& forall|i: int|
                    0 <= i < ids@.len() ==> indexed_row(
                        rows@,
                        stays,
                        rows@.len() as int,
                        #[trigger] texts_view(ids@)[i],
                    )
            },
            Err(e) => e is Storage,
        },
        r is Ok ==> keeps_tables(*old(txn), *final(txn)),
        rows@.len() == 0 ==> r is Ok,
{
    proof {
        lemma_tables();
    }
    let ghost s = state_of(*txn);
    let mut ids: Vec<String> = Vec::new();
    let mut i: usize = 0;
    while i < rows.len()
        invariant
            keeps_tables(*old(txn), *txn),
            dead_due().len() == 16,
            terminal().len() == 21,
            s == state_of(*old(txn)),
            i <= rows@.len(),
            ascending(row_keys(rows@)),
            state_of(*txn).rows == s.rows,
            state_of(*txn).texts == s.texts,
            forall|at: (Seq<char>, Seq<char>)| #[trigger]
                state_of(*txn).keys.contains(at) <==> s.keys.contains(at) || dead_entry_before(
                    rows@,
                    stays,
                    i as int,
                    at,
                ),
            ascending(texts_view(ids@)),
            forall|j: int|
                0 <= j < i && dead_entry(#[trigger] rows@[j], stays) is Some ==> texts_view(
                    ids@,
                ).contains(rows@[j].key@),
            forall|k: int|
                0 <= k < ids@.len() ==> indexed_row(
                    rows@,
                    stays,
                    i as int,
                    #[trigger] texts_view(ids@)[k],
                ),
        decreases rows@.len() - i,
    {
        let ghost before = state_of(*txn);
        let ghost had = texts_view(ids@);
        let ghost row = rows@[i as int];
        let mut found: bool = false;
        match decode_dead_record(rows[i].value.as_slice()) {
            None => {},
            Some(record) => {
                if (stays && is_terminal_dead_record(&record)) || (!stays
                    && should_index_dead_record(&record)) {
                    found = true;
                    let key: String = make_dead_due_index_key(
                        record.dept.as_str(),
                        record.dead_at_ms,
                        rows[i].key.as_str(),
                    );
                    let inserted: Result<(), redb::Error> = if stays {
                        insert_key(txn, "terminal_dead_by_time", key.as_str())
                    } else {
                        insert_key(txn, "dead_by_dept_due", key.as_str())
                    };
                    match inserted {
                        Ok(_) => {},
                        Err(e) => return Err(StoreError::Storage(e)),
                    }
                }
            },
        }
        assert(found == (dead_entry(row, stays) is Some));
        if found {
            ids.push(copy_text(rows[i].key.as_str()));
            assert(texts_view(ids@) =~= had.push(row.key@));
        }
        proof {
            lemma_index_step(before, state_of(*txn), s, rows@, stays, i as int);
            let views = texts_view(ids@);
            assert forall|k: int| 0 <= k < ids@.len() implies indexed_row(
                rows@,
                stays,
                i + 1,
                #[trigger] views[k],
            ) by {
                if k < had.len() {
                    assert(views[k] == had[k]);
                    assert(indexed_row(rows@, stays, i as int, had[k]));
                    let j = choose|j: int|
                        0 <= j < i && (#[trigger] rows@[j]).key@ == had[k] && dead_entry(
                            rows@[j],
                            stays,
                        ) is Some;
                    assert(0 <= j < i + 1 && rows@[j].key@ == views[k]);
                } else {
                    assert(rows@[i as int].key@ == views[k]);
                }
            }
            assert(ascending(views)) by {
                assert forall|a: int, b: int| 0 <= a < b < views.len() implies crate::order::text_less(
                    #[trigger] views[a],
                    #[trigger] views[b],
                ) by {
                    if b < had.len() {
                        assert(had[a] == views[a] && had[b] == views[b]);
                    } else {
                        assert(views[a] == had[a]);
                        assert(indexed_row(rows@, stays, i as int, had[a]));
                        let j = choose|j: int|
                            0 <= j < i && (#[trigger] rows@[j]).key@ == had[a] && dead_entry(
                                rows@[j],
                                stays,
                            ) is Some;
                        assert(row_keys(rows@)[j] == views[a]);
                        assert(row_keys(rows@)[i as int] == views[b]);
                    }
                }
            }
            assert forall|j: int|
                0 <= j < i + 1 && dead_entry(
                    #[trigger] rows@[j],
                    stays,
                ) is Some implies views.contains(rows@[j].key@) by {
                if j < i {
                    assert(had.contains(rows@[j].key@));
                    let k = choose|k: int| 0 <= k < had.len() && had[k] == rows@[j].key@;
                    assert(views[k] == rows@[j].key@);
                } else {
                    assert(views[views.len() - 1] == rows@[j].key@);
                }
            }
        }
        i = i + 1;
    }
    Ok(ids)
}

spec fn indexed_row(rows: Seq<Row>, stays: bool, n: int, id: Seq<char>) -> bool {
    exists|j: int|
        0 <= j < n && (#[trigger] rows[j]).key@ == id && dead_entry(rows[j], stays) is Some
}

proof fn lemma_index_step(
    before: StoreState,
    now: StoreState,
    s: StoreState,
    rows: Seq<Row>,
    stays: bool,
    i: int,
)
    requires
        0 <= i < rows.len(),
        forall|at: (Seq<char>, Seq<char>)| #[trigger]
            before.keys.contains(at) <==> s.keys.contains(at) || dead_entry_before(
                rows,
                stays,
                i,
                at,
            ),
        now.keys == match dead_entry(rows[i], stays) {
            Some(at) => before.keys.insert(at),
            None => before.keys,
        },
    ensures
        forall|at: (Seq<char>, Seq<char>)| #[trigger]
            now.keys.contains(at) <==> s.keys.contains(at) || dead_entry_before(
                rows,
                stays,
                i + 1,
                at,
            ),
{
    assert forall|at: (Seq<char>, Seq<char>)| #[trigger]
        now.keys.contains(at) <==> s.keys.contains(at) || dead_entry_before(
            rows,
            stays,
            i + 1,
            at,
        ) by {
        assert(before.keys.contains(at) <==> s.keys.contains(at) || dead_entry_before(
            rows,
            stays,
            i,
            at,
        ));
        if dead_entry(rows[i], stays) == Some(at) {
            assert(dead_entry_before(rows, stays, i + 1, at));
        }
        if dead_entry_before(rows, stays, i, at) {
            let j = choose|j: int| 0 <= j < i && dead_entry(#[trigger] rows[j], stays) == Some(at);
            assert(0 <= j < i + 1 && dead_entry(rows[j], stays) == Some(at));
        }
        if dead_entry_before(rows, stays, i + 1, at) {
            let j = choose|j: int|
                0 <= j < i + 1 && dead_entry(#[trigger] rows[j], stays) == Some(at);
            if j < i {
                assert(dead_entry_before(rows, stays, i, at));
            }
        }
    }
}

/// What the rows of dead deliveries say is what the store says of them.
proof fn lemma_dead_entries(
    s: StoreState,
    base: StoreState,
    rows: Seq<Row>,
    stays: bool,
    at: (Seq<char>, Seq<char>),
)
    requires
        lists_rows(rows, base.rows, dead()),
        forall|id: Seq<char>| #[trigger] s.row(dead(), id) == base.row(dead(), id),
    ensures
        dead_entry_before(rows, stays, rows.len() as int, at) <==> if stays {
            exists|id: Seq<char>| #[trigger] is_terminal_place(s, id, at)
        } else {
            exists|id: Seq<char>| #[trigger] is_dead_place(s, id, at)
        },
{
    if dead_entry_before(rows, stays, rows.len() as int, at) {
        let j = choose|j: int|
            0 <= j < rows.len() && dead_entry(#[trigger] rows[j], stays) == Some(at);
        let id = rows[j].key@;
        assert(base.rows.contains_key((dead(), id)));
        assert(s.row(dead(), id) == base.row(dead(), id));
        if stays {
            assert(is_terminal_place(s, id, at));
        } else {
            assert(is_dead_place(s, id, at));
        }
    }
    if stays && exists|id: Seq<char>| #[trigger] is_terminal_place(s, id, at) {
        let id = choose|id: Seq<char>| #[trigger] is_terminal_place(s, id, at);
        lemma_row_of(s, base, rows, id);
    }
    if !stays && exists|id: Seq<char>| #[trigger] is_dead_place(s, id, at) {
        let id = choose|id: Seq<char>| #[trigger] is_dead_place(s, id, at);
        lemma_row_of(s, base, rows, id);
    }
}

proof fn lemma_row_of(s: StoreState, base: StoreState, rows: Seq<Row>, id: Seq<char>)
    requires
        lists_rows(rows, base.rows, dead()),
        s.row(dead(), id) == base.row(dead(), id),
        s.row(dead(), id) is Some,
    ensures
        exists|j: int|
            0 <= j < rows.len() && (#[trigger] rows[j]).key@ == id && s.row(dead(), id) == Some(
                rows[j].value@,
            ),
{
    assert(base.rows.contains_key((dead(), id)));
    assert(row_keys(rows).contains(id));
    let j = choose|j: int| 0 <= j < row_keys(rows).len() && row_keys(rows)[j] == id;
    assert(rows[j].key@ == id);
}

/// Makes the index of dead deliveries that wait to be sent again anew.
pub fn rebuild_dead_due_index(txn: &mut WriteTransaction) -> (r: Result<(), StoreError>)
    ensures
        match r {
            Ok(_) => rebuilt_dead_due(state_of(*old(txn)), state_of(*final(txn))),
            Err(e) => e is Storage,
        },
        r is Ok ==> keeps_tables(*old(txn), *final(txn)),
{
    proof {
        lemma_tables();
    }
    let ghost s = state_of(*txn);
    match delete_table(txn, "dead_by_dept_due") {
        Ok(_) => {},
        Err(e) => return Err(StoreError::Storage(e)),
    }
    let ghost base = state_of(*txn);
    match create_keys_table(txn, "dead_by_dept_due") {
        Ok(_) => {},
        Err(e) => return Err(StoreError::Storage(e)),
    }
    let rows: Vec<Row> = match list_rows(txn, "dead_by_id") {
        Ok(rows) => rows,
        Err(e) => return Err(StoreError::Storage(e)),
    };
    proof {
        assert forall|id: Seq<char>| #[trigger] s.row(dead(), id) == base.row(dead(), id) by {}
    }
    match index_dead_rows(txn, &rows, false) {
        Ok(_) => {},
        Err(e) => return Err(e),
    }
    proof {
        reveal(rebuilt_dead_due);
        let t = state_of(*txn);
        assert forall|at: (Seq<char>, Seq<char>)| #[trigger]
            t.keys.contains(at) <==> base.keys.contains(at) || exists|id: Seq<char>| #[trigger]
                is_dead_place(s, id, at) by {
            lemma_dead_entries(s, base, rows@, false, at);
        }
    }
    Ok(())
}

// Suppression of ids.

/// The store with ids suppressed one after the other.
pub open spec fn suppressing_all(s: StoreState, ids: Seq<Seq<char>>) -> Option<StoreState>
    decreases ids.len(),
{
    if ids.len() == 0 {
        Some(s)
    } else {
        match suppressing_all(s, ids.drop_last()) {
            Some(t) => suppressing(t, ids.last()),
            None => None,
        }
    }
}

/// The first of some ids for which there is no slot.
pub open spec fn first_without_slot(s: StoreState, ids: Seq<Seq<char>>) -> Option<Seq<char>>
    decreases ids.len(),
{
    if ids.len() == 0 {
        None
    } else {
        match suppressing_all(s, ids.drop_last()) {
            None => first_without_slot(s, ids.drop_last()),
            Some(t) => if suppressing(t, ids.last()) is None {
                Some(ids.last())
            } else {
                None
            },
        }
    }
}

/// Ids cannot all be suppressed where there is no slot for one of them, and only there.
pub proof fn law_one_is_without_slot(s: StoreState, ids: Seq<Seq<char>>)
    ensures
        suppressing_all(s, ids) is None <==> first_without_slot(s, ids) is Some,
    decreases ids.len(),
{
    if ids.len() > 0 {
        law_one_is_without_slot(s, ids.drop_last());
    }
}

proof fn lemma_first_stays(s: StoreState, ids: Seq<Seq<char>>, n: int)
    requires
        0 <= n <= ids.len(),
        suppressing_all(s, ids.take(n)) is None,
    ensures
        suppressing_all(s, ids) is None,
        first_without_slot(s, ids) == first_without_slot(s, ids.take(n)),
    decreases ids.len() - n,
{
    if n == ids.len() {
        assert(ids.take(n) =~= ids);
    } else {
        assert(ids.take(n + 1).drop_last() =~= ids.take(n));
        lemma_first_stays(s, ids, n + 1);
    }
}

/// Ids that are suppressed one after the other are all suppressed, and nothing else changes.
pub proof fn law_all_are_suppressed(s: StoreState, ids: Seq<Seq<char>>)
    requires
        suppressing_all(s, ids) is Some,
    ensures
        suppressing_all(s, ids)->0.rows == s.rows,
        suppressing_all(s, ids)->0.keys == s.keys,
        forall|i: int|
            0 <= i < ids.len() ==> suppressed(suppressing_all(s, ids)->0, #[trigger] ids[i]),
        forall|id: Seq<char>| #[trigger]
            suppressed(s, id) ==> suppressed(suppressing_all(s, ids)->0, id),
    decreases ids.len(),
{
    if ids.len() > 0 {
        let front = ids.drop_last();
        law_all_are_suppressed(s, front);
        let mid = suppressing_all(s, front)->0;
        law_suppression_holds(mid, ids.last());
        let t = suppressing_all(s, ids)->0;
        assert forall|i: int| 0 <= i < ids.len() implies suppressed(t, #[trigger] ids[i]) by {
            if i < front.len() {
                assert(suppressed(mid, front[i]));
            }
        }
        assert forall|id: Seq<char>| #[trigger] suppressed(s, id) implies suppressed(t, id) by {
            assert(suppressed(mid, id));
        }
    }
}

fn suppress_all(txn: &mut WriteTransaction, ids: &Vec<String>) -> (r: Result<(), StoreError>)
    ensures
        match r {
            Ok(_) => suppressing_all(state_of(*old(txn)), texts_view(ids@)) == Some(
                state_of(*final(txn)),
            ),
            Err(e) => e is Storage || (e is SuppressionExhausted && first_without_slot(
                state_of(*old(txn)),
                texts_view(ids@),
            ) == Some(e->SuppressionExhausted_0@)),
        },
        r is Ok ==> keeps_tables(*old(txn), *final(txn)),
        ids@.len() == 0 ==> r is Ok,
{
    let ghost s = state_of(*txn);
    let ghost views = texts_view(ids@);
    let mut i: usize = 0;
    while i < ids.len()
        invariant
            keeps_tables(*old(txn), *txn),
            s == state_of(*old(txn)),
            views == texts_view(ids@),
            i <= ids@.len(),
            suppressing_all(s, views.take(i as int)) == Some(state_of(*txn)),
        decreases ids@.len() - i,
    {
        proof {
            assert(views.take(i + 1).drop_last() =~= views.take(i as int));
            assert(views.take(i + 1).last() == ids@[i as int]@);
        }
        match suppress_terminal_delivery(txn, ids[i].as_str()) {
            Ok(_) => {},
            Err(e) => {
                proof {
                    if e is SuppressionExhausted {
                        lemma_first_stays(s, views, i + 1);
                    }
                }
                return Err(e);
            },
        }
        i = i + 1;
    }
    assert(views.take(views.len() as int) =~= views);
    Ok(())
}

/// The ids of the dead deliveries that stay dead, in order.
pub open spec fn lists_terminal(ids: Seq<Seq<char>>, s: StoreState) -> bool {
    &&& ascending(ids)
    &&& forall|i: int|
        0 <= i < ids.len() ==> (dead_at(s, #[trigger] ids[i]) matches Some(d) && is_terminal(d))
    &&& forall|id: Seq<char>|
        (#[trigger] dead_at(s, id) matches Some(d) && is_terminal(d)) ==> ids.contains(id)
}

/// The store with the index of dead deliveries that stay dead made anew, and their ids suppressed.
#[verifier::opaque]
pub open spec fn rebuilt_terminal(s: StoreState, t: StoreState) -> bool {
    exists|mid: StoreState, ids: Seq<Seq<char>>|
        #![trigger reindexed_terminal(s, mid), lists_terminal(ids, s)]
        reindexed_terminal(s, mid) && lists_terminal(ids, s) && suppressing_all(mid, ids) == Some(t)
}

/// Whether an id is the first, of those of the dead deliveries that stay dead, for which there is no
/// slot.
pub open spec fn terminal_without_slot(s: StoreState, delivery_id: Seq<char>) -> bool {
    exists|mid: StoreState, ids: Seq<Seq<char>>|
        #![trigger reindexed_terminal(s, mid), lists_terminal(ids, s)]
        reindexed_terminal(s, mid) && lists_terminal(ids, s) && first_without_slot(mid, ids) == Some(
            delivery_id,
        )
}

/// Makes the index of dead deliveries that stay dead anew, and suppresses their ids.
pub fn rebuild_terminal_dead_tables(txn: &mut WriteTransaction) -> (r: Result<(), StoreError>)
    ensures
        match r {
            Ok(_) => rebuilt_terminal(state_of(*old(txn)), state_of(*final(txn))),
            Err(e) => e is Storage || (e is SuppressionExhausted && terminal_without_slot(
                state_of(*old(txn)),
                e->SuppressionExhausted_0@,
            )),
        },
        r is Ok ==> keeps_tables(*old(txn), *final(txn)),
{
    proof {
        lemma_tables();
    }
    let ghost s = state_of(*txn);
    match delete_table(txn, "terminal_dead_by_time") {
        Ok(_) => {},
        Err(e) => return Err(StoreError::Storage(e)),
    }
    let ghost base = state_of(*txn);
    match create_keys_table(txn, "terminal_dead_by_time") {
        Ok(_) => {},
        Err(e) => return Err(StoreError::Storage(e)),
    }
    let rows: Vec<Row> = match list_rows(txn, "dead_by_id") {
        Ok(rows) => rows,
        Err(e) => return Err(StoreError::Storage(e)),
    };
    proof {
        assert forall|id: Seq<char>| #[trigger] s.row(dead(), id) == base.row(dead(), id) by {}
    }
    let ids: Vec<String> = match index_dead_rows(txn, &rows, true) {
        Ok(ids) => ids,
        Err(e) => return Err(e),
    };
    let ghost mid = state_of(*txn);
    proof {
        assert forall|at: (Seq<char>, Seq<char>)| #[trigger]
            mid.keys.contains(at) <==> base.keys.contains(at) || exists|id: Seq<char>| #[trigger]
                is_terminal_place(s, id, at) by {
            lemma_dead_entries(s, base, rows@, true, at);
        }
        assert(reindexed_terminal(s, mid));
        let views = texts_view(ids@);
        assert forall|i: int| 0 <= i < views.len() implies (dead_at(s, #[trigger] views[i]) matches Some(
            d,
        ) && is_terminal(d)) by {
            assert(indexed_row(rows@, true, rows@.len() as int, views[i]));
            let j = choose|j: int|
                0 <= j < rows@.len() && (#[trigger] rows@[j]).key@ == views[i] && dead_entry(
                    rows@[j],
                    true,
                ) is Some;
            assert(base.rows.contains_key((dead(), rows@[j].key@)));
            assert(s.row(dead(), views[i]) == base.row(dead(), views[i]));
        }
        assert forall|id: Seq<char>|
            (#[trigger] dead_at(s, id) matches Some(d) && is_terminal(d)) implies views.contains(
            id,
        ) by {
            assert(s.row(dead(), id) == base.row(dead(), id));
            lemma_row_of(s, base, rows@, id);
            let j = choose|j: int|
                0 <= j < rows@.len() && (#[trigger] rows@[j]).key@ == id && s.row(dead(), id)
                    == Some(rows@[j].value@);
            assert(dead_entry(rows@[j], true) is Some);
        }
        assert(lists_terminal(views, s));
        reveal(rebuilt_terminal);
    }
    suppress_all(txn, &ids)
}

/// The store with the ids that an older version suppressed suppressed in the slots.
#[verifier::opaque]
pub open spec fn imported(s: StoreState, t: StoreState) -> bool {
    exists|ids: Seq<Seq<char>>| #[trigger]
        lists_keys(ids, s.keys, old_suppressed()) && suppressing_all(s, ids) == Some(t)
}

/// Whether an id is the first, of those that an older version suppressed, for which there is no slot.
pub open spec fn legacy_without_slot(s: StoreState, delivery_id: Seq<char>) -> bool {
    exists|ids: Seq<Seq<char>>| #[trigger]
        lists_keys(ids, s.keys, old_suppressed()) && first_without_slot(s, ids) == Some(delivery_id)
}

/// Suppresses the ids that an older version suppressed.
pub fn import_legacy_terminal_suppressed_ids(txn: &mut WriteTransaction) -> (r: Result<
    (),
    StoreError,
>)
    ensures
        match r {
            Ok(_) => imported(state_of(*old(txn)), state_of(*final(txn))),
            Err(e) => e is Storage || (e is SuppressionExhausted && legacy_without_slot(
                state_of(*old(txn)),
                e->SuppressionExhausted_0@,
            )),
        },
        r is Ok ==> keeps_tables(*old(txn), *final(txn)),
{
    proof {
        lemma_old_tables();
    }
    let ids: Vec<String> = match list_keys(txn, "terminal_suppressed_by_id") {
        Ok(ids) => ids,
        Err(e) => return Err(StoreError::Storage(e)),
    };
    proof {
        reveal(imported);
        assert(lists_keys(texts_view(ids@), state_of(*txn).keys, old_suppressed()));
    }
    suppress_all(txn, &ids)
}

// Opening.

pub open spec fn schema_version() -> Seq<char> {
    "9"@
}

/// The version that a store was written by.
pub open spec fn version_of(s: StoreState) -> Option<Seq<char>> {
    s.text(meta(), "schema_version"@)
}

/// The store with its indexes made anew from what it holds. Dead deliveries of any version but the
/// third are given up.
#[verifier::opaque]
pub open spec fn migrated(s: StoreState, version: Option<Seq<char>>, t: StoreState) -> bool {
    exists|a: StoreState, b: StoreState, c: StoreState, d: StoreState, e: StoreState|
        #[trigger]
        rebuilt_due(s.without_table(old_ready()).without_table(old_leased()), a) && (if version
            == Some("3"@) {
            b == a
        } else {
            all_retired(a, b)
        }) && #[trigger] rebuilt_dead_due(b, c) && #[trigger] rebuilt_terminal(c, d) && #[trigger]
            imported(d, e) && t
            == e.without_table(old_suppressed()).without_table(old_filter())
}

/// Whether an id is the one for which there is no slot when a store is brought up to date: the first
/// of the dead deliveries that stay dead or, where there is a slot for each of them, the first that
/// an older version suppressed.
#[verifier::opaque]
pub open spec fn migration_without_slot(
    s: StoreState,
    version: Option<Seq<char>>,
    delivery_id: Seq<char>,
) -> bool {
    exists|a: StoreState, b: StoreState, c: StoreState|
        #[trigger]
        rebuilt_due(s.without_table(old_ready()).without_table(old_leased()), a) && (if version
            == Some("3"@) {
            b == a
        } else {
            all_retired(a, b)
        }) && #[trigger] rebuilt_dead_due(b, c) && (terminal_without_slot(c, delivery_id) || exists|
            d: StoreState,
        | #[trigger]
            rebuilt_terminal(c, d) && legacy_without_slot(d, delivery_id))
}

/// A store without dead deliveries that can be read, and in which no older version suppressed an id.
/// A new store is one.
pub open spec fn suppresses_nothing_yet(s: StoreState) -> bool {
    &&& forall|id: Seq<char>| (#[trigger] dead_at(s, id)) is None
    &&& forall|id: Seq<char>| !#[trigger] s.keys.contains((old_suppressed(), id))
}

/// A store in which there is nothing to suppress, as in a new one, is never refused for want of a
/// slot when it is brought up to date.
pub proof fn law_nothing_to_suppress_needs_no_slot(
    s: StoreState,
    version: Option<Seq<char>>,
    delivery_id: Seq<char>,
)
    requires
        suppresses_nothing_yet(s),
    ensures
        !migration_without_slot(s, version, delivery_id),
{
    reveal(migration_without_slot);
    if migration_without_slot(s, version, delivery_id) {
        lemma_tables();
        lemma_old_tables();
        let base = s.without_table(old_ready()).without_table(old_leased());
        let (a, b, c) = choose|a: StoreState, b: StoreState, c: StoreState|
            #[trigger]
            rebuilt_due(base, a) && (if version == Some("3"@) {
                b == a
            } else {
                all_retired(a, b)
            }) && #[trigger] rebuilt_dead_due(b, c) && (terminal_without_slot(c, delivery_id)
                || exists|d: StoreState| #[trigger]
                rebuilt_terminal(c, d) && legacy_without_slot(d, delivery_id));
        reveal(rebuilt_due);
        reveal(all_retired);
        reveal(rebuilt_dead_due);
        assert forall|id: Seq<char>| (#[trigger] dead_at(c, id)) is None by {
            assert(dead_at(s, id) is None);
            assert(base.row(dead(), id) == s.row(dead(), id));
            assert(a.row(dead(), id) == base.row(dead(), id));
            assert(dead_at(b, id) is None) by {
                if version != Some("3"@) && b.rows.contains_key((dead(), id)) {
                    assert(a.rows.contains_key((dead(), id)));
                    assert(b.rows[(dead(), id)] == retired_row(dead(), a.rows[(dead(), id)]));
                }
            }
            assert(c.row(dead(), id) == b.row(dead(), id));
        }
        assert forall|id: Seq<char>| !#[trigger] c.keys.contains((old_suppressed(), id)) by {
            assert(!s.keys.contains((old_suppressed(), id)));
            assert(!base.keys.contains((old_suppressed(), id)));
            assert(!a.keys.contains((old_suppressed(), id)));
            assert(!b.keys.contains((old_suppressed(), id)));
        }
        if terminal_without_slot(c, delivery_id) {
            let (mid, ids) = choose|mid: StoreState, ids: Seq<Seq<char>>|
                #![trigger reindexed_terminal(c, mid), lists_terminal(ids, c)]
                reindexed_terminal(c, mid) && lists_terminal(ids, c) && first_without_slot(mid, ids)
                    == Some(delivery_id);
            assert(ids.len() == 0) by {
                if ids.len() > 0 {
                    assert(dead_at(c, ids[0]) is Some);
                }
            }
        } else {
            let d = choose|d: StoreState| #[trigger]
                rebuilt_terminal(c, d) && legacy_without_slot(d, delivery_id);
            reveal(rebuilt_terminal);
            let (mid, held) = choose|mid: StoreState, held: Seq<Seq<char>>|
                #![trigger reindexed_terminal(c, mid), lists_terminal(held, c)]
                reindexed_terminal(c, mid) && lists_terminal(held, c) && suppressing_all(mid, held)
                    == Some(d);
            law_all_are_suppressed(mid, held);
            let ids = choose|ids: Seq<Seq<char>>| #[trigger]
                lists_keys(ids, d.keys, old_suppressed()) && first_without_slot(d, ids) == Some(
                    delivery_id,
                );
            assert(ids.len() == 0) by {
                if ids.len() > 0 {
                    assert(d.keys.contains((old_suppressed(), ids[0])));
                    assert(mid.keys.contains((old_suppressed(), ids[0])));
                    assert(!c.keys.contains((old_suppressed(), ids[0])));
                }
            }
        }
    }
}

/// The store without dead deliveries of the first version.
pub open spec fn without_first_dead(s: StoreState) -> StoreState {
    if version_of(s) == Some("1"@) {
        s.without_table(dead())
    } else {
        s
    }
}

/// What a store is opened as: dead deliveries of the first version are dropped, and a store of any
/// other version than this is brought up to date.
pub open spec fn opened(s: StoreState, t: StoreState) -> bool {
    if version_of(s) == Some(schema_version()) {
        t == s.with_text(meta(), "schema_version"@, schema_version())
    } else {
        exists|m: StoreState| #[trigger]
            migrated(without_first_dead(s), version_of(s), m) && t == m.with_text(
                meta(),
                "schema_version"@,
                schema_version(),
            )
    }
}

/// A store whose deliveries stand under their ids.
#[verifier::opaque]
pub open spec fn well_kept(s: StoreState) -> bool {
    &&& forall|id: Seq<char>|
        (#[trigger] live_at(s, id)) matches Some(d) ==> d.delivery_id == id
    &&& forall|id: Seq<char>|
        (#[trigger] dead_at(s, id)) matches Some(d) ==> named_dead(d, id)
}

proof fn lemma_found_by_slots(s: StoreState, t: StoreState, id: Seq<char>, offset: nat)
    requires
        forall|k: Seq<char>| #[trigger]
            s.text(crate::store_model::suppression(), k) == t.text(
                crate::store_model::suppression(),
                k,
            ),
    ensures
        crate::store_model::found_from(s, id, offset) == crate::store_model::found_from(
            t,
            id,
            offset,
        ),
    decreases crate::store_model::TERMINAL_SUPPRESSION_SLOTS - offset,
{
    if offset < crate::store_model::TERMINAL_SUPPRESSION_SLOTS {
        lemma_found_by_slots(s, t, id, offset + 1);
    }
}

/// Rows of deliveries and suppressed ids are the same, and so are the keys outside one table.
pub open spec fn keeps(s: StoreState, t: StoreState, but: Seq<char>) -> bool {
    &&& forall|id: Seq<char>| #[trigger] t.row(deliveries(), id) == s.row(deliveries(), id)
    &&& forall|id: Seq<char>| #[trigger] t.row(dead(), id) == s.row(dead(), id)
    &&& forall|table: Seq<char>, k: Seq<char>|
        table != but && s.keys.contains((table, k)) ==> #[trigger] t.keys.contains((table, k))
    &&& forall|id: Seq<char>| #[trigger] suppressed(s, id) ==> suppressed(t, id)
}

pub proof fn lemma_drop_keeps(s: StoreState, table: Seq<char>)
    requires
        table != deliveries(),
        table != dead(),
        table != crate::store_model::suppression(),
    ensures
        keeps(s, s.without_table(table), table),
{
    let t = s.without_table(table);
    assert forall|id: Seq<char>| #[trigger] suppressed(s, id) implies suppressed(t, id) by {
        lemma_found_by_slots(s, t, id, 0);
    }
}

pub proof fn lemma_import_keeps(s: StoreState, t: StoreState)
    requires
        imported(s, t),
    ensures
        forall|but: Seq<char>| #[trigger] keeps(s, t, but),
{
    reveal(imported);
    let ids = choose|ids: Seq<Seq<char>>| #[trigger]
        lists_keys(ids, s.keys, old_suppressed()) && suppressing_all(s, ids) == Some(t);
    law_all_are_suppressed(s, ids);
    assert forall|but: Seq<char>| #[trigger] keeps(s, t, but) by {
        assert(t.rows == s.rows && t.keys == s.keys);
    }
}

/// A store whose indexes have been made anew is sound.
proof fn lemma_migrated_sound(
    s: StoreState,
    a: StoreState,
    b: StoreState,
    c: StoreState,
    d: StoreState,
    e: StoreState,
    t: StoreState,
)
    requires
        well_kept(s),
        rebuilt_due(s, a),
        b == a || (all_retired(a, b) && forall|id: Seq<char>| #[trigger]
            dead_at(b, id) == retired(dead_at(a, id))),
        rebuilt_dead_due(b, c),
        rebuilt_terminal(c, d),
        imported(d, e),
        t == e.without_table(old_suppressed()).without_table(old_filter()).with_text(
            meta(),
            "schema_version"@,
            schema_version(),
        ),
    ensures
        sound(t),
        tidy(t),
{
    reveal(well_kept);
    reveal(rebuilt_due);
    reveal(all_retired);
    reveal(rebuilt_dead_due);
    reveal(rebuilt_terminal);
    lemma_tables();
    lemma_old_tables();
    let (mid, ids) = choose|mid: StoreState, ids: Seq<Seq<char>>|
        #![trigger reindexed_terminal(c, mid), lists_terminal(ids, c)]
        reindexed_terminal(c, mid) && lists_terminal(ids, c) && suppressing_all(mid, ids) == Some(
            d,
        );
    law_all_are_suppressed(mid, ids);
    lemma_import_keeps(d, e);
    let f = e.without_table(old_suppressed());
    let g = f.without_table(old_filter());
    assert(keeps(d, e, old_suppressed()));
    lemma_drop_keeps(e, old_suppressed());
    lemma_drop_keeps(f, old_filter());
    assert forall|id: Seq<char>| #[trigger] suppressed(g, id) implies suppressed(t, id) by {
        lemma_found_by_slots(g, t, id, 0);
    }
    assert forall|id: Seq<char>| #[trigger] sound_at(t, id) by {
        assert(a.row(deliveries(), id) == s.row(deliveries(), id));
        assert(a.row(dead(), id) == s.row(dead(), id));
        assert(b.row(deliveries(), id) == a.row(deliveries(), id));
        assert(c.row(deliveries(), id) == b.row(deliveries(), id));
        assert(c.row(dead(), id) == b.row(dead(), id));
        assert(mid.row(deliveries(), id) == c.row(deliveries(), id));
        assert(mid.row(dead(), id) == c.row(dead(), id));
        assert(d.row(deliveries(), id) == mid.row(deliveries(), id));
        assert(d.row(dead(), id) == mid.row(dead(), id));
        assert(e.row(deliveries(), id) == d.row(deliveries(), id));
        assert(e.row(dead(), id) == d.row(dead(), id));
        assert(f.row(deliveries(), id) == e.row(deliveries(), id));
        assert(f.row(dead(), id) == e.row(dead(), id));
        assert(g.row(deliveries(), id) == f.row(deliveries(), id));
        assert(g.row(dead(), id) == f.row(dead(), id));
        assert(t.row(deliveries(), id) == g.row(deliveries(), id));
        assert(t.row(dead(), id) == g.row(dead(), id));
        assert(live_at(t, id) == live_at(s, id));
        assert(dead_at(t, id) == dead_at(b, id));
        assert(dead_at(a, id) == dead_at(s, id));
        match live_at(s, id) {
            Some(live) => {
                let at = place(live, id);
                assert(is_place(s, id, at));
                assert(a.keys.contains(at));
                assert(c.keys.contains(at));
                assert(mid.keys.contains(at));
                let (table, k) = at;
                assert(e.keys.contains((table, k)));
                assert(f.keys.contains((table, k)));
                assert(g.keys.contains((table, k)));
            },
            None => {},
        }
        match dead_at(b, id) {
            Some(gone) => {
                let k = dead_index_key(gone.dept, gone.dead_at_ms, id);
                assert(dead_at(c, id) == Some(gone));
                if awaits_redrive(gone) {
                    assert(is_dead_place(b, id, (dead_due(), k)));
                    assert(c.keys.contains((dead_due(), k)));
                    assert(mid.keys.contains((dead_due(), k)));
                    assert(e.keys.contains((dead_due(), k)));
                    assert(f.keys.contains((dead_due(), k)));
                    assert(g.keys.contains((dead_due(), k)));
                }
                if is_terminal(gone) {
                    assert(is_terminal_place(c, id, (terminal(), k)));
                    assert(mid.keys.contains((terminal(), k)));
                    assert(e.keys.contains((terminal(), k)));
                    assert(f.keys.contains((terminal(), k)));
                    assert(g.keys.contains((terminal(), k)));
                    assert(ids.contains(id));
                    let i = choose|i: int| 0 <= i < ids.len() && ids[i] == id;
                    assert(suppressed(d, ids[i]));
                    assert(suppressed(e, id));
                    assert(suppressed(f, id));
                    assert(suppressed(g, id));
                }
            },
            None => {},
        }
    }
    assert forall|table: Seq<char>, key: Seq<char>|
        (table == ready() || table == leased()) && #[trigger] t.keys.contains(
            (table, key),
        ) implies stands(t, table, key) by {
        assert(e.keys == d.keys) by {
            reveal(imported);
            let held = choose|held: Seq<Seq<char>>| #[trigger]
                lists_keys(held, d.keys, old_suppressed()) && suppressing_all(d, held) == Some(e);
            law_all_are_suppressed(d, held);
        }
        assert(d.keys.contains((table, key)));
        assert(mid.keys.contains((table, key)));
        assert(c.keys.contains((table, key)));
        assert(b.keys.contains((table, key)));
        assert(a.keys.contains((table, key)));
        let id = choose|id: Seq<char>| #[trigger] is_place(s, id, (table, key));
        assert(is_place(s, id, (table, key)));
        assert(sound_at(t, id));
        lemma_place_names(live_at(s, id)->0, id);
        assert(a.row(deliveries(), id) == s.row(deliveries(), id));
        assert(b.row(deliveries(), id) == a.row(deliveries(), id));
        assert(c.row(deliveries(), id) == b.row(deliveries(), id));
        assert(mid.row(deliveries(), id) == c.row(deliveries(), id));
        assert(d.row(deliveries(), id) == mid.row(deliveries(), id));
        assert(e.row(deliveries(), id) == d.row(deliveries(), id));
        assert(f.row(deliveries(), id) == e.row(deliveries(), id));
        assert(g.row(deliveries(), id) == f.row(deliveries(), id));
        assert(t.row(deliveries(), id) == g.row(deliveries(), id));
        assert(live_at(t, id) == live_at(s, id));
    }
}

/// A store is well kept where tables without live deliveries are gone.
proof fn lemma_still_well_kept(s: StoreState, t: StoreState)
    requires
        t == s || exists|table: Seq<char>|
            table != deliveries() && t == #[trigger] s.without_table(table),
    ensures
        well_kept(s) ==> well_kept(t),
        forall|id: Seq<char>| #[trigger] corrupt(t, id) == corrupt(s, id),
{
    reveal(well_kept);
    assert forall|id: Seq<char>| #[trigger] corrupt(t, id) == corrupt(s, id) by {
        assert(t.row(deliveries(), id) == s.row(deliveries(), id));
    }
    if well_kept(s) {
        assert forall|id: Seq<char>| (#[trigger] live_at(t, id)) is Some implies (live_at(
            t,
            id,
        )->0).delivery_id == id by {
            assert(t.row(deliveries(), id) == s.row(deliveries(), id));
            assert(live_at(s, id) == live_at(t, id));
        }
        assert forall|id: Seq<char>| (#[trigger] dead_at(t, id)) is Some implies named_dead(
            dead_at(t, id)->0,
            id,
        ) by {
            assert(dead_at(t, id) == dead_at(s, id));
        }
    }
}

/// Noting the version leaves a store sound.
proof fn lemma_version_is_apart(s: StoreState)
    requires
        sound(s),
    ensures
        stays_sound(s, s.with_text(meta(), "schema_version"@, schema_version())),
{
    lemma_tables();
    let t = s.with_text(meta(), "schema_version"@, schema_version());
    lemma_tidy_same(s, t);
    assert forall|id: Seq<char>| #[trigger] sound_at(t, id) by {
        assert(sound_at(s, id));
        lemma_found_by_slots(s, t, id, 0);
        assert(t.row(deliveries(), id) == s.row(deliveries(), id));
        assert(t.row(dead(), id) == s.row(dead(), id));
    }
}

/// Whether a store has its tables, but for the one that notes the version.
pub open spec fn has_tables(txn: WriteTransaction) -> bool {
    let there = present_tables(txn);
    &&& there.contains(deliveries())
    &&& there.contains(ready())
    &&& there.contains(leased())
    &&& there.contains(dead_due())
    &&& there.contains(dead())
    &&& there.contains(terminal())
    &&& there.contains(suppression())
}

/// Makes the tables of a store that are not there yet. What is stored stays as it is.
fn create_tables(txn: &mut WriteTransaction) -> (r: Result<(), StoreError>)
    ensures
        match r {
            Ok(_) => state_of(*final(txn)) == state_of(*old(txn)) && has_tables(*final(txn))
                && keeps_tables(*old(txn), *final(txn)),
            Err(e) => e is Storage,
        },
{
    proof {
        lemma_tables();
    }
    match create_rows_table(txn, "delivery_by_id") {
        Ok(_) => {},
        Err(e) => return Err(StoreError::Storage(e)),
    }
    match create_keys_table(txn, "ready_by_dept_due") {
        Ok(_) => {},
        Err(e) => return Err(StoreError::Storage(e)),
    }
    match create_keys_table(txn, "leased_by_dept_until") {
        Ok(_) => {},
        Err(e) => return Err(StoreError::Storage(e)),
    }
    match create_keys_table(txn, "dead_by_dept_due") {
        Ok(_) => {},
        Err(e) => return Err(StoreError::Storage(e)),
    }
    match create_rows_table(txn, "dead_by_id") {
        Ok(_) => {},
        Err(e) => return Err(StoreError::Storage(e)),
    }
    match create_keys_table(txn, "terminal_dead_by_time") {
        Ok(_) => {},
        Err(e) => return Err(StoreError::Storage(e)),
    }
    match create_texts_table(txn, "terminal_suppression_by_slot") {
        Ok(_) => Ok(()),
        Err(e) => Err(StoreError::Storage(e)),
    }
}

fn is_version(version: &Option<String>, wanted: &str) -> (r: bool)
    ensures
        r == (crate::text::text_view(*version) == Some(wanted@)),
{
    match version {
        Some(v) => same_text(v.as_str(), wanted),
        None => false,
    }
}

/// Brings a store of another version up to date.
fn migrate(txn: &mut WriteTransaction, version: &Option<String>) -> (r: Result<(), StoreError>)
    ensures
        match r {
            Ok(_) => migrated(
                state_of(*old(txn)),
                crate::text::text_view(*version),
                state_of(*final(txn)),
            ),
            Err(e) => e is Storage || (e is SuppressionExhausted && migration_without_slot(
                state_of(*old(txn)),
                crate::text::text_view(*version),
                e->SuppressionExhausted_0@,
            )) || (e is Undecodable && corrupt(state_of(*old(txn)), e->Undecodable_0@)),
        },
        r is Ok && well_kept(state_of(*old(txn))) ==> ({
            let t = state_of(*final(txn)).with_text(meta(), "schema_version"@, schema_version());
            sound(t) && tidy(t)
        }),
        r is Ok && has_tables(*old(txn)) ==> has_tables(*final(txn)),
{
    proof {
        lemma_tables();
        lemma_old_tables();
    }
    let ghost s = state_of(*txn);
    match delete_table(txn, "ready_by_due") {
        Ok(_) => {},
        Err(e) => return Err(StoreError::Storage(e)),
    }
    match delete_table(txn, "leased_by_until") {
        Ok(_) => {},
        Err(e) => return Err(StoreError::Storage(e)),
    }
    let ghost base = state_of(*txn);
    proof {
        lemma_still_well_kept(s, s.without_table(old_ready()));
        lemma_still_well_kept(s.without_table(old_ready()), base);
    }
    match rebuild_due_indexes(txn) {
        Ok(_) => {},
        Err(e) => return Err(e),
    }
    let ghost a = state_of(*txn);
    if !is_version(version, "3") {
        match mark_existing_dead_records_permanent(txn) {
            Ok(_) => {},
            Err(e) => return Err(e),
        }
    }
    let ghost b = state_of(*txn);
    match rebuild_dead_due_index(txn) {
        Ok(_) => {},
        Err(e) => return Err(e),
    }
    let ghost c = state_of(*txn);
    assert(rebuilt_due(base, a) && rebuilt_dead_due(b, c));
    match rebuild_terminal_dead_tables(txn) {
        Ok(_) => {},
        Err(e) => {
            proof {
                reveal(migration_without_slot);
            }
            return Err(e);
        },
    }
    let ghost d = state_of(*txn);
    assert(rebuilt_terminal(c, d));
    match import_legacy_terminal_suppressed_ids(txn) {
        Ok(_) => {},
        Err(e) => {
            proof {
                reveal(migration_without_slot);
            }
            return Err(e);
        },
    }
    let ghost e = state_of(*txn);
    match delete_table(txn, "terminal_suppressed_by_id") {
        Ok(_) => {},
        Err(e) => return Err(StoreError::Storage(e)),
    }
    match delete_table(txn, "terminal_suppression_filter") {
        Ok(_) => {},
        Err(e) => return Err(StoreError::Storage(e)),
    }
    proof {
        assert(imported(d, e));
        reveal(migrated);
        if well_kept(s) {
            lemma_migrated_sound(
                base,
                a,
                b,
                c,
                d,
                e,
                state_of(*txn).with_text(meta(), "schema_version"@, schema_version()),
            );
        }
    }
    Ok(())
}

/// Opens a store: makes the tables that are not there, brings a store of another version up to
/// date, and notes the version. A sound store of this version stays sound; one of another version
/// becomes sound, and without stray keys, where its deliveries are well kept. It fails for want of a
/// slot only where there is something to suppress, and names the first id that has none.
pub fn open_store(txn: &mut WriteTransaction) -> (r: Result<(), StoreError>)
    ensures
        match r {
            Ok(_) => opened(state_of(*old(txn)), state_of(*final(txn))),
            Err(e) => e is Storage || (version_of(state_of(*old(txn))) != Some(schema_version())
                && ((e is SuppressionExhausted && migration_without_slot(
                without_first_dead(state_of(*old(txn))),
                version_of(state_of(*old(txn))),
                e->SuppressionExhausted_0@,
            )) || (e is Undecodable && corrupt(state_of(*old(txn)), e->Undecodable_0@)))),
        },
        suppresses_nothing_yet(state_of(*old(txn))) && r is Err ==> (r matches Err(e) && (e
            is Storage || (e is Undecodable && corrupt(
            state_of(*old(txn)),
            e->Undecodable_0@,
        )))),
        r is Ok ==> if version_of(state_of(*old(txn))) == Some(schema_version()) {
            stays_sound(state_of(*old(txn)), state_of(*final(txn)))
        } else {
            well_kept(state_of(*old(txn))) ==> sound(state_of(*final(txn))) && tidy(
                state_of(*final(txn)),
            )
        },
        r is Ok ==> has_tables(*final(txn)) && present_tables(*final(txn)).contains(meta()),
{
    proof {
        lemma_tables();
    }
    let ghost s = state_of(*txn);
    let version: Option<String> = match get_text(txn, "meta", "schema_version") {
        Ok(version) => version,
        Err(e) => return Err(StoreError::Storage(e)),
    };
    if is_version(&version, "1") {
        match delete_table(txn, "dead_by_id") {
            Ok(_) => {},
            Err(e) => return Err(StoreError::Storage(e)),
        }
    }
    let ghost base = state_of(*txn);
    proof {
        lemma_still_well_kept(s, base);
    }
    match create_tables(txn) {
        Ok(_) => {},
        Err(e) => return Err(e),
    }
    if !is_version(&version, "9") {
        match migrate(txn, &version) {
            Ok(_) => {},
            Err(e) => {
                proof {
                    if suppresses_nothing_yet(s) && e is SuppressionExhausted {
                        assert forall|id: Seq<char>| (#[trigger] dead_at(base, id)) is None by {
                            assert(dead_at(s, id) is None);
                        }
                        assert(suppresses_nothing_yet(base));
                        law_nothing_to_suppress_needs_no_slot(
                            base,
                            version_of(s),
                            e->SuppressionExhausted_0@,
                        );
                    }
                }
                return Err(e);
            },
        }
    }
    let ghost before = state_of(*txn);
    match insert_text(txn, "meta", "schema_version", "9") {
        Ok(_) => {},
        Err(e) => return Err(StoreError::Storage(e)),
    }
    proof {
        let t = state_of(*txn);
        if version_of(s) == Some(schema_version()) {
            reveal_strlit("1");
            reveal_strlit("9");
            assert("1"@[0] != "9"@[0]);
            assert(before == s);
            if sound(s) {
                lemma_version_is_apart(s);
            }
        } else {
            assert(migrated(without_first_dead(s), version_of(s), before));
        }
    }
    Ok(())
}

} // verus!
