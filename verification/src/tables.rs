//! The tables of a redb transaction.

use vstd::prelude::*;
use crate::order::{text_at_most, text_less};
use redb::{ReadTransaction, ReadableTable, TableDefinition, WriteTransaction};

verus! {

#[verifier::external_type_specification]
#[verifier::external_body]
pub struct ExWriteTransaction(redb::WriteTransaction);

#[verifier::external_type_specification]
#[verifier::external_body]
pub struct ExReadTransaction(redb::ReadTransaction);

#[verifier::external_type_specification]
#[verifier::external_body]
pub struct ExStorageError(redb::Error);

/// The rows that a write transaction sees in tables from texts to bytes, by table and key.
pub uninterp spec fn stored_rows(txn: redb::WriteTransaction) -> Map<
    (Seq<char>, Seq<char>),
    Seq<u8>,
>;

/// The keys that a write transaction sees in tables of keys alone, by table and key.
pub uninterp spec fn stored_keys(txn: redb::WriteTransaction) -> Set<(Seq<char>, Seq<char>)>;

/// The rows that a write transaction sees in tables from texts to texts, by table and key.
pub uninterp spec fn stored_texts(txn: redb::WriteTransaction) -> Map<
    (Seq<char>, Seq<char>),
    Seq<char>,
>;

/// Tables that a write transaction has, whether or not anything stands in them. That a table is not
/// there is never said: a read through the transaction makes the table, too, where there is none.
pub uninterp spec fn present_tables(txn: redb::WriteTransaction) -> Set<Seq<char>>;

/// The rows that a read transaction sees in tables from texts to bytes, by table and key.
pub uninterp spec fn snapshot_rows(txn: redb::ReadTransaction) -> Map<
    (Seq<char>, Seq<char>),
    Seq<u8>,
>;

/// The keys that a read transaction sees in tables of keys alone, by table and key.
pub uninterp spec fn snapshot_keys(txn: redb::ReadTransaction) -> Set<(Seq<char>, Seq<char>)>;

/// All that a write transaction sees.
#[verifier::ext_equal]
pub struct StoreState {
    pub rows: Map<(Seq<char>, Seq<char>), Seq<u8>>,
    pub keys: Set<(Seq<char>, Seq<char>)>,
    pub texts: Map<(Seq<char>, Seq<char>), Seq<char>>,
}

pub open spec fn state_of(txn: redb::WriteTransaction) -> StoreState {
    StoreState { rows: stored_rows(txn), keys: stored_keys(txn), texts: stored_texts(txn) }
}

/// Whether every table that was there is there still.
pub open spec fn keeps_tables(
    before: redb::WriteTransaction,
    after: redb::WriteTransaction,
) -> bool {
    present_tables(before).subset_of(present_tables(after))
}

impl StoreState {
    pub open spec fn row(self, table: Seq<char>, key: Seq<char>) -> Option<Seq<u8>> {
        if self.rows.contains_key((table, key)) {
            Some(self.rows[(table, key)])
        } else {
            None
        }
    }

    pub open spec fn text(self, table: Seq<char>, key: Seq<char>) -> Option<Seq<char>> {
        if self.texts.contains_key((table, key)) {
            Some(self.texts[(table, key)])
        } else {
            None
        }
    }

    pub open spec fn has_key(self, table: Seq<char>, key: Seq<char>) -> bool {
        self.keys.contains((table, key))
    }

    pub open spec fn with_row(self, table: Seq<char>, key: Seq<char>, value: Seq<u8>) -> StoreState {
        StoreState { rows: self.rows.insert((table, key), value), ..self }
    }

    pub open spec fn without_row(self, table: Seq<char>, key: Seq<char>) -> StoreState {
        StoreState { rows: self.rows.remove((table, key)), ..self }
    }

    pub open spec fn with_key(self, table: Seq<char>, key: Seq<char>) -> StoreState {
        StoreState { keys: self.keys.insert((table, key)), ..self }
    }

    pub open spec fn without_key(self, table: Seq<char>, key: Seq<char>) -> StoreState {
        StoreState { keys: self.keys.remove((table, key)), ..self }
    }

    pub open spec fn with_text(self, table: Seq<char>, key: Seq<char>, value: Seq<char>) -> StoreState {
        StoreState { texts: self.texts.insert((table, key), value), ..self }
    }

    /// Everything but one table.
    pub open spec fn without_table(self, table: Seq<char>) -> StoreState {
        StoreState {
            rows: self.rows.restrict(
                Set::new(|k: (Seq<char>, Seq<char>)| self.rows.contains_key(k) && k.0 != table),
            ),
            keys: self.keys.filter(|k: (Seq<char>, Seq<char>)| k.0 != table),
            texts: self.texts.restrict(
                Set::new(|k: (Seq<char>, Seq<char>)| self.texts.contains_key(k) && k.0 != table),
            ),
        }
    }
}

pub open spec fn bytes_view(v: Option<Vec<u8>>) -> Option<Seq<u8>> {
    match v {
        Some(b) => Some(b@),
        None => None,
    }
}

/// Strictly ascending texts.
pub open spec fn ascending(s: Seq<Seq<char>>) -> bool {
    forall|i: int, j: int| 0 <= i < j < s.len() ==> text_less(#[trigger] s[i], #[trigger] s[j])
}

/// The keys of a table, in order.
pub open spec fn lists_keys(
    list: Seq<Seq<char>>,
    keys: Set<(Seq<char>, Seq<char>)>,
    table: Seq<char>,
) -> bool {
    &&& ascending(list)
    &&& forall|i: int| 0 <= i < list.len() ==> keys.contains((table, #[trigger] list[i]))
    &&& forall|k: Seq<char>| #[trigger] keys.contains((table, k)) ==> list.contains(k)
}

/// A row of a table.
pub struct Row {
    pub key: String,
    pub value: Vec<u8>,
}

pub open spec fn row_keys(rows: Seq<Row>) -> Seq<Seq<char>> {
    Seq::new(rows.len(), |i: int| rows[i].key@)
}

/// The rows of a table, in the order of their keys.
pub open spec fn lists_rows(
    list: Seq<Row>,
    rows: Map<(Seq<char>, Seq<char>), Seq<u8>>,
    table: Seq<char>,
) -> bool {
    &&& ascending(row_keys(list))
    &&& forall|i: int|
        0 <= i < list.len() ==> rows.contains_key((table, (#[trigger] list[i]).key@)) && rows[(
            table,
            list[i].key@,
        )] == list[i].value@
    &&& forall|k: Seq<char>| #[trigger]
        rows.contains_key((table, k)) ==> row_keys(list).contains(k)
}

/// The first key between two bounds.
pub open spec fn is_first_key(
    found: Option<Seq<char>>,
    keys: Set<(Seq<char>, Seq<char>)>,
    table: Seq<char>,
    from: Seq<char>,
    to: Seq<char>,
) -> bool {
    match found {
        Some(k) => {
            &&& keys.contains((table, k))
            &&& text_at_most(from, k)
            &&& text_at_most(k, to)
            &&& forall|other: Seq<char>| #[trigger]
                keys.contains((table, other)) && text_at_most(from, other) && text_at_most(
                    other,
                    to,
                ) ==> text_at_most(k, other)
        },
        None => forall|other: Seq<char>| #[trigger]
            keys.contains((table, other)) ==> !(text_at_most(from, other) && text_at_most(
                other,
                to,
            )),
    }
}

/// `Table::get` on a table from texts to bytes: the value under the key, if there is one.
#[verifier::external_body]
pub(crate) fn get_row(txn: &WriteTransaction, table: &str, key: &str) -> (r: Result<
    Option<Vec<u8>>,
    redb::Error,
>)
    requires
        table@.len() > 0,
    ensures
        r matches Ok(v) ==> bytes_view(v) == state_of(*txn).row(table@, key@),
{
    let rows = txn.open_table(TableDefinition::<&str, &[u8]>::new(table))?;
    let value = rows.get(key)?;
    Ok(value.map(|v| v.value().to_vec()))
}

/// `Table::insert` on a table from texts to bytes: the value stands under the key, and nothing
/// else changes. The table is there.
#[verifier::external_body]
pub(crate) fn insert_row(txn: &mut WriteTransaction, table: &str, key: &str, value: &[u8]) -> (r:
    Result<(), redb::Error>)
    requires
        table@.len() > 0,
    ensures
        r is Ok ==> state_of(*final(txn)) == state_of(*old(txn)).with_row(table@, key@, value@),
        r is Ok ==> present_tables(*old(txn)).insert(table@).subset_of(
            present_tables(*final(txn)),
        ),
{
    let mut rows = txn.open_table(TableDefinition::<&str, &[u8]>::new(table))?;
    rows.insert(key, value)?;
    Ok(())
}

/// `Table::remove` on a table from texts to bytes: nothing stands under the key, and nothing else
/// changes. The table is there.
#[verifier::external_body]
pub(crate) fn remove_row(txn: &mut WriteTransaction, table: &str, key: &str) -> (r: Result<
    (),
    redb::Error,
>)
    requires
        table@.len() > 0,
    ensures
        r is Ok ==> state_of(*final(txn)) == state_of(*old(txn)).without_row(table@, key@),
        r is Ok ==> present_tables(*old(txn)).insert(table@).subset_of(
            present_tables(*final(txn)),
        ),
{
    let mut rows = txn.open_table(TableDefinition::<&str, &[u8]>::new(table))?;
    rows.remove(key)?;
    Ok(())
}

/// `ReadableTable::iter` over a table from texts to bytes: every row, in the order of the keys.
#[verifier::external_body]
pub(crate) fn list_rows(txn: &WriteTransaction, table: &str) -> (r: Result<Vec<Row>, redb::Error>)
    requires
        table@.len() > 0,
    ensures
        r matches Ok(list) ==> lists_rows(list@, stored_rows(*txn), table@),
{
    let rows = txn.open_table(TableDefinition::<&str, &[u8]>::new(table))?;
    let list = rows.iter()?.map(|entry| {
        entry.map(|(k, v)| Row { key: k.value().to_string(), value: v.value().to_vec() })
    }).collect::<Result<Vec<Row>, redb::StorageError>>()?;
    Ok(list)
}

/// `Table::insert` on a table of keys alone: the key is there, and nothing else changes. The table
/// is there.
#[verifier::external_body]
pub(crate) fn insert_key(txn: &mut WriteTransaction, table: &str, key: &str) -> (r: Result<
    (),
    redb::Error,
>)
    requires
        table@.len() > 0,
    ensures
        r is Ok ==> state_of(*final(txn)) == state_of(*old(txn)).with_key(table@, key@),
        r is Ok ==> present_tables(*old(txn)).insert(table@).subset_of(
            present_tables(*final(txn)),
        ),
{
    let mut keys = txn.open_table(TableDefinition::<&str, ()>::new(table))?;
    keys.insert(key, ())?;
    Ok(())
}

/// `Table::remove` on a table of keys alone: the key is not there, and nothing else changes. The
/// table is there.
#[verifier::external_body]
pub(crate) fn remove_key(txn: &mut WriteTransaction, table: &str, key: &str) -> (r: Result<
    (),
    redb::Error,
>)
    requires
        table@.len() > 0,
    ensures
        r is Ok ==> state_of(*final(txn)) == state_of(*old(txn)).without_key(table@, key@),
        r is Ok ==> present_tables(*old(txn)).insert(table@).subset_of(
            present_tables(*final(txn)),
        ),
{
    let mut keys = txn.open_table(TableDefinition::<&str, ()>::new(table))?;
    keys.remove(key)?;
    Ok(())
}

/// The first key that `ReadableTable::range` gives between two bounds, both of which count.
#[verifier::external_body]
pub(crate) fn first_key(txn: &WriteTransaction, table: &str, from: &str, to: &str) -> (r: Result<
    Option<String>,
    redb::Error,
>)
    requires
        table@.len() > 0,
    ensures
        r matches Ok(found) ==> is_first_key(
            crate::text::text_view(found),
            stored_keys(*txn),
            table@,
            from@,
            to@,
        ),
{
    let keys = txn.open_table(TableDefinition::<&str, ()>::new(table))?;
    let first = keys.range::<&str>(from..=to)?.next().transpose()?;
    Ok(first.map(|(k, _)| k.value().to_string()))
}

/// `ReadableTable::iter` over a table of keys alone: every key, in order.
#[verifier::external_body]
pub(crate) fn list_keys(txn: &WriteTransaction, table: &str) -> (r: Result<
    Vec<String>,
    redb::Error,
>)
    requires
        table@.len() > 0,
    ensures
        r matches Ok(list) ==> lists_keys(
            crate::text::texts_view(list@),
            stored_keys(*txn),
            table@,
        ),
{
    let keys = txn.open_table(TableDefinition::<&str, ()>::new(table))?;
    let list = keys.iter()?.map(|entry| entry.map(|(k, _)| k.value().to_string())).collect::<
        Result<Vec<String>, redb::StorageError>,
    >()?;
    Ok(list)
}

/// `Table::get` on a table from texts to texts: the text under the key, if there is one.
#[verifier::external_body]
pub(crate) fn get_text(txn: &WriteTransaction, table: &str, key: &str) -> (r: Result<
    Option<String>,
    redb::Error,
>)
    requires
        table@.len() > 0,
    ensures
        r matches Ok(v) ==> crate::text::text_view(v) == (if stored_texts(*txn).contains_key(
            (table@, key@),
        ) {
            Some(stored_texts(*txn)[(table@, key@)])
        } else {
            None
        }),
{
    let texts = txn.open_table(TableDefinition::<&str, &str>::new(table))?;
    let value = texts.get(key)?;
    Ok(value.map(|v| v.value().to_string()))
}

/// `Table::insert` on a table from texts to texts: the text stands under the key, and nothing else
/// changes. The table is there.
#[verifier::external_body]
pub(crate) fn insert_text(txn: &mut WriteTransaction, table: &str, key: &str, value: &str) -> (r:
    Result<(), redb::Error>)
    requires
        table@.len() > 0,
    ensures
        r is Ok ==> state_of(*final(txn)) == state_of(*old(txn)).with_text(table@, key@, value@),
        r is Ok ==> present_tables(*old(txn)).insert(table@).subset_of(
            present_tables(*final(txn)),
        ),
{
    let mut texts = txn.open_table(TableDefinition::<&str, &str>::new(table))?;
    texts.insert(key, value)?;
    Ok(())
}

/// `WriteTransaction::open_table` for a table from texts to bytes: the table is made where there is
/// none, and nothing that is stored changes.
#[verifier::external_body]
pub(crate) fn create_rows_table(txn: &mut WriteTransaction, table: &str) -> (r: Result<
    (),
    redb::Error,
>)
    requires
        table@.len() > 0,
    ensures
        r is Ok ==> state_of(*final(txn)) == state_of(*old(txn)),
        r is Ok ==> present_tables(*old(txn)).insert(table@).subset_of(
            present_tables(*final(txn)),
        ),
{
    txn.open_table(TableDefinition::<&str, &[u8]>::new(table))?;
    Ok(())
}

/// `WriteTransaction::open_table` for a table of keys alone: the table is made where there is none,
/// and nothing that is stored changes.
#[verifier::external_body]
pub(crate) fn create_keys_table(txn: &mut WriteTransaction, table: &str) -> (r: Result<
    (),
    redb::Error,
>)
    requires
        table@.len() > 0,
    ensures
        r is Ok ==> state_of(*final(txn)) == state_of(*old(txn)),
        r is Ok ==> present_tables(*old(txn)).insert(table@).subset_of(
            present_tables(*final(txn)),
        ),
{
    txn.open_table(TableDefinition::<&str, ()>::new(table))?;
    Ok(())
}

/// `WriteTransaction::open_table` for a table from texts to texts: the table is made where there is
/// none, and nothing that is stored changes.
#[verifier::external_body]
pub(crate) fn create_texts_table(txn: &mut WriteTransaction, table: &str) -> (r: Result<
    (),
    redb::Error,
>)
    requires
        table@.len() > 0,
    ensures
        r is Ok ==> state_of(*final(txn)) == state_of(*old(txn)),
        r is Ok ==> present_tables(*old(txn)).insert(table@).subset_of(
            present_tables(*final(txn)),
        ),
{
    txn.open_table(TableDefinition::<&str, &str>::new(table))?;
    Ok(())
}

/// `WriteTransaction::delete_table`: the table is gone, and nothing else changes. The name alone
/// says which table; the types of its rows do not matter.
#[verifier::external_body]
pub(crate) fn delete_table(txn: &mut WriteTransaction, table: &str) -> (r: Result<(), redb::Error>)
    requires
        table@.len() > 0,
    ensures
        r is Ok ==> state_of(*final(txn)) == state_of(*old(txn)).without_table(table@),
        r is Ok ==> present_tables(*old(txn)).remove(table@).subset_of(
            present_tables(*final(txn)),
        ),
{
    txn.delete_table(TableDefinition::<&str, ()>::new(table))?;
    Ok(())
}

/// `ReadOnlyTable::get` on a table from texts to bytes: the value under the key, if there is one.
#[verifier::external_body]
pub(crate) fn read_row(txn: &ReadTransaction, table: &str, key: &str) -> (r: Result<
    Option<Vec<u8>>,
    redb::Error,
>)
    requires
        table@.len() > 0,
    ensures
        r matches Ok(v) ==> bytes_view(v) == (if snapshot_rows(*txn).contains_key((table@, key@)) {
            Some(snapshot_rows(*txn)[(table@, key@)])
        } else {
            None
        }),
{
    let rows = txn.open_table(TableDefinition::<&str, &[u8]>::new(table))?;
    let value = rows.get(key)?;
    Ok(value.map(|v| v.value().to_vec()))
}

/// `ReadableTable::iter` over a table from texts to bytes: every row, in the order of the keys.
#[verifier::external_body]
pub(crate) fn read_rows(txn: &ReadTransaction, table: &str) -> (r: Result<Vec<Row>, redb::Error>)
    requires
        table@.len() > 0,
    ensures
        r matches Ok(list) ==> lists_rows(list@, snapshot_rows(*txn), table@),
{
    let rows = txn.open_table(TableDefinition::<&str, &[u8]>::new(table))?;
    let list = rows.iter()?.map(|entry| {
        entry.map(|(k, v)| Row { key: k.value().to_string(), value: v.value().to_vec() })
    }).collect::<Result<Vec<Row>, redb::StorageError>>()?;
    Ok(list)
}

/// The first key that `ReadOnlyTable::range` gives between two bounds, both of which count.
#[verifier::external_body]
pub(crate) fn read_first_key(txn: &ReadTransaction, table: &str, from: &str, to: &str) -> (r: Result<
    Option<String>,
    redb::Error,
>)
    requires
        table@.len() > 0,
    ensures
        r matches Ok(found) ==> is_first_key(
            crate::text::text_view(found),
            snapshot_keys(*txn),
            table@,
            from@,
            to@,
        ),
{
    let keys = txn.open_table(TableDefinition::<&str, ()>::new(table))?;
    let first = keys.range::<&str>(from..=to)?.next().transpose()?;
    Ok(first.map(|(k, _)| k.value().to_string()))
}

/// `ReadableTable::iter` over a table of keys alone: every key, in order.
#[verifier::external_body]
pub(crate) fn read_keys(txn: &ReadTransaction, table: &str) -> (r: Result<
    Vec<String>,
    redb::Error,
>)
    requires
        table@.len() > 0,
    ensures
        r matches Ok(list) ==> lists_keys(
            crate::text::texts_view(list@),
            snapshot_keys(*txn),
            table@,
        ),
{
    let keys = txn.open_table(TableDefinition::<&str, ()>::new(table))?;
    let list = keys.iter()?.map(|entry| entry.map(|(k, _)| k.value().to_string())).collect::<
        Result<Vec<String>, redb::StorageError>,
    >()?;
    Ok(list)
}

} // verus!
