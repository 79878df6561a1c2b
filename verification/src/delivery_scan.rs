//! Walks through the secondary indexes.

use vstd::prelude::*;
use vstd::string::*;
use crate::delivery_index::{
    due_range_end, due_range_start, due_views, encode_index_part, parse_index_key, parsed_key,
    DueIndexKey, DueView,
};
use crate::numeral::push_padded_decimal;
use crate::order::{
    lemma_at_most_transitive, lemma_less_irreflexive, lemma_less_total, lemma_less_transitive,
    text_at_most, text_less,
};
use crate::tables::{
    ascending, first_key, lists_keys, read_first_key, read_keys, snapshot_keys, stored_keys,
};
use crate::text::{copy_text, texts_view};

verus! {

/// What can go wrong in the store.
#[derive(Debug)]
pub enum StoreError {
    /// The database failed.
    Storage(redb::Error),
    /// A stored delivery cannot be read.
    Undecodable(String),
    /// A key of an index cannot be read.
    BadIndexKey(String),
    /// A delivery with the same id and other contents is there already.
    ConflictingDuplicate(String),
    /// No slot is left for the id of a delivery that must not come back.
    SuppressionExhausted(String),
}

/// Prints an error of the database with the `Display` impl of `redb::Error`. What it says depends on
/// the system too, so nothing is said of the text.
#[verifier::external_body]
pub(crate) fn storage_text(e: &redb::Error) -> (r: String) {
    format!("{e}")
}

impl StoreError {
    /// What is told of the error.
    pub fn message(&self) -> (r: String)
        ensures
            match *self {
                StoreError::Storage(_) => true,
                StoreError::Undecodable(id) => r@ == "undecodable delivery record: "@ + id@,
                StoreError::BadIndexKey(key) => r@ == "undecodable delivery index key: "@ + key@,
                StoreError::ConflictingDuplicate(id) => r@
                    == "conflicting duplicate delivery_id: "@ + id@,
                StoreError::SuppressionExhausted(id) => r@
                    == "terminal suppression table exhausted for delivery_id: "@ + id@,
            },
    {
        let (front, what): (&str, &String) = match self {
            StoreError::Storage(e) => return storage_text(e),
            StoreError::Undecodable(id) => ("undecodable delivery record: ", id),
            StoreError::BadIndexKey(key) => ("undecodable delivery index key: ", key),
            StoreError::ConflictingDuplicate(id) => ("conflicting duplicate delivery_id: ", id),
            StoreError::SuppressionExhausted(id) => (
                "terminal suppression table exhausted for delivery_id: ",
                id,
            ),
        };
        let mut out: String = copy_text(front);
        out.append(what.as_str());
        out
    }
}

/// A key of a table that lies between two bounds, both of which count.
pub open spec fn between(
    keys: Set<(Seq<char>, Seq<char>)>,
    table: Seq<char>,
    from: Seq<char>,
    to: Seq<char>,
    key: Seq<char>,
) -> bool {
    keys.contains((table, key)) && text_at_most(from, key) && text_at_most(key, to)
}

/// The first keys between two bounds, in order, up to a limit.
pub open spec fn first_keys(
    found: Seq<Seq<char>>,
    keys: Set<(Seq<char>, Seq<char>)>,
    table: Seq<char>,
    from: Seq<char>,
    to: Seq<char>,
    limit: nat,
) -> bool {
    &&& ascending(found)
    &&& found.len() <= limit
    &&& forall|i: int| 0 <= i < found.len() ==> between(keys, table, from, to, #[trigger] found[i])
    &&& forall|k: Seq<char>| #[trigger]
        between(keys, table, from, to, k) ==> found.contains(k) || (found.len() == limit && forall|
            i: int,
        |
            0 <= i < found.len() ==> text_less(#[trigger] found[i], k))
}

/// The text that comes next after another, with nothing between the two.
pub open spec fn successor(s: Seq<char>) -> Seq<char> {
    s.push('\0')
}

proof fn lemma_least_char(c: char)
    ensures
        '\0' <= c,
{
}

pub proof fn lemma_successor(s: Seq<char>, x: Seq<char>)
    ensures
        text_at_most(successor(s), x) == text_less(s, x),
    decreases s.len(),
{
    if s.len() > 0 && x.len() > 0 && s[0] == x[0] {
        assert(successor(s)[0] == s[0]);
        assert(successor(s).drop_first() =~= successor(s.drop_first()));
        lemma_successor(s.drop_first(), x.drop_first());
    } else if s.len() == 0 {
        assert(successor(s).drop_first() =~= Seq::<char>::empty());
        if x.len() > 0 {
            lemma_least_char(x[0]);
            assert(!text_less(x.drop_first(), Seq::<char>::empty()));
        }
    } else {
        assert(successor(s)[0] == s[0]);
    }
}

/// One step of a walk: the least key from the cursor on is the next one, and the cursor moves
/// behind it.
pub proof fn lemma_walk_step(
    found: Seq<Seq<char>>,
    keys: Set<(Seq<char>, Seq<char>)>,
    table: Seq<char>,
    from: Seq<char>,
    to: Seq<char>,
    cursor: Seq<char>,
    key: Seq<char>,
)
    requires
        walked(found, keys, table, from, to, cursor),
        crate::tables::is_first_key(Some(key), keys, table, cursor, to),
    ensures
        walked(found.push(key), keys, table, from, to, successor(key)),
{
    lemma_at_most_transitive(from, cursor, key);
    let next = found.push(key);
    assert forall|i: int| 0 <= i < found.len() implies text_less(#[trigger] found[i], key) by {
        lemma_less_total(cursor, key);
        if cursor != key {
            lemma_less_transitive(found[i], cursor, key);
        }
    }
    assert forall|i: int, j: int| 0 <= i < j < next.len() implies text_less(
        #[trigger] next[i],
        #[trigger] next[j],
    ) by {
        if j < found.len() {
            assert(text_less(found[i], found[j]));
        } else {
            assert(next[i] == found[i]);
        }
    }
    assert forall|i: int| 0 <= i < next.len() implies text_less(
        #[trigger] next[i],
        successor(key),
    ) by {
        lemma_successor(key, successor(key));
        lemma_less_irreflexive(successor(key));
        if i < found.len() {
            assert(next[i] == found[i]);
            lemma_less_transitive(found[i], key, successor(key));
        }
    }
    assert forall|k: Seq<char>| #[trigger] between(keys, table, from, to, k) implies next.contains(
        k,
    ) || text_at_most(successor(key), k) by {
        lemma_successor(key, k);
        if found.contains(k) {
            let i = choose|i: int| 0 <= i < found.len() && found[i] == k;
            assert(next[i] == k);
        } else {
            lemma_less_total(key, k);
            if key == k {
                assert(next[found.len() as int] == k);
            }
        }
    }
    lemma_less_total(from, key);
    lemma_successor(key, successor(key));
    lemma_less_irreflexive(successor(key));
    assert(text_at_most(from, successor(key))) by {
        lemma_less_total(key, successor(key));
        lemma_at_most_transitive(from, key, successor(key));
    }
}

/// The keys that a walk has passed, and the cursor behind them.
pub open spec fn walked(
    found: Seq<Seq<char>>,
    keys: Set<(Seq<char>, Seq<char>)>,
    table: Seq<char>,
    from: Seq<char>,
    to: Seq<char>,
    cursor: Seq<char>,
) -> bool {
    &&& ascending(found)
    &&& text_at_most(from, cursor)
    &&& forall|i: int| 0 <= i < found.len() ==> between(keys, table, from, to, #[trigger] found[i])
    &&& forall|i: int| 0 <= i < found.len() ==> text_less(#[trigger] found[i], cursor)
    &&& forall|k: Seq<char>| #[trigger]
        between(keys, table, from, to, k) ==> found.contains(k) || text_at_most(cursor, k)
}

/// A walk that has reached its limit, or has found nothing more, has passed the first keys.
pub proof fn lemma_walk_done(
    found: Seq<Seq<char>>,
    keys: Set<(Seq<char>, Seq<char>)>,
    table: Seq<char>,
    from: Seq<char>,
    to: Seq<char>,
    cursor: Seq<char>,
    limit: nat,
)
    requires
        walked(found, keys, table, from, to, cursor),
        found.len() <= limit,
        found.len() == limit || crate::tables::is_first_key(None, keys, table, cursor, to),
    ensures
        first_keys(found, keys, table, from, to, limit),
{
    assert forall|k: Seq<char>| #[trigger] between(keys, table, from, to, k) implies found.contains(
        k,
    ) || (found.len() == limit && forall|i: int|
        0 <= i < found.len() ==> text_less(#[trigger] found[i], k)) by {
        if !found.contains(k) {
            assert(text_at_most(cursor, k));
            if found.len() < limit {
                assert(keys.contains((table, k)));
            }
            assert forall|i: int| 0 <= i < found.len() implies text_less(#[trigger] found[i], k) by {
                lemma_less_total(cursor, k);
                if cursor != k {
                    lemma_less_transitive(found[i], cursor, k);
                }
            }
        }
    }
}

pub proof fn lemma_walk_start(
    keys: Set<(Seq<char>, Seq<char>)>,
    table: Seq<char>,
    from: Seq<char>,
    to: Seq<char>,
)
    ensures
        walked(Seq::empty(), keys, table, from, to, from),
{
    lemma_less_irreflexive(from);
}

fn behind(key: &str) -> (r: String)
    ensures
        r@ == successor(key@),
{
    let mut out: String = copy_text(key);
    out.push('\0');
    out
}

/// The first keys between two bounds that a read transaction sees. Where none is asked for, none is
/// read.
pub fn read_range(txn: &redb::ReadTransaction, table: &str, from: &str, to: &str, limit: usize) -> (r:
    Result<Vec<String>, redb::Error>)
    requires
        table@.len() > 0,
    ensures
        r matches Ok(found) ==> first_keys(
            texts_view(found@),
            snapshot_keys(*txn),
            table@,
            from@,
            to@,
            limit as nat,
        ),
        limit == 0 ==> r is Ok,
{
    let ghost keys = snapshot_keys(*txn);
    let mut found: Vec<String> = Vec::new();
    let mut cursor: String = copy_text(from);
    proof {
        assert(texts_view(found@) =~= Seq::<Seq<char>>::empty());
        lemma_walk_start(keys, table@, from@, to@);
    }
    while found.len() < limit
        invariant
            table@.len() > 0,
            keys == snapshot_keys(*txn),
            found@.len() <= limit,
            walked(texts_view(found@), keys, table@, from@, to@, cursor@),
        decreases limit - found@.len(),
    {
        match read_first_key(txn, table, cursor.as_str(), to) {
            Err(e) => return Err(e),
            Ok(None) => {
                proof {
                    lemma_walk_done(
                        texts_view(found@),
                        keys,
                        table@,
                        from@,
                        to@,
                        cursor@,
                        limit as nat,
                    );
                }
                return Ok(found);
            },
            Ok(Some(key)) => {
                let ghost before = texts_view(found@);
                proof {
                    lemma_walk_step(before, keys, table@, from@, to@, cursor@, key@);
                }
                cursor = behind(key.as_str());
                let ghost k = key@;
                found.push(key);
                assert(texts_view(found@) =~= before.push(k));
            },
        }
    }
    proof {
        lemma_walk_done(texts_view(found@), keys, table@, from@, to@, cursor@, limit as nat);
    }
    Ok(found)
}

/// The first keys between two bounds that a write transaction sees. Where none is asked for, none is
/// read.
pub fn stored_range(
    txn: &redb::WriteTransaction,
    table: &str,
    from: &str,
    to: &str,
    limit: usize,
) -> (r: Result<Vec<String>, redb::Error>)
    requires
        table@.len() > 0,
    ensures
        r matches Ok(found) ==> first_keys(
            texts_view(found@),
            stored_keys(*txn),
            table@,
            from@,
            to@,
            limit as nat,
        ),
        limit == 0 ==> r is Ok,
{
    let ghost keys = stored_keys(*txn);
    let mut found: Vec<String> = Vec::new();
    let mut cursor: String = copy_text(from);
    proof {
        assert(texts_view(found@) =~= Seq::<Seq<char>>::empty());
        lemma_walk_start(keys, table@, from@, to@);
    }
    while found.len() < limit
        invariant
            table@.len() > 0,
            keys == stored_keys(*txn),
            found@.len() <= limit,
            walked(texts_view(found@), keys, table@, from@, to@, cursor@),
        decreases limit - found@.len(),
    {
        match first_key(txn, table, cursor.as_str(), to) {
            Err(e) => return Err(e),
            Ok(None) => {
                proof {
                    lemma_walk_done(
                        texts_view(found@),
                        keys,
                        table@,
                        from@,
                        to@,
                        cursor@,
                        limit as nat,
                    );
                }
                return Ok(found);
            },
            Ok(Some(key)) => {
                let ghost before = texts_view(found@);
                proof {
                    lemma_walk_step(before, keys, table@, from@, to@, cursor@, key@);
                }
                cursor = behind(key.as_str());
                let ghost k = key@;
                found.push(key);
                assert(texts_view(found@) =~= before.push(k));
            },
        }
    }
    proof {
        lemma_walk_done(texts_view(found@), keys, table@, from@, to@, cursor@, limit as nat);
    }
    Ok(found)
}

/// What every key of a list says, where every one can be read.
pub open spec fn parsed_all(list: Seq<Seq<char>>) -> Option<Seq<DueView>>
    decreases list.len(),
{
    if list.len() == 0 {
        Some(Seq::empty())
    } else {
        match (parsed_all(list.drop_last()), parsed_key(list.last())) {
            (Some(front), Some(last)) => Some(front.push(last)),
            _ => None,
        }
    }
}

/// The keys of a list that are due at a time, up to a limit, where every key up to there can be
/// read.
pub open spec fn due_among(list: Seq<Seq<char>>, now_ms: u64, limit: nat) -> Option<Seq<DueView>>
    decreases list.len(),
{
    if list.len() == 0 {
        Some(Seq::empty())
    } else {
        match due_among(list.drop_last(), now_ms, limit) {
            None => None,
            Some(front) => if front.len() >= limit {
                Some(front)
            } else {
                match parsed_key(list.last()) {
                    None => None,
                    Some(last) => if last.due_ms <= now_ms {
                        Some(front.push(last))
                    } else {
                        Some(front)
                    },
                }
            },
        }
    }
}

/// The due keys of one department: the first between its bounds.
pub open spec fn due_for_dept(
    found: Seq<DueView>,
    keys: Set<(Seq<char>, Seq<char>)>,
    table: Seq<char>,
    dept: Seq<char>,
    now_ms: u64,
    limit: nat,
) -> bool {
    exists|list: Seq<Seq<char>>| #[trigger]
        first_keys(list, keys, table, due_range_start(dept), due_range_end(dept, now_ms), limit)
            && parsed_all(list) == Some(found)
}

/// The due keys of all departments, in the order of the index.
pub open spec fn due_for_all(
    found: Seq<DueView>,
    keys: Set<(Seq<char>, Seq<char>)>,
    table: Seq<char>,
    now_ms: u64,
    limit: nat,
) -> bool {
    exists|list: Seq<Seq<char>>| #[trigger]
        lists_keys(list, keys, table) && due_among(list, now_ms, limit) == Some(found)
}

/// The keys that are due, of one department or of all, up to a limit.
pub open spec fn due_keys(
    found: Seq<DueView>,
    keys: Set<(Seq<char>, Seq<char>)>,
    table: Seq<char>,
    dept: Option<Seq<char>>,
    now_ms: u64,
    limit: nat,
) -> bool {
    if limit == 0 {
        found.len() == 0
    } else {
        match dept {
            Some(d) => due_for_dept(found, keys, table, d, now_ms, limit),
            None => due_for_all(found, keys, table, now_ms, limit),
        }
    }
}

pub open spec fn bad_key(e: StoreError, keys: Set<(Seq<char>, Seq<char>)>, table: Seq<char>) -> bool {
    e matches StoreError::BadIndexKey(k) ==> keys.contains((table, k@)) && parsed_key(k@) is None
}

fn range_bounds(dept: &str, now_ms: u64) -> (r: (String, String))
    ensures
        r.0@ == due_range_start(dept@),
        r.1@ == due_range_end(dept@, now_ms),
{
    let mut start: String = encode_index_part(dept);
    start.append("/");
    push_padded_decimal(&mut start, 0, 20);
    start.append("/");
    let mut end: String = encode_index_part(dept);
    end.append("/");
    push_padded_decimal(&mut end, now_ms, 20);
    end.append("/");
    end.append("\u{10ffff}");
    (start, end)
}

fn parse_list(list: &Vec<String>) -> (r: Result<Vec<DueIndexKey>, StoreError>)
    ensures
        match r {
            Ok(keys) => parsed_all(texts_view(list@)) == Some(due_views(keys@)),
            Err(e) => e is BadIndexKey && parsed_key(e->BadIndexKey_0@) is None && texts_view(
                list@,
            ).contains(e->BadIndexKey_0@),
        },
{
    let ghost views = texts_view(list@);
    let mut keys: Vec<DueIndexKey> = Vec::new();
    let mut i: usize = 0;
    assert(due_views(keys@) =~= Seq::<DueView>::empty());
    while i < list.len()
        invariant
            views == texts_view(list@),
            i <= list@.len(),
            parsed_all(views.take(i as int)) == Some(due_views(keys@)),
        decreases list@.len() - i,
    {
        proof {
            assert(views.take(i + 1).drop_last() =~= views.take(i as int));
            assert(views.take(i + 1).last() == list@[i as int]@);
            assert(views[i as int] == list@[i as int]@);
        }
        match parse_index_key(list[i].as_str()) {
            None => {
                return Err(StoreError::BadIndexKey(copy_text(list[i].as_str())));
            },
            Some(key) => {
                let ghost before = due_views(keys@);
                let ghost k = key@;
                keys.push(key);
                assert(due_views(keys@) =~= before.push(k));
            },
        }
        i = i + 1;
    }
    assert(views.take(views.len() as int) =~= views);
    Ok(keys)
}

fn collect_due_keys_for_dept(
    txn: &redb::ReadTransaction,
    table: &str,
    dept: &str,
    now_ms: u64,
    limit: usize,
) -> (r: Result<Vec<DueIndexKey>, StoreError>)
    requires
        table@.len() > 0,
    ensures
        match r {
            Ok(found) => due_for_dept(
                due_views(found@),
                snapshot_keys(*txn),
                table@,
                dept@,
                now_ms,
                limit as nat,
            ),
            Err(e) => (e is Storage || e is BadIndexKey) && bad_key(e, snapshot_keys(*txn), table@),
        },
{
    let (start, end): (String, String) = range_bounds(dept, now_ms);
    match read_range(txn, table, start.as_str(), end.as_str(), limit) {
        Err(e) => Err(StoreError::Storage(e)),
        Ok(list) => {
            assert(first_keys(
                texts_view(list@),
                snapshot_keys(*txn),
                table@,
                due_range_start(dept@),
                due_range_end(dept@, now_ms),
                limit as nat,
            ));
            match parse_list(&list) {
                Ok(keys) => Ok(keys),
                Err(e) => {
                    proof {
                        let views = texts_view(list@);
                        let i = choose|i: int|
                            0 <= i < views.len() && views[i] == e->BadIndexKey_0@;
                        assert(between(
                            snapshot_keys(*txn),
                            table@,
                            due_range_start(dept@),
                            due_range_end(dept@, now_ms),
                            views[i],
                        ));
                    }
                    Err(e)
                },
            }
        },
    }
}

fn collect_due_keys_for_all_depts(
    txn: &redb::ReadTransaction,
    table: &str,
    now_ms: u64,
    limit: usize,
) -> (r: Result<Vec<DueIndexKey>, StoreError>)
    requires
        table@.len() > 0,
    ensures
        match r {
            Ok(found) => due_for_all(
                due_views(found@),
                snapshot_keys(*txn),
                table@,
                now_ms,
                limit as nat,
            ),
            Err(e) => (e is Storage || e is BadIndexKey) && bad_key(e, snapshot_keys(*txn), table@),
        },
{
    let list: Vec<String> = match read_keys(txn, table) {
        Err(e) => return Err(StoreError::Storage(e)),
        Ok(list) => list,
    };
    let ghost views = texts_view(list@);
    let mut keys: Vec<DueIndexKey> = Vec::new();
    let mut i: usize = 0;
    assert(due_views(keys@) =~= Seq::<DueView>::empty());
    while i < list.len()
        invariant
            views == texts_view(list@),
            lists_keys(views, snapshot_keys(*txn), table@),
            i <= list@.len(),
            due_among(views.take(i as int), now_ms, limit as nat) == Some(due_views(keys@)),
        decreases list@.len() - i,
    {
        proof {
            assert(views.take(i + 1).drop_last() =~= views.take(i as int));
            assert(views.take(i + 1).last() == list@[i as int]@);
            assert(views[i as int] == list@[i as int]@);
        }
        if keys.len() < limit {
            match parse_index_key(list[i].as_str()) {
                None => {
                    return Err(StoreError::BadIndexKey(copy_text(list[i].as_str())));
                },
                Some(key) => {
                    if key.due_ms <= now_ms {
                        let ghost before = due_views(keys@);
                        let ghost k = key@;
                        keys.push(key);
                        assert(due_views(keys@) =~= before.push(k));
                    }
                },
            }
        }
        i = i + 1;
    }
    assert(views.take(views.len() as int) =~= views);
    Ok(keys)
}

/// The keys of an index that are due, of one department or of all, up to a limit.
pub fn collect_due_keys(
    txn: &redb::ReadTransaction,
    table: &str,
    dept: Option<&str>,
    now_ms: u64,
    limit: usize,
) -> (r: Result<Vec<DueIndexKey>, StoreError>)
    requires
        table@.len() > 0,
    ensures
        match r {
            Ok(found) => due_keys(
                due_views(found@),
                snapshot_keys(*txn),
                table@,
                match dept {
                    Some(d) => Some(d@),
                    None => None,
                },
                now_ms,
                limit as nat,
            ),
            Err(e) => (e is Storage || e is BadIndexKey) && bad_key(e, snapshot_keys(*txn), table@),
        },
        limit == 0 ==> r is Ok,
{
    if limit == 0 {
        return Ok(Vec::new());
    }
    match dept {
        Some(d) => collect_due_keys_for_dept(txn, table, d, now_ms, limit),
        None => collect_due_keys_for_all_depts(txn, table, now_ms, limit),
    }
}

} // verus!
