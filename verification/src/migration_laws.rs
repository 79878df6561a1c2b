//! Laws of opening a store: what is kept of one that an older version wrote.

use vstd::prelude::*;
use vstd::string::*;
use crate::delivery_index::dead_index_key;
use crate::delivery_migration::{
    all_retired, imported, keeps, law_all_are_suppressed, lemma_drop_keeps, lemma_import_keeps,
    lemma_old_tables, lists_terminal, migrated, old_filter, old_leased, old_ready, old_suppressed,
    opened, rebuilt_dead_due, rebuilt_due, rebuilt_terminal, reindexed_terminal, retired,
    suppressing_all, version_of,
};
use crate::delivery_types::DeadView;
use crate::record_codec::dead_bytes;
use crate::store_invariant::place;
use crate::store_keeping::is_given_up;
use crate::store_model::{
    awaits_redrive, dead, dead_at, dead_due, deliveries, is_terminal, lemma_tables, live_at, meta,
    suppressed, terminal,
};
use crate::tables::StoreState;

verus! {

/// A dead delivery that is retired is the same dead delivery, given up.
pub proof fn law_what_is_retired(d: DeadView)
    ensures
        retired(Some(d)) matches Some(g) && is_given_up(g, d) && g.error_excerpt == d.error_excerpt,
        retired(None) is None,
{
}

/// A store that is brought up to date keeps every live delivery, and schedules it where it belongs.
/// It keeps every dead delivery too: one from the third version as it is, and any other given up.
#[verifier::rlimit(60)]
pub proof fn law_what_an_update_keeps(
    s: StoreState,
    version: Option<Seq<char>>,
    t: StoreState,
    id: Seq<char>,
)
    requires
        migrated(s, version, t),
    ensures
        live_at(t, id) == live_at(s, id),
        live_at(s, id) matches Some(d) ==> t.keys.contains(place(d, d.delivery_id)),
        version == Some("3"@) ==> dead_at(t, id) == dead_at(s, id),
        version != Some("3"@) && dead_at(s, id) is Some ==> exists|g: DeadView|
            is_given_up(g, dead_at(s, id)->0) && g.error_excerpt == dead_at(s, id)->0.error_excerpt
                && t.row(dead(), id) == Some(#[trigger] dead_bytes(g)),
        dead_at(s, id) is None ==> t.row(dead(), id) == s.row(dead(), id),
        version == Some("3"@) ==> (dead_at(s, id) matches Some(d) ==> (awaits_redrive(d)
            ==> t.keys.contains((dead_due(), dead_index_key(d.dept, d.dead_at_ms, id)))) && (
        is_terminal(d) ==> t.keys.contains(
            (terminal(), dead_index_key(d.dept, d.dead_at_ms, id)),
        ) && suppressed(t, id))),
{
    reveal(migrated);
    reveal(rebuilt_due);
    reveal(all_retired);
    reveal(rebuilt_dead_due);
    reveal(rebuilt_terminal);
    lemma_tables();
    lemma_old_tables();
    let start = s.without_table(old_ready()).without_table(old_leased());
    let (a, b, c, d, e) = choose|
        a: StoreState,
        b: StoreState,
        c: StoreState,
        d: StoreState,
        e: StoreState,
    |
        #[trigger]
        rebuilt_due(start, a) && (if version == Some("3"@) {
            b == a
        } else {
            all_retired(a, b)
        }) && #[trigger] rebuilt_dead_due(b, c) && #[trigger] rebuilt_terminal(c, d) && #[trigger]
            imported(d, e) && t == e.without_table(old_suppressed()).without_table(old_filter());
    let (mid, ids) = choose|mid: StoreState, ids: Seq<Seq<char>>|
        #![trigger reindexed_terminal(c, mid), lists_terminal(ids, c)]
        reindexed_terminal(c, mid) && lists_terminal(ids, c) && suppressing_all(mid, ids) == Some(
            d,
        );
    law_all_are_suppressed(mid, ids);
    lemma_import_keeps(d, e);
    let f = e.without_table(old_suppressed());
    assert(keeps(d, e, old_suppressed()));
    lemma_drop_keeps(e, old_suppressed());
    lemma_drop_keeps(f, old_filter());
    assert(start.row(deliveries(), id) == s.row(deliveries(), id));
    assert(start.row(dead(), id) == s.row(dead(), id));
    assert(a.row(deliveries(), id) == s.row(deliveries(), id));
    assert(a.row(dead(), id) == s.row(dead(), id));
    assert(b.row(deliveries(), id) == a.row(deliveries(), id));
    assert(c.row(deliveries(), id) == b.row(deliveries(), id));
    assert(c.row(dead(), id) == b.row(dead(), id));
    assert(mid.row(deliveries(), id) == c.row(deliveries(), id));
    assert(mid.row(dead(), id) == c.row(dead(), id));
    assert(d.row(deliveries(), id) == mid.row(deliveries(), id));
    assert(d.row(dead(), id) == mid.row(dead(), id));
    assert(e.row(deliveries(), id) == d.row(deliveries(), id));
    assert(e.row(dead(), id) == d.row(dead(), id));
    assert(f.row(deliveries(), id) == e.row(deliveries(), id));
    assert(f.row(dead(), id) == e.row(dead(), id));
    assert(t.row(deliveries(), id) == f.row(deliveries(), id));
    assert(t.row(dead(), id) == f.row(dead(), id));
    if let Some(live) = live_at(s, id) {
        let at = place(live, live.delivery_id);
        assert(crate::delivery_migration::is_place(start, id, at));
        assert(a.keys.contains(at));
        assert(b.keys.contains(at));
        assert(c.keys.contains(at));
        assert(mid.keys.contains(at));
        assert(d.keys.contains(at));
        assert(e.keys.contains((at.0, at.1)));
        assert(f.keys.contains((at.0, at.1)));
        assert(t.keys.contains((at.0, at.1)));
    }
    if version != Some("3"@) && dead_at(s, id) is Some {
        law_what_is_retired(dead_at(s, id)->0);
        let g = crate::store_model::given_up(dead_at(s, id)->0);
        assert(t.row(dead(), id) == Some(dead_bytes(g)));
    }
    if version == Some("3"@) {
        if let Some(gone) = dead_at(s, id) {
            if awaits_redrive(gone) {
                let at = (dead_due(), dead_index_key(gone.dept, gone.dead_at_ms, id));
                assert(crate::delivery_migration::is_dead_place(b, id, at));
                assert(c.keys.contains(at));
                assert(mid.keys.contains(at));
                assert(e.keys.contains((at.0, at.1)));
                assert(f.keys.contains((at.0, at.1)));
                assert(t.keys.contains((at.0, at.1)));
            }
            if is_terminal(gone) {
                let at = (terminal(), dead_index_key(gone.dept, gone.dead_at_ms, id));
                assert(crate::delivery_migration::is_terminal_place(c, id, at));
                assert(mid.keys.contains(at));
                assert(e.keys.contains((at.0, at.1)));
                assert(f.keys.contains((at.0, at.1)));
                assert(t.keys.contains((at.0, at.1)));
                assert(dead_at(c, id) == Some(gone));
                assert(ids.contains(id));
                let k = choose|k: int| 0 <= k < ids.len() && ids[k] == id;
                assert(suppressed(d, ids[k]));
                assert(suppressed(e, id));
                assert(suppressed(f, id));
            }
        }
    }
}

/// A store that was opened says which version it is of. One of that version stays as it is; of any
/// other every live delivery is kept, and of the first version no dead one.
pub proof fn law_what_opening_keeps(s: StoreState, t: StoreState, id: Seq<char>)
    requires
        opened(s, t),
    ensures
        t.text(meta(), "schema_version"@) == Some("9"@),
        live_at(t, id) == live_at(s, id),
        s.text(meta(), "schema_version"@) == Some("9"@) ==> t.rows == s.rows && t.keys == s.keys
            && t.texts == s.texts,
        s.text(meta(), "schema_version"@) == Some("1"@) ==> t.row(dead(), id) is None,
        s.text(meta(), "schema_version"@) == Some("3"@) ==> dead_at(t, id) == dead_at(s, id),
{
    lemma_tables();
    reveal_strlit("9");
    reveal_strlit("3");
    reveal_strlit("1");
    assert("9"@[0] == '9' && "3"@[0] == '3' && "1"@[0] == '1');
    if version_of(s) == Some("9"@) {
        assert(t.texts =~= s.texts);
    } else {
        let first = crate::delivery_migration::without_first_dead(s);
        let m = choose|m: StoreState| #[trigger]
            migrated(first, version_of(s), m) && t == m.with_text(
                meta(),
                "schema_version"@,
                crate::delivery_migration::schema_version(),
            );
        law_what_an_update_keeps(first, version_of(s), m, id);
        assert(first.row(deliveries(), id) == s.row(deliveries(), id));
        assert(t.row(deliveries(), id) == m.row(deliveries(), id));
        assert(t.row(dead(), id) == m.row(dead(), id));
        if version_of(s) == Some("1"@) {
            assert(first.row(dead(), id) is None);
        }
    }
}

} // verus!
