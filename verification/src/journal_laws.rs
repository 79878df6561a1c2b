//! Laws of the journals: how a line is written, how long journals are kept and which are removed.

use vstd::prelude::*;
use vstd::string::*;
use crate::cutting::{is_whitespace, trimmed};
use crate::glob::behind_last_slash;
use crate::journal::{lemma_replaced_all, lemma_replaced_front, replaced};
use crate::numeral::{decimal, is_digit, lemma_decimal, unsigned_value};
use crate::order::{lemma_less_total, text_less};
use crate::supervisor_journal::{
    age_limit, aged, capped_u64, no_younger, oldest_first, optional_bytes, oversize, prunable,
    prunes, prunes_by_size, quoted, quoted_char, quoted_fields, retention_secs, stamped_line,
    too_old, total_len, young, LogView, RetentionError, RetentionPolicy,
};
use crate::text_laws::{law_nothing_is_left_of_whitespace, law_what_is_trimmed};

verus! {

// Quoting.

proof fn lemma_quoted_same(a: Seq<char>, b: Seq<char>)
    requires
        replaced(a, |c: char| quoted_char(c)) == replaced(b, |c: char| quoted_char(c)),
    ensures
        a == b,
    decreases a.len(),
{
    let put = |c: char| quoted_char(c);
    if a.len() == 0 || b.len() == 0 {
        if a.len() > 0 {
            lemma_replaced_front(a, put);
            assert(replaced(a, put).len() > 0);
        }
        if b.len() > 0 {
            lemma_replaced_front(b, put);
            assert(replaced(b, put).len() > 0);
        }
        assert(a =~= b);
    } else {
        lemma_replaced_front(a, put);
        lemma_replaced_front(b, put);
        let s = replaced(a, put);
        let t = replaced(b, put);
        assert(s[0] == quoted_char(a[0])[0]);
        assert(t[0] == quoted_char(b[0])[0]);
        if s[0] == '\\' {
            assert(s[1] == quoted_char(a[0])[1]);
            assert(t[1] == quoted_char(b[0])[1]);
        }
        assert(a[0] == b[0]);
        let n = quoted_char(a[0]).len() as int;
        assert(s.skip(n) =~= replaced(a.drop_first(), put));
        assert(t.skip(n) =~= replaced(b.drop_first(), put));
        lemma_quoted_same(a.drop_first(), b.drop_first());
        assert(a =~= seq![a[0]] + a.drop_first());
        assert(b =~= seq![b[0]] + b.drop_first());
    }
}

proof fn lemma_quoted_plain(s: Seq<char>)
    requires
        forall|i: int|
            0 <= i < s.len() ==> #[trigger] s[i] != '\\' && s[i] != '"' && s[i] != '\n' && s[i]
                != '\r' && s[i] != '\t',
    ensures
        replaced(s, |c: char| quoted_char(c)) == s,
    decreases s.len(),
{
    if s.len() > 0 {
        let front = s.drop_last();
        assert forall|i: int| 0 <= i < front.len() implies #[trigger] front[i] != '\\' && front[i]
            != '"' && front[i] != '\n' && front[i] != '\r' && front[i] != '\t' by {
            assert(front[i] == s[i]);
        }
        lemma_quoted_plain(front);
        assert(s[s.len() - 1] != '\\');
        assert(s =~= front + seq![s.last()]);
    } else {
        assert(replaced(s, |c: char| quoted_char(c)) =~= s);
    }
}

/// A quoted value stands between quotes on one line; different values are quoted differently; and
/// one without quotes, backslashes and control characters stands there as it is.
pub proof fn law_what_is_quoted_can_be_read(a: Seq<char>, b: Seq<char>)
    ensures
        quoted(a) == quoted(b) ==> a == b,
        quoted(a).len() >= 2 && quoted(a)[0] == '"' && quoted(a).last() == '"',
        forall|i: int|
            0 <= i < quoted(a).len() ==> #[trigger] quoted(a)[i] != '\n' && quoted(a)[i] != '\r',
        (forall|i: int|
            0 <= i < a.len() ==> #[trigger] a[i] != '\\' && a[i] != '"' && a[i] != '\n' && a[i]
                != '\r' && a[i] != '\t') ==> quoted(a) == seq!['"'] + a + seq!['"'],
{
    let put = |c: char| quoted_char(c);
    let good = |c: char| c != '\n' && c != '\r';
    if quoted(a) == quoted(b) {
        let x = replaced(a, put);
        let y = replaced(b, put);
        assert(quoted(a).subrange(1, quoted(a).len() - 1) =~= x);
        assert(quoted(b).subrange(1, quoted(b).len() - 1) =~= y);
        lemma_quoted_same(a, b);
    }
    lemma_replaced_all(a, put, good);
    assert forall|i: int| 0 <= i < quoted(a).len() implies #[trigger] quoted(a)[i] != '\n'
        && quoted(a)[i] != '\r' by {
        if 0 < i < quoted(a).len() - 1 {
            assert(quoted(a)[i] == replaced(a, put)[i - 1]);
            assert(good(replaced(a, put)[i - 1]));
        }
    }
    if forall|i: int|
        0 <= i < a.len() ==> #[trigger] a[i] != '\\' && a[i] != '"' && a[i] != '\n' && a[i] != '\r'
            && a[i] != '\t' {
        lemma_quoted_plain(a);
    }
}

/// A line tells when what happened, and one field behind the other; it ends with a line feed.
pub proof fn law_a_line_of_the_journal(
    ts_ms: u64,
    event: Seq<char>,
    fields: Seq<(Seq<char>, Seq<char>)>,
    key: Seq<char>,
    value: Seq<char>,
)
    ensures
        stamped_line(ts_ms, event, Seq::empty()) == "ts="@ + decimal(ts_ms as nat) + " event="@
            + quoted(event) + seq!['\n'],
        stamped_line(ts_ms, event, fields).last() == '\n',
        stamped_line(ts_ms, event, fields.push((key, value))) == stamped_line(
            ts_ms,
            event,
            fields,
        ).drop_last() + seq![' '] + key + seq!['='] + quoted(value) + seq!['\n'],
{
    reveal_strlit("\n");
    reveal_strlit(" ");
    reveal_strlit("=");
    assert("\n"@ =~= seq!['\n']);
    assert(" "@ =~= seq![' ']);
    assert("="@ =~= seq!['=']);
    assert(fields.push((key, value)).drop_last() =~= fields);
    let base = "ts="@ + decimal(ts_ms as nat) + " event="@ + quoted(event);
    assert(stamped_line(ts_ms, event, fields).drop_last() =~= quoted_fields(base, fields));
}

// How long journals are kept.

proof fn lemma_no_trim(t: Seq<char>)
    requires
        t.len() > 0,
        !is_whitespace(t[0]),
        !is_whitespace(t.last()),
    ensures
        trimmed(t) == t,
{
    let nothing = Seq::<char>::empty();
    law_what_is_trimmed(nothing, t, nothing);
    assert(nothing + t + nothing =~= t);
}

/// A number alone is a number of seconds; `s`, `m`, `h` and `d` behind it say seconds, minutes, hours
/// and days.
pub proof fn law_how_long_journals_are_kept(n: nat)
    requires
        0 < n <= u64::MAX,
    ensures
        retention_secs(decimal(n)) == Ok::<Option<nat>, RetentionError>(Some(n)),
        retention_secs(decimal(n) + seq!['s']) == Ok::<Option<nat>, RetentionError>(Some(n)),
        retention_secs(decimal(n) + seq!['m']) == (if 60 * n <= u64::MAX {
            Ok::<Option<nat>, RetentionError>(Some(60 * n))
        } else {
            Err(RetentionError::Overflow)
        }),
        retention_secs(decimal(n) + seq!['h']) == (if 3600 * n <= u64::MAX {
            Ok::<Option<nat>, RetentionError>(Some(3600 * n))
        } else {
            Err(RetentionError::Overflow)
        }),
        retention_secs(decimal(n) + seq!['d']) == (if 86400 * n <= u64::MAX {
            Ok::<Option<nat>, RetentionError>(Some(86400 * n))
        } else {
            Err(RetentionError::Overflow)
        }),
        optional_bytes(decimal(n)) == Ok::<Option<nat>, RetentionError>(Some(n)),
{
    lemma_decimal(n);
    crate::text_laws::law_a_number_is_read_from_its_numeral(n);
    let t = decimal(n);
    assert(n * 1nat == n) by (nonlinear_arith);
    reveal_strlit("0");
    assert("0"@ =~= seq!['0']);
    assert(is_digit(t[0]));
    assert(is_digit(t[t.len() - 1]));
    lemma_no_trim(t);
    if t == "0"@ {
        crate::text_laws::law_a_number_is_read_from_its_numeral(0);
        lemma_decimal(0);
        assert(decimal(0) =~= seq!['0']);
        crate::text_laws::law_numerals_differ(n, 0);
    }
    assert((t + seq!['s']).drop_last() =~= t);
    assert((t + seq!['m']).drop_last() =~= t);
    assert((t + seq!['h']).drop_last() =~= t);
    assert((t + seq!['d']).drop_last() =~= t);
    lemma_no_trim(t + seq!['s']);
    lemma_no_trim(t + seq!['m']);
    lemma_no_trim(t + seq!['h']);
    lemma_no_trim(t + seq!['d']);
    assert((t + seq!['s']).len() > 1 && (t + seq!['m']).len() > 1 && (t + seq!['h']).len() > 1 && (t
        + seq!['d']).len() > 1);
}

/// Without a number, or with nothing but a nought, journals are kept for ever; whitespace around the
/// text makes no difference.
pub proof fn law_journals_are_kept_for_ever(a: Seq<char>, b: Seq<char>, t: Seq<char>)
    requires
        crate::text_laws::is_blank(a),
        crate::text_laws::is_blank(b),
        t.len() > 0,
        !is_whitespace(t[0]),
        !is_whitespace(t.last()),
    ensures
        retention_secs(a) == Ok::<Option<nat>, RetentionError>(None),
        optional_bytes(a) == Ok::<Option<nat>, RetentionError>(None),
        retention_secs(a + "0"@ + b) == Ok::<Option<nat>, RetentionError>(None),
        optional_bytes(a + "0"@ + b) == Ok::<Option<nat>, RetentionError>(None),
        retention_secs(a + t + b) == retention_secs(t),
        optional_bytes(a + t + b) == optional_bytes(t),
{
    law_nothing_is_left_of_whitespace(a);
    reveal_strlit("0");
    assert("0"@ =~= seq!['0']);
    law_what_is_trimmed(a, "0"@, b);
    law_what_is_trimmed(a, t, b);
    lemma_no_trim(t);
}

/// A text that ends in anything but a digit or one of the four letters says nothing of time, and
/// neither does one that has anything but a number in front of its letter.
pub proof fn law_what_says_nothing_of_time(t: Seq<char>, c: char)
    requires
        t.len() > 0,
        !is_whitespace(t[0]),
        !is_whitespace(c),
    ensures
        c != 's' && c != 'm' && c != 'h' && c != 'd' && !('0' <= c && c <= '9') ==> retention_secs(
            t + seq![c],
        ) == Err::<Option<nat>, RetentionError>(RetentionError::BadSuffix),
        (c == 's' || c == 'm' || c == 'h' || c == 'd') && unsigned_value(t) is None
            ==> retention_secs(t + seq![c]) == Err::<Option<nat>, RetentionError>(
            RetentionError::NotANumber,
        ),
{
    lemma_no_trim(t + seq![c]);
    assert((t + seq![c]).drop_last() =~= t);
    reveal_strlit("0");
    assert("0"@.len() == 1);
    assert((t + seq![c]).len() > 1);
}

// Which journals are removed.

proof fn lemma_name(dir: Seq<char>, name: Seq<char>)
    requires
        forall|i: int| 0 <= i < name.len() ==> #[trigger] name[i] != '/',
    ensures
        behind_last_slash(dir + seq!['/'] + name) == dir.len() + 1,
    decreases name.len(),
{
    let s = dir + seq!['/'] + name;
    if name.len() > 0 {
        assert(name[name.len() - 1] != '/');
        assert(s.last() == name[name.len() - 1]);
        assert(s.drop_last() =~= dir + seq!['/'] + name.drop_last());
        assert forall|i: int| 0 <= i < name.drop_last().len() implies #[trigger] name.drop_last()[i]
            != '/' by {
            assert(name.drop_last()[i] == name[i]);
        }
        lemma_name(dir, name.drop_last());
    } else {
        assert(s.last() == '/');
    }
}

/// A journal is a file that ends in `.log` with something in front of that; each may be removed but
/// the one that is written to.
pub proof fn law_which_files_are_journals(dir: Seq<char>, name: Seq<char>, current: Seq<char>)
    requires
        forall|i: int| 0 <= i < name.len() ==> #[trigger] name[i] != '/',
    ensures
        prunable(dir + seq!['/'] + name + ".log"@, current) <==> name.len() > 0 && current != dir
            + seq!['/'] + name + ".log"@,
        prunable(dir + seq!['/'] + name, current) ==> ".log"@.is_suffix_of(name),
        !prunable(current, current),
{
    reveal_strlit(".log");
    let full = name + ".log"@;
    assert forall|i: int| 0 <= i < full.len() implies #[trigger] full[i] != '/' by {
        if i < name.len() {
            assert(full[i] == name[i]);
        }
    }
    let path = dir + seq!['/'] + name + ".log"@;
    assert(path =~= dir + seq!['/'] + full);
    lemma_name(dir, full);
    assert(path.skip(dir.len() as int + 1) =~= full);
    assert(full.skip(full.len() - 4) =~= ".log"@);
    lemma_name(dir, name);
    let other = dir + seq!['/'] + name;
    assert(other.skip(dir.len() as int + 1) =~= name);
    if prunable(other, current) {
        assert(name.subrange(name.len() - 4, name.len() as int) =~= name.skip(name.len() - 4));
    }
}

/// A journal is too old just where it was written before the time that journals are kept for.
pub proof fn law_when_a_journal_is_too_old(entry: LogView, now: i128, age: nat)
    ensures
        too_old(entry, now, Some(age)) <==> entry.modified + age < now,
        !too_old(entry, now, None),
{
}

/// The journals that are too old are removed, and only those.
pub proof fn law_the_old_journals(
    entries: Seq<LogView>,
    current: Seq<char>,
    now: i128,
    age: Option<nat>,
    path: Seq<char>,
)
    ensures
        aged(entries, current, now, age).contains(path) <==> exists|i: int|
            0 <= i < entries.len() && (#[trigger] entries[i]).path == path && prunable(path, current)
                && too_old(entries[i], now, age),
    decreases entries.len(),
{
    if entries.len() > 0 {
        let front = entries.drop_last();
        law_the_old_journals(front, current, now, age, path);
        let old = aged(front, current, now, age);
        let last = entries[entries.len() - 1];
        if exists|i: int|
            0 <= i < entries.len() && (#[trigger] entries[i]).path == path && prunable(path, current)
                && too_old(entries[i], now, age) {
            let i = choose|i: int|
                0 <= i < entries.len() && (#[trigger] entries[i]).path == path && prunable(
                    path,
                    current,
                ) && too_old(entries[i], now, age);
            if i < front.len() {
                assert(front[i] == entries[i]);
                let k = choose|k: int| 0 <= k < old.len() && old[k] == path;
                assert(aged(entries, current, now, age)[k] == path);
            } else {
                assert(aged(entries, current, now, age)[old.len() as int] == path);
            }
        }
        if aged(entries, current, now, age).contains(path) {
            let k = choose|k: int|
                0 <= k < aged(entries, current, now, age).len() && aged(
                    entries,
                    current,
                    now,
                    age,
                )[k] == path;
            if k < old.len() {
                assert(old[k] == path);
                let i = choose|i: int|
                    0 <= i < front.len() && (#[trigger] front[i]).path == path && prunable(
                        path,
                        current,
                    ) && too_old(front[i], now, age);
                assert(entries[i] == front[i]);
            } else {
                assert(last.path == path);
            }
        }
    }
}

/// The journals that are not too old stay, in their order, unless they take too much room.
pub proof fn law_the_young_journals(
    entries: Seq<LogView>,
    current: Seq<char>,
    now: i128,
    age: Option<nat>,
)
    ensures
        young(entries, current, now, age) == entries.filter(
            |e: LogView| prunable(e.path, current) && !too_old(e, now, age),
        ),
    decreases entries.len(),
{
    reveal(Seq::filter);
    if entries.len() > 0 {
        law_the_young_journals(entries.drop_last(), current, now, age);
    }
}

proof fn lemma_total_front(entries: Seq<LogView>)
    requires
        entries.len() > 0,
    ensures
        total_len(entries) == entries[0].len + total_len(entries.drop_first()),
    decreases entries.len(),
{
    if entries.len() > 1 {
        lemma_total_front(entries.drop_last());
        assert(entries.drop_last().drop_first() =~= entries.drop_first().drop_last());
        assert(entries.drop_first().last() == entries.last());
    } else {
        assert(entries.drop_last() =~= entries.drop_first());
    }
}

/// Of journals in an order as many are removed from the front as it takes for the rest to fit, and
/// none more.
pub proof fn law_as_many_journals_as_it_takes(entries: Seq<LogView>, max: u64)
    requires
        total_len(entries) <= u64::MAX,
    ensures
        ({
            let gone = oversize(entries, total_len(entries) as u64, max);
            &&& gone.len() <= entries.len()
            &&& forall|i: int| 0 <= i < gone.len() ==> #[trigger] gone[i] == entries[i].path
            &&& total_len(entries.skip(gone.len() as int)) <= max
            &&& gone.len() > 0 ==> total_len(entries.skip(gone.len() - 1)) > max
        }),
    decreases entries.len(),
{
    let gone = oversize(entries, total_len(entries) as u64, max);
    if entries.len() == 0 || total_len(entries) <= max {
        assert(entries.skip(0) =~= entries);
    } else {
        lemma_total_front(entries);
        let rest = entries.drop_first();
        law_as_many_journals_as_it_takes(rest, max);
        let more = oversize(rest, total_len(rest) as u64, max);
        assert(gone =~= seq![entries[0].path] + more);
        assert(entries.skip(gone.len() as int) =~= rest.skip(more.len() as int));
        assert forall|i: int| 0 <= i < gone.len() implies #[trigger] gone[i] == entries[i].path by {
            if i > 0 {
                assert(gone[i] == more[i - 1]);
                assert(rest[i - 1] == entries[i]);
            }
        }
        if more.len() > 0 {
            assert(entries.skip(gone.len() - 1) =~= rest.skip(more.len() - 1));
        } else {
            assert(entries.skip(0) =~= entries);
        }
    }
}

/// The journals are ordered by when they were written, and those of one time by their paths.
pub proof fn law_the_order_of_journals(a: LogView, b: LogView)
    ensures
        a.modified < b.modified ==> no_younger(a, b) && !no_younger(b, a),
        a.modified == b.modified && text_less(a.path, b.path) ==> no_younger(a, b) && !no_younger(
            b,
            a,
        ),
        a.modified == b.modified && a.path == b.path ==> no_younger(a, b),
{
    lemma_less_total(a.path, b.path);
    if text_less(a.path, b.path) {
        if b.path == a.path {
            crate::order::lemma_less_irreflexive(a.path);
        }
    }
}

/// Without a limit no journal is removed. The journal that is written to stays, and so does every
/// file that is no journal. Every journal that is too old goes.
pub proof fn law_what_is_removed(
    entries: Seq<LogView>,
    current: Seq<char>,
    policy: RetentionPolicy,
    now: i128,
    removed: Seq<Seq<char>>,
    i: int,
)
    requires
        prunes(entries, current, policy, now, removed),
        0 <= i < entries.len(),
    ensures
        policy.max_age is None && policy.max_bytes is None ==> removed.len() == 0,
        !removed.contains(current),
        prunable(entries[i].path, current) && too_old(entries[i], now, age_limit(policy))
            ==> removed.contains(entries[i].path),
        policy.max_bytes is None ==> forall|p: Seq<char>| #[trigger]
            removed.contains(p) ==> exists|j: int|
                0 <= j < entries.len() && (#[trigger] entries[j]).path == p && too_old(
                    entries[j],
                    now,
                    age_limit(policy),
                ),
{
    if policy.max_age is Some || policy.max_bytes is Some {
        let age = age_limit(policy);
        let old = aged(entries, current, now, age);
        let kept = young(entries, current, now, age);
        law_the_old_journals(entries, current, now, age, entries[i].path);
        law_the_old_journals(entries, current, now, age, current);
        law_the_young_journals(entries, current, now, age);
        if policy.max_bytes is Some {
            let max = policy.max_bytes->0;
            let ordered = choose|s: Seq<LogView>| #[trigger]
                oldest_first(s, kept) && removed == old + oversize(
                    s,
                    capped_u64(total_len(kept)),
                    max,
                );
            let gone = oversize(ordered, capped_u64(total_len(kept)), max);
            lemma_gone_is_there(ordered, capped_u64(total_len(kept)), max);
            if removed.contains(current) {
                let k = choose|k: int| 0 <= k < removed.len() && removed[k] == current;
                if k < old.len() {
                    assert(old.contains(current));
                } else {
                    assert(gone[k - old.len()] == current);
                    let j = k - old.len();
                    assert(ordered[j].path == current);
                    ordered.to_multiset_ensures();
                    kept.to_multiset_ensures();
                    assert(ordered.contains(ordered[j]));
                    assert(ordered.to_multiset().count(ordered[j]) > 0);
                    assert(kept.contains(ordered[j]));
                    lemma_young_is_prunable(entries, current, now, age);
                }
            }
            if old.contains(entries[i].path) {
                let k = choose|k: int| 0 <= k < old.len() && old[k] == entries[i].path;
                assert(removed[k] == entries[i].path);
            }
        } else {
            assert forall|p: Seq<char>| #[trigger] removed.contains(p) implies exists|j: int|
                0 <= j < entries.len() && (#[trigger] entries[j]).path == p && too_old(
                    entries[j],
                    now,
                    age,
                ) by {
                law_the_old_journals(entries, current, now, age, p);
            }
        }
    }
}

proof fn lemma_young_is_prunable(
    entries: Seq<LogView>,
    current: Seq<char>,
    now: i128,
    age: Option<nat>,
)
    ensures
        ({
            let kept = young(entries, current, now, age);
            forall|i: int| 0 <= i < kept.len() ==> prunable((#[trigger] kept[i]).path, current)
        }),
    decreases entries.len(),
{
    if entries.len() > 0 {
        lemma_young_is_prunable(entries.drop_last(), current, now, age);
        let kept = young(entries, current, now, age);
        let before = young(entries.drop_last(), current, now, age);
        assert forall|i: int| 0 <= i < kept.len() implies prunable(
            (#[trigger] kept[i]).path,
            current,
        ) by {
            if i < before.len() {
                assert(kept[i] == before[i]);
            }
        }
    }
}

proof fn lemma_gone_is_there(entries: Seq<LogView>, total: u64, max: u64)
    ensures
        ({
            let gone = oversize(entries, total, max);
            &&& gone.len() <= entries.len()
            &&& forall|i: int| 0 <= i < gone.len() ==> #[trigger] gone[i] == entries[i].path
        }),
    decreases entries.len(),
{
    let gone = oversize(entries, total, max);
    if entries.len() > 0 && total > max {
        let rest = entries.drop_first();
        let left = (if total >= entries[0].len {
            total - entries[0].len
        } else {
            0
        }) as u64;
        lemma_gone_is_there(rest, left, max);
        let more = oversize(rest, left, max);
        assert forall|i: int| 0 <= i < gone.len() implies #[trigger] gone[i] == entries[i].path by {
            if i > 0 {
                assert(gone[i] == more[i - 1]);
                assert(rest[i - 1] == entries[i]);
            }
        }
    }
}

/// What is removed for want of room are the oldest journals: the rest fits, and with the last one
/// that was removed it did not.
pub proof fn law_the_oldest_journals_make_room(
    entries: Seq<LogView>,
    max: u64,
    removed: Seq<Seq<char>>,
)
    requires
        prunes_by_size(entries, max, removed),
        total_len(entries) <= u64::MAX,
    ensures
        exists|s: Seq<LogView>| #[trigger]
            oldest_first(s, entries) && removed.len() <= s.len() && total_len(
                s.skip(removed.len() as int),
            ) <= max && (removed.len() > 0 ==> total_len(s.skip(removed.len() - 1)) > max) && (
            forall|i: int| 0 <= i < removed.len() ==> #[trigger] removed[i] == s[i].path),
{
    let s = choose|s: Seq<LogView>| #[trigger]
        oldest_first(s, entries) && removed == oversize(s, capped_u64(total_len(entries)), max);
    lemma_total_same(s, entries);
    law_as_many_journals_as_it_takes(s, max);
}

proof fn lemma_total_without(s: Seq<LogView>, i: int)
    requires
        0 <= i < s.len(),
    ensures
        total_len(s) == s[i].len + total_len(s.remove(i)),
    decreases s.len(),
{
    if i == s.len() - 1 {
        assert(s.remove(i) =~= s.drop_last());
    } else {
        lemma_total_without(s.drop_last(), i);
        assert(s.remove(i).drop_last() =~= s.drop_last().remove(i));
        assert(s.remove(i).last() == s.last());
    }
}

proof fn lemma_total_same(a: Seq<LogView>, b: Seq<LogView>)
    requires
        a.to_multiset() == b.to_multiset(),
    ensures
        total_len(a) == total_len(b),
    decreases a.len(),
{
    a.to_multiset_ensures();
    b.to_multiset_ensures();
    assert(a.len() == b.len());
    if a.len() > 0 {
        let x = a[0];
        assert(a.contains(x));
        assert(b.to_multiset().count(x) > 0);
        assert(b.contains(x));
        let i = choose|i: int| 0 <= i < b.len() && b[i] == x;
        lemma_total_without(a, 0);
        lemma_total_without(b, i);
        assert(a.remove(0).to_multiset() =~= a.to_multiset().remove(x));
        assert(b.remove(i).to_multiset() =~= b.to_multiset().remove(x));
        lemma_total_same(a.remove(0), b.remove(i));
    }
}

} // verus!
