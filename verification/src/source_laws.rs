//! Laws of sources: when they fire, what they emit, and that each change is emitted once.

use vstd::prelude::*;
use vstd::string::*;
use crate::cutting::trimmed;
use crate::delivery_types::SourceKind;
use crate::duration::millis;
use crate::json::JsonView;
use crate::numeral::{decimal, is_digit, lemma_decimal};
use crate::source_runner::{
    absolute_glob, cron_payload_json, cron_reference, cron_slot_of, duration_secs, file_emitted,
    file_reference, first_fire_millis, is_unchanged, law_cron_slot, next_fire_of, seen_files,
    DurationFault, FileIdentity, SeenFile,
};
use crate::text_laws::{
    is_blank, law_a_number_is_read_from_its_numeral, law_a_path_below_a_root,
    law_nothing_is_left_of_whitespace, law_what_is_trimmed, law_what_is_whitespace,
};

verus! {

// Durations.

/// A duration is a number and a unit: seconds, minutes of sixty seconds or hours of sixty minutes,
/// with any whitespace around it.
pub proof fn law_what_a_duration_stands_for(a: Seq<char>, n: nat, b: Seq<char>)
    requires
        is_blank(a),
        is_blank(b),
        n <= u64::MAX,
    ensures
        duration_secs(a + (decimal(n) + seq!['s']) + b) == Ok::<nat, DurationFault>(n),
        duration_secs(a + (decimal(n) + seq!['m']) + b) == Ok::<nat, DurationFault>(60 * n),
        duration_secs(a + (decimal(n) + seq!['h']) + b) == Ok::<nat, DurationFault>(60 * (60 * n)),
{
    lemma_duration(a, n, 's', b);
    lemma_duration(a, n, 'm', b);
    lemma_duration(a, n, 'h', b);
}

proof fn lemma_duration(a: Seq<char>, n: nat, unit: char, b: Seq<char>)
    requires
        is_blank(a),
        is_blank(b),
        'a' <= unit && unit <= 'z',
    ensures
        trimmed(a + (decimal(n) + seq![unit]) + b) == decimal(n) + seq![unit],
        (decimal(n) + seq![unit]).drop_last() == decimal(n),
        n <= u64::MAX ==> crate::numeral::unsigned_value(decimal(n)) == Some(n),
{
    let t = decimal(n) + seq![unit];
    lemma_decimal(n);
    assert(is_digit(decimal(n)[0]));
    assert(t[0] == decimal(n)[0]);
    law_what_is_whitespace(t[0]);
    law_what_is_whitespace(unit);
    assert(t.last() == unit);
    law_what_is_trimmed(a, t, b);
    assert(t.drop_last() =~= decimal(n));
    law_a_number_is_read_from_its_numeral(n);
}

/// Any other unit is none, and so is a text that is nothing but whitespace.
pub proof fn law_what_is_no_duration(a: Seq<char>, n: nat, unit: char, b: Seq<char>)
    requires
        is_blank(a),
        is_blank(b),
        n <= u64::MAX,
        'a' <= unit && unit <= 'z',
        unit != 's',
        unit != 'm',
        unit != 'h',
    ensures
        duration_secs(a + (decimal(n) + seq![unit]) + b) == Err::<nat, DurationFault>(
            DurationFault::BadUnit(seq![unit]),
        ),
        duration_secs(a) == Err::<nat, DurationFault>(DurationFault::Empty),
{
    lemma_duration(a, n, unit, b);
    law_nothing_is_left_of_whitespace(a);
}

/// A text without a number in front of its last character is refused, and what stands there is named.
pub proof fn law_a_duration_starts_with_a_number(t: Seq<char>, unit: char)
    requires
        t.len() > 0,
        !crate::cutting::is_whitespace(t[0]),
        !crate::cutting::is_whitespace(unit),
        crate::numeral::unsigned_value(t) is None,
    ensures
        duration_secs(t + seq![unit]) == Err::<nat, DurationFault>(DurationFault::NotANumber(t)),
{
    let nothing = Seq::<char>::empty();
    let s = t + seq![unit];
    crate::text_laws::law_what_is_trimmed(nothing, s, nothing);
    assert(nothing + s + nothing =~= s);
    assert(s.drop_last() =~= t);
}

// Cron raisers.

/// A raiser fires next no earlier than one interval after it last fired and no earlier than now, and
/// as soon as both have come: what was missed is not made up for.
pub proof fn law_when_a_raiser_fires_next(last_ms: u64, interval_ms: u64, now_ms: u64)
    requires
        last_ms + interval_ms <= u64::MAX,
    ensures
        next_fire_of(last_ms, interval_ms, now_ms) >= last_ms + interval_ms,
        next_fire_of(last_ms, interval_ms, now_ms) >= now_ms,
        next_fire_of(last_ms, interval_ms, now_ms) == last_ms + interval_ms || next_fire_of(
            last_ms,
            interval_ms,
            now_ms,
        ) == now_ms,
{
}

/// The first firing is put off by what the name alone decides, for all intervals of thirty seconds
/// or more.
pub proof fn law_the_name_alone_decides_the_first_firing(
    name: Seq<char>,
    interval: nat,
    other: nat,
)
    requires
        interval >= 30_000_000_000,
        other >= 30_000_000_000,
    ensures
        first_fire_millis(name, interval) == first_fire_millis(name, other),
        first_fire_millis(name, interval) == crate::digest::fnv1a(
            crate::digest::FNV_OFFSET,
            vstd::utf8::encode_utf8(name),
        ) as nat % 30_000,
{
}

/// Two times fall into one slot just where no slot starts between them: each slot is one interval
/// long.
pub proof fn law_times_of_one_interval_have_one_slot(a: u64, b: u64, interval: nat)
    requires
        millis(interval) > 0,
        cron_slot_of(a, interval) <= b < cron_slot_of(a, interval) + millis(interval),
    ensures
        cron_slot_of(b, interval) == cron_slot_of(a, interval),
{
    let m = millis(interval) as int;
    let s = cron_slot_of(a, interval) as int;
    let t = cron_slot_of(b, interval) as int;
    law_cron_slot(a, interval);
    law_cron_slot(b, interval);
    vstd::arithmetic::div_mod::lemma_fundamental_div_mod(s, m);
    vstd::arithmetic::div_mod::lemma_fundamental_div_mod(t, m);
    let x = s / m;
    let y = t / m;
    assert(s == m * x && t == m * y);
    assert(x == y) by (nonlinear_arith)
        requires
            m > 0,
            m * x < m * y + m,
            m * y < m * x + m,
    ;
}

spec fn no_slash(s: Seq<char>) -> bool {
    forall|i: int| 0 <= i < s.len() ==> #[trigger] s[i] != '/'
}

proof fn lemma_tail(a: Seq<char>, x: Seq<char>, b: Seq<char>, y: Seq<char>)
    requires
        a + seq!['/'] + x == b + seq!['/'] + y,
        no_slash(x),
        no_slash(y),
    ensures
        a == b,
        x == y,
{
    let s = a + seq!['/'] + x;
    let t = b + seq!['/'] + y;
    assert(s.len() == a.len() + 1 + x.len());
    assert(t.len() == b.len() + 1 + y.len());
    assert(s[a.len() as int] == '/');
    assert(t[b.len() as int] == '/');
    if a.len() < b.len() {
        assert(s[b.len() as int] == x[b.len() - a.len() - 1]);
    } else if b.len() < a.len() {
        assert(t[a.len() as int] == y[a.len() - b.len() - 1]);
    }
    assert(a =~= s.take(a.len() as int));
    assert(b =~= t.take(b.len() as int));
    assert(x =~= s.skip(a.len() as int + 1));
    assert(y =~= t.skip(b.len() as int + 1));
}

proof fn lemma_digits_no_slash(n: nat)
    ensures
        no_slash(decimal(n)),
        decimal(n).len() >= 1,
{
    lemma_decimal(n);
    assert forall|i: int| 0 <= i < decimal(n).len() implies #[trigger] decimal(n)[i] != '/' by {
        assert(is_digit(decimal(n)[i]));
    }
}

/// Each raiser has its own source for each slot.
pub proof fn law_each_slot_is_a_source_of_its_own(
    name: Seq<char>,
    slot: u64,
    other: Seq<char>,
    later: u64,
)
    requires
        cron_reference(name, slot) == cron_reference(other, later),
    ensures
        name == other,
        slot == later,
{
    reveal_strlit("/slot/");
    assert("/slot/"@ =~= seq!['/', 's', 'l', 'o', 't'] + seq!['/']);
    lemma_digits_no_slash(slot as nat);
    lemma_digits_no_slash(later as nat);
    let mark = seq!['/', 's', 'l', 'o', 't'];
    assert(cron_reference(name, slot) =~= (name + mark) + seq!['/'] + decimal(slot as nat));
    assert(cron_reference(other, later) =~= (other + mark) + seq!['/'] + decimal(later as nat));
    lemma_tail(name + mark, decimal(slot as nat), other + mark, decimal(later as nat));
    assert(name =~= (name + mark).take(name.len() as int));
    assert((name + mark).len() == (other + mark).len());
    assert(other =~= (other + mark).take(other.len() as int));
    lemma_decimal(slot as nat);
    lemma_decimal(later as nat);
}

/// What a cron raiser emits names the raiser.
pub proof fn law_a_cron_payload_names_the_raiser(name: Seq<char>)
    ensures
        cron_payload_json(name) matches JsonView::Object(m) && m.contains_key("raiser"@)
            && m["raiser"@] == JsonView::Text(name) && forall|k: Seq<char>| #[trigger]
            m.contains_key(k) ==> k == "raiser"@,
{
}

// File watches.

/// When a file was last changed, in milliseconds, where that is known and behind the epoch.
pub open spec fn changed_at(identity: FileIdentity) -> Option<nat> {
    match identity.modified {
        Some(at) => if at >= 0 {
            Some(millis(at as nat))
        } else {
            None
        },
        None => None,
    }
}

/// A file is a source of its own in each state: two states have one reference just where the length
/// and the time of the last change, in milliseconds, are the same.
pub proof fn law_each_state_of_a_file_is_a_source_of_its_own(
    path: Seq<char>,
    a: FileIdentity,
    b: FileIdentity,
)
    ensures
        file_reference(path, a) == file_reference(path, b) <==> a.len == b.len && changed_at(a)
            == changed_at(b),
{
    reveal_strlit("/mtime/");
    let x = decimal(a.len as nat);
    let y = decimal(b.len as nat);
    lemma_decimal(a.len as nat);
    lemma_decimal(b.len as nat);
    lemma_digits_no_slash(a.len as nat);
    lemma_digits_no_slash(b.len as nat);
    let front = path + "/len/"@;
    if file_reference(path, a) == file_reference(path, b) {
        let mark = "/mtime/"@;
        match (changed_at(a), changed_at(b)) {
            (Some(m), Some(n)) => {
                lemma_decimal(m);
                lemma_decimal(n);
                lemma_digits_no_slash(m);
                lemma_digits_no_slash(n);
                let word = seq!['/', 'm', 't', 'i', 'm', 'e'];
                assert(mark =~= word + seq!['/']);
                assert(file_reference(path, a) =~= (front + x + word) + seq!['/'] + decimal(m));
                assert(file_reference(path, b) =~= (front + y + word) + seq!['/'] + decimal(n));
                lemma_tail(front + x + word, decimal(m), front + y + word, decimal(n));
                assert((front + x + word).len() == (front + y + word).len());
                assert(x =~= (front + x + word).subrange(
                    front.len() as int,
                    (front.len() + x.len()) as int,
                ));
                assert(y =~= (front + y + word).subrange(
                    front.len() as int,
                    (front.len() + y.len()) as int,
                ));
            },
            (None, None) => {
                assert(x =~= (front + x).skip(front.len() as int));
                assert(y =~= (front + y).skip(front.len() as int));
            },
            (Some(m), None) => {
                let r = front + x + mark + decimal(m);
                assert(r == front + y);
                assert(r[(front.len() + x.len()) as int] == '/');
                assert((front + y)[(front.len() + x.len()) as int] == y[x.len() as int]);
            },
            (None, Some(n)) => {
                let r = front + y + mark + decimal(n);
                assert(r == front + x);
                assert(r[(front.len() + y.len()) as int] == '/');
                assert((front + x)[(front.len() + y.len()) as int] == x[y.len() as int]);
            },
        }
    }
}

/// What is emitted for a file goes to the queue of the watch, and tells the file and its state.
pub proof fn law_what_is_emitted_for_a_file(
    path: Seq<char>,
    identity: FileIdentity,
    produces: Seq<char>,
    observed_at_ms: u64,
)
    ensures
        ({
            let e = file_emitted(path, identity, produces, observed_at_ms);
            &&& e.queue == produces
            &&& e.observed_at_ms == observed_at_ms
            &&& e.source.kind == SourceKind::File
            &&& e.source.reference == file_reference(path, identity)
            &&& e.cron_payload is None
            &&& e.payload matches JsonView::Object(m) && m.contains_key("path"@) && m["path"@]
                == JsonView::Text(path) && forall|k: Seq<char>| #[trigger]
                m.contains_key(k) ==> k == "path"@
        }),
{
}

proof fn lemma_seen(seen: Seq<SeenFile>, path: Seq<char>, at: int)
    requires
        0 <= at < seen.len(),
        seen[at].path@ == path,
        forall|i: int| at < i < seen.len() ==> (#[trigger] seen[i]).path@ != path,
    ensures
        seen_files(seen).contains_key(path),
        seen_files(seen)[path] == seen[at].identity,
    decreases seen.len(),
{
    if at < seen.len() - 1 {
        let rest = seen.drop_last();
        assert forall|i: int| at < i < rest.len() implies (#[trigger] rest[i]).path@ != path by {
            assert(rest[i] == seen[i]);
        }
        lemma_seen(rest, path, at);
        assert(seen[seen.len() - 1].path@ != path);
    }
}

/// A file is unchanged just where the state in which it was seen last is the state in which it is.
pub proof fn law_when_a_file_is_unchanged(
    seen: Seq<SeenFile>,
    path: Seq<char>,
    identity: FileIdentity,
    at: int,
)
    requires
        0 <= at < seen.len(),
        seen[at].path@ == path,
        forall|i: int| at < i < seen.len() ==> (#[trigger] seen[i]).path@ != path,
    ensures
        is_unchanged(seen, path, identity) <==> seen[at].identity == identity,
{
    lemma_seen(seen, path, at);
}

/// A file that was never seen is not unchanged.
pub proof fn law_a_new_file_is_not_unchanged(
    seen: Seq<SeenFile>,
    path: Seq<char>,
    identity: FileIdentity,
)
    requires
        forall|i: int| 0 <= i < seen.len() ==> (#[trigger] seen[i]).path@ != path,
    ensures
        !is_unchanged(seen, path, identity),
    decreases seen.len(),
{
    if seen.len() > 0 {
        let rest = seen.drop_last();
        assert forall|i: int| 0 <= i < rest.len() implies (#[trigger] rest[i]).path@ != path by {
            assert(rest[i] == seen[i]);
        }
        law_a_new_file_is_not_unchanged(rest, path, identity);
        assert(seen[seen.len() - 1].path@ != path);
    }
}

/// Each change is emitted once: a file that was noted in some state is unchanged in that state and
/// changed in every other, and nothing is forgotten of the other files.
pub proof fn law_each_change_is_emitted_once(
    before: Seq<SeenFile>,
    after: Seq<SeenFile>,
    path: Seq<char>,
    identity: FileIdentity,
    other: Seq<char>,
    state: FileIdentity,
)
    requires
        seen_files(after) == seen_files(before).insert(path, identity),
    ensures
        is_unchanged(after, path, state) <==> state == identity,
        other != path ==> is_unchanged(after, other, state) == is_unchanged(before, other, state),
{
}

/// A pattern without a resolved directory is looked for below the root of the host, and an absolute
/// one where it says.
pub proof fn law_where_a_pattern_is_looked_for(
    glob: Seq<char>,
    host_root: Seq<char>,
    scan_root: Seq<char>,
)
    requires
        host_root.len() > 0,
        host_root.last() != '/',
    ensures
        glob.len() > 0 && glob[0] == '/' ==> absolute_glob(glob, host_root, scan_root, None) == glob,
        glob.len() > 0 && glob[0] != '/' ==> absolute_glob(glob, host_root, scan_root, None)
            == host_root + seq!['/'] + glob,
{
    law_a_path_below_a_root(host_root, glob);
}

/// A pattern with a special character is looked for below the directory that its own stands for.
pub proof fn law_a_resolved_directory_takes_its_place(
    scan_root: Seq<char>,
    rest: Seq<char>,
    resolved: Seq<char>,
    host_root: Seq<char>,
    at: int,
)
    requires
        scan_root.len() > 0,
        scan_root[0] == '/',
        0 <= at < rest.len(),
        rest[at] == '*' || rest[at] == '?' || rest[at] == '[',
    ensures
        absolute_glob(scan_root + rest, host_root, scan_root, Some(resolved)) == resolved + rest,
{
    let glob = scan_root + rest;
    assert(glob[0] == '/');
    law_a_path_below_a_root(host_root, glob);
    lemma_has_magic(glob, scan_root.len() + at);
    crate::text_laws::law_a_pattern_is_moved(scan_root, rest, resolved);
}

proof fn lemma_has_magic(s: Seq<char>, at: int)
    requires
        0 <= at < s.len(),
        s[at] == '*' || s[at] == '?' || s[at] == '[',
    ensures
        crate::glob::magic_at(s) < s.len(),
    decreases s.len(),
{
    if at > 0 && !crate::glob::is_magic(s[0]) {
        assert(s.drop_first()[at - 1] == s[at]);
        lemma_has_magic(s.drop_first(), at - 1);
    }
}

} // verus!
