//! Lines of the supervise event journal, and which old journals are removed.

use vstd::prelude::*;
use vstd::string::*;
use crate::cutting::{trim_text, trimmed};
use crate::duration::Duration;
use crate::journal::{fields_view, lemma_replaced_step, replaced, Field};
use crate::numeral::{decimal, parse_unsigned, push_decimal, unsigned_value};
use crate::order::{
    lemma_at_most_transitive, lemma_less_total, less_text, text_at_most,
};
use crate::sorting::{lemma_rearranged_map, sort, Ordered};
use crate::text::{copy_text, same_text, text_of, texts_view, to_chars};
use crate::cutting::ends_with;
use crate::glob::behind_last_slash;

verus! {

/// How a character of a quoted value is written.
pub open spec fn quoted_char(c: char) -> Seq<char> {
    if c == '\\' {
        seq!['\\', '\\']
    } else if c == '"' {
        seq!['\\', '"']
    } else if c == '\n' {
        seq!['\\', 'n']
    } else if c == '\r' {
        seq!['\\', 'r']
    } else if c == '\t' {
        seq!['\\', 't']
    } else {
        seq![c]
    }
}

pub open spec fn quoted(s: Seq<char>) -> Seq<char> {
    seq!['"'] + replaced(s, |c: char| quoted_char(c)) + seq!['"']
}

/// A value in quotes.
pub fn quote_value(value: &str) -> (r: String)
    ensures
        r@ == quoted(value@),
{
    let chars: Vec<char> = to_chars(value);
    let mut out: String = String::new();
    out.push('"');
    let mut i: usize = 0;
    assert(out@ =~= seq!['"'] + replaced(value@.take(0), |c: char| quoted_char(c)));
    while i < chars.len()
        invariant
            chars@ == value@,
            i <= value@.len(),
            out@ == seq!['"'] + replaced(value@.take(i as int), |c: char| quoted_char(c)),
        decreases value@.len() - i,
    {
        let c: char = chars[i];
        let ghost before = out@;
        if c == '\\' {
            out.push('\\');
            out.push('\\');
        } else if c == '"' {
            out.push('\\');
            out.push('"');
        } else if c == '\n' {
            out.push('\\');
            out.push('n');
        } else if c == '\r' {
            out.push('\\');
            out.push('r');
        } else if c == '\t' {
            out.push('\\');
            out.push('t');
        } else {
            out.push(c);
        }
        proof {
            lemma_replaced_step(value@, |c: char| quoted_char(c), i as int);
            assert(out@ =~= before + quoted_char(c));
            assert(out@ =~= seq!['"'] + replaced(value@.take(i + 1), |c: char| quoted_char(c)));
        }
        i = i + 1;
    }
    assert(value@.take(value@.len() as int) =~= value@);
    out.push('"');
    assert(out@ =~= quoted(value@));
    out
}

/// The fields of a line, each with a space in front.
pub open spec fn quoted_fields(base: Seq<char>, fields: Seq<(Seq<char>, Seq<char>)>) -> Seq<char>
    decreases fields.len(),
{
    if fields.len() == 0 {
        base
    } else {
        quoted_fields(base, fields.drop_last()) + " "@ + fields.last().0 + "="@ + quoted(
            fields.last().1,
        )
    }
}

/// A line of the journal: the time, the event, its fields, and a line end.
pub open spec fn stamped_line(
    ts_ms: u64,
    event: Seq<char>,
    fields: Seq<(Seq<char>, Seq<char>)>,
) -> Seq<char> {
    quoted_fields("ts="@ + decimal(ts_ms as nat) + " event="@ + quoted(event), fields) + "\n"@
}

/// The journal line of an event at a time.
pub fn event_line(ts_ms: u64, event: &str, fields: &Vec<Field>) -> (r: String)
    ensures
        r@ == stamped_line(ts_ms, event@, fields_view(fields@)),
{
    let mut out: String = copy_text("ts=");
    push_decimal(&mut out, ts_ms);
    out.append(" event=");
    out.append(quote_value(event).as_str());
    let ghost head = out@;
    let ghost views = fields_view(fields@);
    let mut i: usize = 0;
    while i < fields.len()
        invariant
            i <= fields@.len(),
            views == fields_view(fields@),
            out@ == quoted_fields(head, views.take(i as int)),
        decreases fields@.len() - i,
    {
        out.append(" ");
        out.append(fields[i].key.as_str());
        out.append("=");
        out.append(quote_value(fields[i].value.as_str()).as_str());
        proof {
            let next = views.take(i + 1);
            assert(next.drop_last() =~= views.take(i as int));
            assert(next.last() == (fields@[i as int].key@, fields@[i as int].value@));
        }
        i = i + 1;
    }
    assert(views.take(views.len() as int) =~= views);
    out.append("\n");
    out
}

/// Why a text is no retention setting.
#[derive(Clone, Copy, Debug, PartialEq, Eq, Structural)]
pub enum RetentionError {
    BadSuffix,
    NotANumber,
    Overflow,
    NotBytes,
}

impl RetentionError {
    pub fn message(&self) -> (r: &'static str)
        ensures
            r@ == match self {
                RetentionError::BadSuffix => "expected integer seconds or s/m/h/d suffix"@,
                RetentionError::NotANumber => "expected positive integer duration"@,
                RetentionError::Overflow => "duration overflow"@,
                RetentionError::NotBytes => "expected non-negative integer bytes"@,
            },
    {
        match self {
            RetentionError::BadSuffix => "expected integer seconds or s/m/h/d suffix",
            RetentionError::NotANumber => "expected positive integer duration",
            RetentionError::Overflow => "duration overflow",
            RetentionError::NotBytes => "expected non-negative integer bytes",
        }
    }
}

/// The digits and the seconds of the unit of a retention text.
pub open spec fn retention_parts(t: Seq<char>) -> Option<(Seq<char>, nat)> {
    let c = t.last();
    if c == 's' {
        Some((t.drop_last(), 1))
    } else if c == 'm' {
        Some((t.drop_last(), 60))
    } else if c == 'h' {
        Some((t.drop_last(), 3600))
    } else if c == 'd' {
        Some((t.drop_last(), 86400))
    } else if '0' <= c && c <= '9' {
        Some((t, 1))
    } else {
        None
    }
}

/// The seconds that a retention text stands for. Nothing, and zero, stand for no limit.
pub open spec fn retention_secs(s: Seq<char>) -> Result<Option<nat>, RetentionError> {
    let t = trimmed(s);
    if t.len() == 0 || t == "0"@ {
        Ok(None)
    } else {
        match retention_parts(t) {
            None => Err(RetentionError::BadSuffix),
            Some((digits, unit)) => match unsigned_value(digits) {
                None => Err(RetentionError::NotANumber),
                Some(n) => if n == 0 {
                    Ok(None)
                } else if n * unit > u64::MAX {
                    Err(RetentionError::Overflow)
                } else {
                    Ok(Some(n * unit))
                },
            },
        }
    }
}

/// Reads for how long journals are kept.
pub fn parse_retention_duration(raw: &str) -> (r: Result<Option<Duration>, RetentionError>)
    ensures
        match (r, retention_secs(raw@)) {
            (Ok(Some(d)), Ok(Some(n))) => d@ == n * 1_000_000_000,
            (Ok(None), Ok(None)) => true,
            (Err(e), Err(f)) => e == f,
            _ => false,
        },
{
    let value: String = trim_text(raw);
    if value.as_str().is_empty() || same_text(value.as_str(), "0") {
        return Ok(None);
    }
    let chars: Vec<char> = to_chars(value.as_str());
    let len: usize = chars.len();
    let c: char = chars[len - 1];
    assert(chars@.subrange(0, len - 1) =~= chars@.drop_last());
    assert(chars@.subrange(0, len as int) =~= chars@);
    let (end, unit): (usize, u64) = if c == 's' {
        (len - 1, 1)
    } else if c == 'm' {
        (len - 1, 60)
    } else if c == 'h' {
        (len - 1, 3600)
    } else if c == 'd' {
        (len - 1, 86400)
    } else if '0' <= c && c <= '9' {
        (len, 1)
    } else {
        return Err(RetentionError::BadSuffix);
    };
    match parse_unsigned(text_of(&chars, 0, end).as_str()) {
        None => Err(RetentionError::NotANumber),
        Some(n) => {
            if n == 0 {
                return Ok(None);
            }
            match n.checked_mul(unit) {
                Some(secs) => Ok(Some(Duration::from_secs(secs))),
                None => Err(RetentionError::Overflow),
            }
        },
    }
}

/// The bytes that a limit text stands for. Nothing, and zero, stand for no limit.
pub open spec fn optional_bytes(s: Seq<char>) -> Result<Option<nat>, RetentionError> {
    let t = trimmed(s);
    if t.len() == 0 || t == "0"@ {
        Ok(None)
    } else {
        match unsigned_value(t) {
            Some(n) => Ok(Some(n)),
            None => Err(RetentionError::NotBytes),
        }
    }
}

/// Reads how many bytes of journals are kept.
pub fn parse_optional_u64(raw: &str) -> (r: Result<Option<u64>, RetentionError>)
    ensures
        match (r, optional_bytes(raw@)) {
            (Ok(Some(n)), Ok(Some(m))) => n == m,
            (Ok(None), Ok(None)) => true,
            (Err(e), Err(f)) => e == f,
            _ => false,
        },
{
    let value: String = trim_text(raw);
    if value.as_str().is_empty() || same_text(value.as_str(), "0") {
        return Ok(None);
    }
    match parse_unsigned(value.as_str()) {
        Some(n) => Ok(Some(n)),
        None => Err(RetentionError::NotBytes),
    }
}

/// How long, and how many bytes of, journals are kept.
pub struct RetentionPolicy {
    pub max_age: Option<Duration>,
    pub max_bytes: Option<u64>,
}

/// A file in the journal directory, with the time of its last change in nanoseconds from the
/// epoch.
pub struct LogEntry {
    pub path: String,
    pub len: u64,
    pub modified: i128,
}

pub struct LogView {
    pub path: Seq<char>,
    pub len: u64,
    pub modified: i128,
}

impl View for LogEntry {
    type V = LogView;

    open spec fn view(&self) -> LogView {
        LogView { path: self.path@, len: self.len, modified: self.modified }
    }
}

pub open spec fn log_views(v: Seq<LogEntry>) -> Seq<LogView> {
    v.map_values(|e: LogEntry| e@)
}

/// Whether one journal is at least as old as another; of two that were changed at the same time,
/// the one whose path comes first.
pub open spec fn no_younger(a: LogView, b: LogView) -> bool {
    a.modified < b.modified || (a.modified == b.modified && text_at_most(a.path, b.path))
}

impl Ordered for LogEntry {
    open spec fn le(&self, other: &Self) -> bool {
        no_younger(self@, other@)
    }

    fn at_most(&self, other: &Self) -> (r: bool) {
        self.modified < other.modified || (self.modified == other.modified && !less_text(
            other.path.as_str(),
            self.path.as_str(),
        ))
    }

    proof fn lemma_total(a: &Self, b: &Self) {
        lemma_less_total(a.path@, b.path@);
    }

    proof fn lemma_transitive(a: &Self, b: &Self, c: &Self) {
        lemma_at_most_transitive(a.path@, b.path@, c.path@);
    }
}

/// The name behind the last slash.
pub open spec fn file_name(path: Seq<char>) -> Seq<char> {
    path.skip(behind_last_slash(path) as int)
}

/// A file whose name ends in `.log`, with something in front, and that is not the current journal.
pub open spec fn prunable(path: Seq<char>, current: Seq<char>) -> bool {
    path != current && file_name(path).len() > 4 && file_name(path).skip(
        file_name(path).len() - 4,
    ) == ".log"@
}

pub open spec fn too_old(entry: LogView, now: i128, max_age: Option<nat>) -> bool {
    match max_age {
        Some(age) => now - entry.modified > age,
        None => false,
    }
}

pub open spec fn age_limit(policy: RetentionPolicy) -> Option<nat> {
    match policy.max_age {
        Some(d) => Some(d@),
        None => None,
    }
}

/// The journals that are removed for their age.
pub open spec fn aged(entries: Seq<LogView>, current: Seq<char>, now: i128, age: Option<nat>) -> Seq<
    Seq<char>,
>
    decreases entries.len(),
{
    if entries.len() == 0 {
        Seq::empty()
    } else {
        let front = aged(entries.drop_last(), current, now, age);
        if prunable(entries.last().path, current) && too_old(entries.last(), now, age) {
            front.push(entries.last().path)
        } else {
            front
        }
    }
}

/// The journals that are young enough.
pub open spec fn young(
    entries: Seq<LogView>,
    current: Seq<char>,
    now: i128,
    age: Option<nat>,
) -> Seq<LogView>
    decreases entries.len(),
{
    if entries.len() == 0 {
        Seq::empty()
    } else {
        let front = young(entries.drop_last(), current, now, age);
        if prunable(entries.last().path, current) && !too_old(entries.last(), now, age) {
            front.push(entries.last())
        } else {
            front
        }
    }
}

pub open spec fn total_len(entries: Seq<LogView>) -> nat
    decreases entries.len(),
{
    if entries.len() == 0 {
        0
    } else {
        total_len(entries.drop_last()) + entries.last().len as nat
    }
}

pub open spec fn capped_u64(n: nat) -> u64 {
    if n <= u64::MAX {
        n as u64
    } else {
        u64::MAX
    }
}

/// The journals that are removed for their size, from the front, until what is left fits.
pub open spec fn oversize(entries: Seq<LogView>, total: u64, max: u64) -> Seq<Seq<char>>
    decreases entries.len(),
{
    if entries.len() == 0 || total <= max {
        Seq::empty()
    } else {
        seq![entries[0].path] + oversize(
            entries.drop_first(),
            (if total >= entries[0].len {
                total - entries[0].len
            } else {
                0
            }) as u64,
            max,
        )
    }
}

/// The journals, the oldest first.
pub open spec fn oldest_first(sorted: Seq<LogView>, entries: Seq<LogView>) -> bool {
    &&& sorted.to_multiset() == entries.to_multiset()
    &&& forall|i: int, j: int|
        0 <= i < j < sorted.len() ==> no_younger(#[trigger] sorted[i], #[trigger] sorted[j])
}

fn is_prunable(path: &str, current: &str) -> (r: bool)
    ensures
        r == prunable(path@, current@),
{
    if same_text(path, current) {
        return false;
    }
    let chars: Vec<char> = to_chars(path);
    let start: usize = name_start(&chars);
    let name: String = text_of(&chars, start, chars.len());
    assert(name@ =~= file_name(path@));
    let ghost ext = ".log"@;
    proof {
        reveal_strlit(".log");
    }
    chars.len() - start > 4 && ends_with(name.as_str(), ".log")
}

/// Where the name behind the last slash starts.
pub fn name_start(chars: &Vec<char>) -> (r: usize)
    ensures
        r == behind_last_slash(chars@),
        r <= chars@.len(),
{
    let mut end: usize = chars.len();
    assert(chars@.take(chars@.len() as int) =~= chars@);
    while end > 0 && chars[end - 1] != '/'
        invariant
            end <= chars@.len(),
            behind_last_slash(chars@) == behind_last_slash(chars@.take(end as int)),
        decreases end,
    {
        assert(chars@.take(end as int).last() == chars@[end - 1]);
        assert(chars@.take(end as int).drop_last() =~= chars@.take(end - 1));
        end = end - 1;
    }
    if end > 0 {
        assert(chars@.take(end as int).last() == '/');
    }
    end
}

/// Which journals are removed: those that are too old, and of the others the oldest until the rest
/// fits.
pub open spec fn prunes(
    entries: Seq<LogView>,
    current: Seq<char>,
    policy: RetentionPolicy,
    now: i128,
    removed: Seq<Seq<char>>,
) -> bool {
    &&& policy.max_age is None && policy.max_bytes is None ==> removed.len() == 0
    &&& policy.max_age is Some || policy.max_bytes is Some ==> {
        let kept = young(entries, current, now, age_limit(policy));
        let old = aged(entries, current, now, age_limit(policy));
        match policy.max_bytes {
            None => removed == old,
            Some(max) => exists|sorted: Seq<LogView>| #[trigger]
                oldest_first(sorted, kept) && removed == old + oversize(
                    sorted,
                    capped_u64(total_len(kept)),
                    max,
                ),
        }
    }
}

/// The journals to remove: first those that are too old, then the oldest of the others until what
/// is left fits.
pub fn prune_supervisor_logs(
    entries: &Vec<LogEntry>,
    current: &str,
    policy: &RetentionPolicy,
    now: i128,
) -> (r: Vec<String>)
    ensures
        prunes(log_views(entries@), current@, *policy, now, texts_view(r@)),
{
    let mut out: Vec<String> = Vec::new();
    if policy.max_age.is_none() && policy.max_bytes.is_none() {
        return out;
    }
    let ghost views = log_views(entries@);
    let ghost age = age_limit(*policy);
    let mut kept: Vec<LogEntry> = Vec::new();
    let mut i: usize = 0;
    assert(texts_view(out@) =~= Seq::<Seq<char>>::empty());
    assert(log_views(kept@) =~= Seq::<LogView>::empty());
    while i < entries.len()
        invariant
            views == log_views(entries@),
            age == age_limit(*policy),
            i <= entries@.len(),
            texts_view(out@) == aged(views.take(i as int), current@, now, age),
            log_views(kept@) == young(views.take(i as int), current@, now, age),
        decreases entries@.len() - i,
    {
        let entry: &LogEntry = &entries[i];
        let ghost had = texts_view(out@);
        let ghost held = log_views(kept@);
        proof {
            assert(views.take(i + 1).drop_last() =~= views.take(i as int));
            assert(views.take(i + 1).last() == entry@);
        }
        if is_prunable(entry.path.as_str(), current) {
            let old: bool = match policy.max_age {
                Some(d) => is_too_old(entry.modified, now, d),
                None => false,
            };
            if old {
                out.push(copy_text(entry.path.as_str()));
                assert(texts_view(out@) =~= had.push(entry.path@));
            } else {
                kept.push(
                    LogEntry {
                        path: copy_text(entry.path.as_str()),
                        len: entry.len,
                        modified: entry.modified,
                    },
                );
                assert(log_views(kept@) =~= held.push(entry@));
            }
        }
        i = i + 1;
    }
    assert(views.take(views.len() as int) =~= views);
    match policy.max_bytes {
        None => {},
        Some(max) => {
            let ghost held = log_views(kept@);
            let removed: Vec<String> = prune_supervisor_logs_by_size(kept, max);
            let ghost order = choose|sorted: Seq<LogView>| #[trigger]
                oldest_first(sorted, held) && texts_view(removed@) == oversize(
                    sorted,
                    capped_u64(total_len(held)),
                    max,
                );
            let ghost had = texts_view(out@);
            let mut k: usize = 0;
            assert(had + texts_view(removed@).take(0) =~= had);
            while k < removed.len()
                invariant
                    k <= removed@.len(),
                    texts_view(out@) == had + texts_view(removed@).take(k as int),
                decreases removed@.len() - k,
            {
                let ghost before = texts_view(out@);
                out.push(copy_text(removed[k].as_str()));
                assert(texts_view(out@) =~= before.push(removed@[k as int]@));
                assert(texts_view(removed@).take(k + 1) =~= texts_view(removed@).take(
                    k as int,
                ).push(removed@[k as int]@));
                k = k + 1;
            }
            assert(texts_view(removed@).take(removed@.len() as int) =~= texts_view(removed@));
            assert(oldest_first(order, young(views, current@, now, age)));
        },
    }
    out
}

fn is_too_old(modified: i128, now: i128, max_age: Duration) -> (r: bool)
    ensures
        r == (now - modified > max_age@),
{
    if now <= modified {
        return false;
    }
    let age: u128 = elapsed(modified, now);
    max_age.shorter_than_nanos(age)
}

/// The nanoseconds from one time to a later one.
fn elapsed(from: i128, to: i128) -> (r: u128)
    requires
        from < to,
    ensures
        r == to - from,
{
    if from >= 0 {
        (to - from) as u128
    } else if to < 0 {
        (to - from) as u128
    } else {
        let below: u128 = (-(from + 1)) as u128 + 1;
        to as u128 + below
    }
}

/// Which journals are removed so that the rest fits: the oldest ones.
pub open spec fn prunes_by_size(
    entries: Seq<LogView>,
    max_bytes: u64,
    removed: Seq<Seq<char>>,
) -> bool {
    exists|sorted: Seq<LogView>| #[trigger]
        oldest_first(sorted, entries) && removed == oversize(
            sorted,
            capped_u64(total_len(entries)),
            max_bytes,
        )
}

/// The journals to remove, the oldest first, until what is left is no larger than `max_bytes`.
pub fn prune_supervisor_logs_by_size(entries: Vec<LogEntry>, max_bytes: u64) -> (r: Vec<String>)
    ensures
        prunes_by_size(log_views(entries@), max_bytes, texts_view(r@)),
{
    let ghost views = log_views(entries@);
    let mut total: u64 = 0;
    let mut i: usize = 0;
    while i < entries.len()
        invariant
            views == log_views(entries@),
            i <= entries@.len(),
            total == capped_u64(total_len(views.take(i as int))),
        decreases entries@.len() - i,
    {
        proof {
            assert(views.take(i + 1).drop_last() =~= views.take(i as int));
            assert(views.take(i + 1).last() == entries@[i as int]@);
        }
        total = total.saturating_add(entries[i].len);
        i = i + 1;
    }
    assert(views.take(views.len() as int) =~= views);
    let ghost all = entries@;
    let sorted: Vec<LogEntry> = sort(entries);
    let ghost order = log_views(sorted@);
    proof {
        lemma_rearranged_map(sorted@, all, |e: LogEntry| e@);
        assert forall|a: int, b: int| 0 <= a < b < order.len() implies no_younger(
            #[trigger] order[a],
            #[trigger] order[b],
        ) by {
            assert(sorted@[a].le(&sorted@[b]));
        }
        assert(oldest_first(order, views));
    }
    let ghost first_total = total;
    let mut out: Vec<String> = Vec::new();
    let mut k: usize = 0;
    proof {
        assert(order.skip(0) =~= order);
        assert(texts_view(out@) + oversize(order, total, max_bytes) =~= oversize(
            order,
            total,
            max_bytes,
        ));
    }
    while k < sorted.len() && total > max_bytes
        invariant
            k <= sorted@.len(),
            order == log_views(sorted@),
            oversize(order, first_total, max_bytes) == texts_view(out@) + oversize(
                order.skip(k as int),
                total,
                max_bytes,
            ),
        decreases sorted@.len() - k,
    {
        let ghost before = texts_view(out@);
        let ghost rest = order.skip(k as int);
        let ghost had = total;
        out.push(copy_text(sorted[k].path.as_str()));
        total = total.saturating_sub(sorted[k].len);
        proof {
            assert(rest[0] == sorted@[k as int]@);
            assert(rest.drop_first() =~= order.skip(k + 1));
            assert(texts_view(out@) =~= before.push(rest[0].path));
            assert(before + oversize(rest, had, max_bytes) =~= texts_view(out@) + oversize(
                order.skip(k + 1),
                total,
                max_bytes,
            ));
        }
        k = k + 1;
    }
    assert(texts_view(out@) + Seq::<Seq<char>>::empty() =~= texts_view(out@));
    out
}

} // verus!
