//! What is kept of a run that can be tried again, and what is done when it starts and ends.
//!
//! The files that hold the records, the marks and the locks are the caller's: every function takes
//! what was read under the lock of the key, and says what is to be written.

use vstd::prelude::*;
use vstd::string::*;
use crate::config::RetryDecl;
use crate::cutting::{join, join_texts, law_split_join, split, split_text};
use crate::delivery_index::only_dots;
use crate::delivery_retry::{backoff_delay, backoff_millis, excerpt, excerpt_text};
use crate::delivery_types::{put, RetryPolicy};
use crate::duration::Duration;
use crate::event::{Event, EventView};
use crate::json::{members_view, Json, JsonView, Member};
use crate::runtime_key::lemma_join_groups;
use crate::source_runner::{
    duration_in_range, duration_secs, parse_duration, DurationError, DurationFault,
};
use crate::store_model::plus_capped;
use crate::text::{copy_text, same_text, text_of, text_view, texts_view, to_chars};

verus! {

pub const RETRY_EXCERPT_LIMIT: usize = 512;

pub const LONGEST_SEGMENT: usize = 255;

/// The excerpt of an error that a record keeps.
pub fn error_excerpt(error: &str) -> (r: String)
    ensures
        r@ == excerpt(error@, RETRY_EXCERPT_LIMIT as nat),
{
    excerpt_text(error, RETRY_EXCERPT_LIMIT)
}

// Keys.

pub open spec fn is_safe_char(c: char) -> bool {
    ('A' <= c && c <= 'Z') || ('a' <= c && c <= 'z') || ('0' <= c && c <= '9') || c == '.' || c
        == '_' || c == '-'
}

pub open spec fn safe_char(c: char) -> char {
    if is_safe_char(c) {
        c
    } else {
        '-'
    }
}

pub open spec fn safe_chars(raw: Seq<char>) -> Seq<char> {
    Seq::new(raw.len(), |i: int| safe_char(raw[i]))
}

/// A name as one segment of a path: other characters than letters, digits, dots, underscores and
/// dashes become dashes; what is empty or dots alone becomes a dash; what is too long is cut off.
pub open spec fn safe_segment(raw: Seq<char>) -> Seq<char> {
    let chars = safe_chars(raw);
    if only_dots(chars) {
        seq!['-']
    } else if chars.len() > LONGEST_SEGMENT {
        chars.take(LONGEST_SEGMENT as int)
    } else {
        chars
    }
}

/// The segments of a key that are not empty, each as a segment of a path.
pub open spec fn safe_segments(pieces: Seq<Seq<char>>) -> Seq<Seq<char>>
    decreases pieces.len(),
{
    if pieces.len() == 0 {
        Seq::empty()
    } else {
        let front = safe_segments(pieces.drop_last());
        if pieces.last().len() == 0 {
            front
        } else {
            front.push(safe_segment(pieces.last()))
        }
    }
}

pub open spec fn safe_key(raw: Seq<char>) -> Seq<char> {
    join(safe_segments(split(raw, '/')), "/"@)
}

pub fn sanitize_segment(raw: &str) -> (r: String)
    ensures
        r@ == safe_segment(raw@),
{
    let chars: Vec<char> = to_chars(raw);
    let mut safe: Vec<char> = Vec::new();
    let mut dots: bool = true;
    let mut i: usize = 0;
    while i < chars.len()
        invariant
            chars@ == raw@,
            i <= chars@.len(),
            safe@ == safe_chars(raw@).take(i as int),
            dots == only_dots(safe@),
        decreases chars@.len() - i,
    {
        let c: char = chars[i];
        let d: char = if ('A' <= c && c <= 'Z') || ('a' <= c && c <= 'z') || ('0' <= c && c <= '9')
            || c == '.' || c == '_' || c == '-' {
            c
        } else {
            '-'
        };
        let ghost had = safe@;
        safe.push(d);
        proof {
            assert(safe@ =~= safe_chars(raw@).take(i + 1));
            assert(safe@[i as int] == d);
            if only_dots(safe@) {
                assert forall|j: int| 0 <= j < had.len() implies #[trigger] had[j] == '.' by {
                    assert(safe@[j] == had[j]);
                }
            }
            if only_dots(had) && d == '.' {
                assert forall|j: int| 0 <= j < safe@.len() implies #[trigger] safe@[j] == '.' by {
                    if j < had.len() {
                        assert(safe@[j] == had[j]);
                    }
                }
            }
        }
        dots = dots && d == '.';
        i = i + 1;
    }
    assert(safe@ =~= safe_chars(raw@));
    if dots {
        let mut out: String = String::new();
        out.push('-');
        assert(out@ =~= seq!['-']);
        return out;
    }
    if safe.len() > LONGEST_SEGMENT {
        let out: String = text_of(&safe, 0, LONGEST_SEGMENT);
        assert(out@ =~= safe@.take(LONGEST_SEGMENT as int));
        out
    } else {
        let out: String = text_of(&safe, 0, safe.len());
        assert(out@ =~= safe@);
        out
    }
}

pub fn sanitize_runtime_key(raw: &str) -> (r: String)
    ensures
        r@ == safe_key(raw@),
{
    let pieces: Vec<String> = split_text(raw, '/');
    let ghost views = texts_view(pieces@);
    let mut segments: Vec<String> = Vec::new();
    let mut i: usize = 0;
    assert(texts_view(segments@) =~= Seq::<Seq<char>>::empty());
    while i < pieces.len()
        invariant
            views == texts_view(pieces@),
            i <= pieces@.len(),
            texts_view(segments@) == safe_segments(views.take(i as int)),
        decreases pieces@.len() - i,
    {
        let ghost had = texts_view(segments@);
        proof {
            assert(views.take(i + 1).drop_last() =~= views.take(i as int));
            assert(views.take(i + 1).last() == pieces@[i as int]@);
        }
        if !pieces[i].as_str().is_empty() {
            let segment: String = sanitize_segment(pieces[i].as_str());
            let ghost v = segment@;
            segments.push(segment);
            assert(texts_view(segments@) =~= had.push(v));
        }
        i = i + 1;
    }
    assert(views.take(views.len() as int) =~= views);
    join_texts(&segments, "/")
}

/// The key under which a run of a department is kept, and whether anything of what was given is
/// lost in it.
pub struct ReliableKey {
    pub key: String,
    pub lossy: bool,
}

/// A key that names no path, because one of its segments is empty.
pub struct InvalidKey {
    pub refused: ReliableKey,
}

/// Whether a segment of a key is empty.
pub open spec fn empty_segment(key: Seq<char>) -> bool {
    split(key, '/').contains(Seq::<char>::empty())
}

pub fn has_empty_segment(key: &str) -> (r: bool)
    ensures
        r == empty_segment(key@),
{
    let segments: Vec<String> = split_text(key, '/');
    let ghost views = texts_view(segments@);
    let mut i: usize = 0;
    while i < segments.len()
        invariant
            views == texts_view(segments@),
            views == split(key@, '/'),
            i <= segments@.len(),
            forall|j: int| 0 <= j < i ==> (#[trigger] views[j]).len() > 0,
        decreases segments@.len() - i,
    {
        assert(views[i as int] == segments@[i as int]@);
        if segments[i].as_str().is_empty() {
            assert(views[i as int] =~= Seq::<char>::empty());
            return true;
        }
        i = i + 1;
    }
    false
}

/// The text of the key of a run.
pub open spec fn reliable_text(dept: Seq<char>, dedup_key: Seq<char>) -> Seq<char> {
    safe_segment(dept) + "/"@ + safe_key(dedup_key)
}

/// The key of a run. One with an empty segment is refused.
pub fn reliable_key(dept: &str, dedup_key: &str) -> (r: Result<ReliableKey, InvalidKey>)
    ensures
        match r {
            Ok(k) => !empty_segment(k.key@) && k.key@ == reliable_text(dept@, dedup_key@)
                && k.lossy == (safe_key(dedup_key@) != dedup_key@),
            Err(e) => empty_segment(e.refused.key@) && e.refused.key@ == reliable_text(
                dept@,
                dedup_key@,
            ) && e.refused.lossy == (safe_key(dedup_key@) != dedup_key@),
        },
{
    let mut key: String = sanitize_segment(dept);
    let safe: String = sanitize_runtime_key(dedup_key);
    let lossy: bool = !same_text(safe.as_str(), dedup_key);
    key.append("/");
    key.append(safe.as_str());
    let invalid: bool = has_empty_segment(key.as_str());
    let made: ReliableKey = ReliableKey { key, lossy };
    if invalid {
        Err(InvalidKey { refused: made })
    } else {
        Ok(made)
    }
}

proof fn lemma_safe_segments(pieces: Seq<Seq<char>>)
    ensures
        safe_segments(pieces).len() == 0 <==> forall|i: int|
            0 <= i < pieces.len() ==> (#[trigger] pieces[i]).len() == 0,
        forall|i: int|
            0 <= i < safe_segments(pieces).len() ==> (#[trigger] safe_segments(pieces)[i]).len() > 0,
        forall|i: int, j: int|
            0 <= i < safe_segments(pieces).len() && 0 <= j < safe_segments(pieces)[i].len()
                ==> #[trigger] safe_segments(pieces)[i][j] != '/',
    decreases pieces.len(),
{
    if pieces.len() > 0 {
        let front = pieces.drop_last();
        lemma_safe_segments(front);
        law_safe_segment(pieces.last());
        let segments = safe_segments(pieces);
        assert forall|i: int, j: int| 0 <= i < segments.len() && 0 <= j < segments[i].len() implies
            #[trigger] segments[i][j] != '/' by {
            if i < safe_segments(front).len() {
                assert(segments[i] == safe_segments(front)[i]);
                assert(safe_segments(front)[i][j] != '/');
            } else {
                assert(is_safe_char(safe_segment(pieces.last())[j]));
            }
        }
        if safe_segments(pieces).len() == 0 {
            assert forall|i: int| 0 <= i < pieces.len() implies (#[trigger] pieces[i]).len() == 0 by {
                if i < front.len() {
                    assert(front[i] == pieces[i]);
                }
            }
        }
        if forall|i: int| 0 <= i < pieces.len() ==> (#[trigger] pieces[i]).len() == 0 {
            assert forall|i: int| 0 <= i < front.len() implies (#[trigger] front[i]).len() == 0 by {
                assert(front[i] == pieces[i]);
            }
            assert(pieces[pieces.len() - 1].len() == 0);
        }
    }
}

/// A key is refused where nothing but slashes is given for a run, and only there.
pub proof fn law_a_key_is_refused_without_a_segment(dept: Seq<char>, dedup_key: Seq<char>)
    ensures
        empty_segment(reliable_text(dept, dedup_key)) <==> forall|i: int|
            0 <= i < split(dedup_key, '/').len() ==> (#[trigger] split(dedup_key, '/')[i]).len()
                == 0,
{
    reveal_strlit("/");
    assert("/"@ =~= seq!['/']);
    let pieces = split(dedup_key, '/');
    let segments = safe_segments(pieces);
    let first = safe_segment(dept);
    lemma_safe_segments(pieces);
    law_safe_segment(dept);
    assert forall|j: int| 0 <= j < first.len() implies #[trigger] first[j] != '/' by {
        assert(is_safe_char(first[j]));
    }
    let text = reliable_text(dept, dedup_key);
    if segments.len() == 0 {
        let parts = seq![first, Seq::<char>::empty()];
        law_split_join(parts, '/');
        assert(parts.drop_last() =~= seq![first]);
        assert(join(parts.drop_last(), seq!['/']) == first);
        assert(join(parts, seq!['/']) =~= text);
        assert(split(text, '/')[1] == Seq::<char>::empty());
    } else {
        let parts = seq![first] + segments;
        assert forall|i: int, j: int| 0 <= i < parts.len() && 0 <= j < parts[i].len() implies
            #[trigger] parts[i][j] != '/' by {
            if i > 0 {
                assert(parts[i] == segments[i - 1]);
                assert(segments[i - 1][j] != '/');
            }
        }
        law_split_join(parts, '/');
        lemma_join_groups(seq![first], segments, seq!['/']);
        assert(join(seq![first], seq!['/']) == first);
        assert(join(parts, seq!['/']) =~= text);
        assert forall|i: int| 0 <= i < parts.len() implies (#[trigger] parts[i]).len() > 0 by {
            if i > 0 {
                assert(parts[i] == segments[i - 1]);
            }
        }
    }
}

impl ReliableKey {
    pub fn as_str(&self) -> (r: &str)
        ensures
            r@ == self.key@,
    {
        self.key.as_str()
    }
}

/// A segment is never empty, never dots alone, never longer than a file name may be, and holds
/// nothing but safe characters.
pub proof fn law_safe_segment(raw: Seq<char>)
    ensures
        1 <= safe_segment(raw).len() <= LONGEST_SEGMENT,
        forall|i: int| 0 <= i < safe_segment(raw).len() ==> is_safe_char(
            #[trigger] safe_segment(raw)[i],
        ),
        raw.len() <= LONGEST_SEGMENT ==> !only_dots(safe_segment(raw)),
{
    let chars = safe_chars(raw);
    if only_dots(chars) {
        assert(safe_segment(raw)[0] == '-');
    } else {
        assert(chars.len() > 0);
    }
}

// Records.

/// A run that is under way, or that is to be tried again.
pub struct RetryRecord {
    pub queue: String,
    pub payload: Json,
    pub dept: String,
    pub dedup_key: String,
    pub attempt: u64,
    pub generation: u64,
    pub due_at: u64,
    pub last_error_excerpt: String,
}

pub struct RetryRecordView {
    pub queue: Seq<char>,
    pub payload: JsonView,
    pub dept: Seq<char>,
    pub dedup_key: Seq<char>,
    pub attempt: u64,
    pub generation: u64,
    pub due_at: u64,
    pub last_error_excerpt: Seq<char>,
}

impl View for RetryRecord {
    type V = RetryRecordView;

    open spec fn view(&self) -> RetryRecordView {
        RetryRecordView {
            queue: self.queue@,
            payload: self.payload@,
            dept: self.dept@,
            dedup_key: self.dedup_key@,
            attempt: self.attempt,
            generation: self.generation,
            due_at: self.due_at,
            last_error_excerpt: self.last_error_excerpt@,
        }
    }
}

pub open spec fn record_view(r: Option<RetryRecord>) -> Option<RetryRecordView> {
    match r {
        Some(r) => Some(r@),
        None => None,
    }
}

/// A run that was tried too often.
pub struct DeadRun {
    pub original_queue: String,
    pub payload: Json,
    pub dept: String,
    pub dedup_key: String,
    pub attempts: u64,
    pub last_error_excerpt: String,
    pub failed_at: String,
}

pub struct DeadRunView {
    pub original_queue: Seq<char>,
    pub payload: JsonView,
    pub dept: Seq<char>,
    pub dedup_key: Seq<char>,
    pub attempts: u64,
    pub last_error_excerpt: Seq<char>,
    pub failed_at: Seq<char>,
}

impl View for DeadRun {
    type V = DeadRunView;

    open spec fn view(&self) -> DeadRunView {
        DeadRunView {
            original_queue: self.original_queue@,
            payload: self.payload@,
            dept: self.dept@,
            dedup_key: self.dedup_key@,
            attempts: self.attempts,
            last_error_excerpt: self.last_error_excerpt@,
            failed_at: self.failed_at@,
        }
    }
}

/// The whole milliseconds of a span, as far as sixty-four bits hold them.
pub open spec fn low_millis(span: nat) -> nat {
    (span / 1_000_000) % 0x1_0000_0000_0000_0000
}

fn millis_of(span: Duration) -> (r: u64)
    ensures
        r == low_millis(span@),
{
    (span.as_millis() % 0x1_0000_0000_0000_0000) as u64
}

/// The policy of a declaration; nothing where a duration cannot be read.
pub fn policy_from_decl(decl: &RetryDecl) -> (r: Result<RetryPolicy, DurationError>)
    requires
        duration_in_range(decl@.base),
        duration_in_range(decl@.cap),
    ensures
        match r {
            Ok(policy) => policy.max_attempts == decl@.max_attempts && duration_secs(decl@.base)
                == Ok::<nat, DurationFault>((policy.base@ / 1_000_000_000) as nat) && policy.base@
                % 1_000_000_000 == 0 && duration_secs(decl@.cap) == Ok::<nat, DurationFault>(
                (policy.cap@ / 1_000_000_000) as nat,
            ) && policy.cap@ % 1_000_000_000 == 0,
            Err(e) => duration_secs(decl@.base) == Err::<nat, DurationFault>(e@) || (duration_secs(
                decl@.base,
            ) is Ok && duration_secs(decl@.cap) == Err::<nat, DurationFault>(e@)),
        },
{
    let base: Duration = match parse_duration(decl.base.as_str()) {
        Ok(base) => base,
        Err(e) => return Err(e),
    };
    let cap: Duration = match parse_duration(decl.cap.as_str()) {
        Ok(cap) => cap,
        Err(e) => return Err(e),
    };
    Ok(RetryPolicy { max_attempts: decl.max_attempts, base, cap })
}

// Starting.

/// What is done with an event that can be tried again.
pub enum StartDecision {
    /// It runs, and this record is written first.
    Run { record: RetryRecord },
    /// It was done before; what is left of it is removed.
    SkipMarked,
    /// It is under way, or it waits for its next attempt.
    SkipPending,
}

/// The record of a run that starts: its attempts go on, and its generation is a new one.
pub open spec fn started(
    event: EventView,
    dept: Seq<char>,
    key: Seq<char>,
    existing: Option<RetryRecordView>,
    now_ms: u64,
    lease: nat,
) -> RetryRecordView {
    RetryRecordView {
        queue: event.queue,
        payload: event.payload,
        dept,
        dedup_key: key,
        attempt: match existing {
            Some(r) => r.attempt,
            None => 0,
        },
        generation: plus_capped(
            match existing {
                Some(r) => r.generation,
                None => 0,
            },
            1,
        ),
        due_at: plus_capped(now_ms, low_millis(lease)),
        last_error_excerpt: match existing {
            Some(r) => r.last_error_excerpt,
            None => Seq::empty(),
        },
    }
}

/// The key that an event is kept by; an event without one runs untracked.
pub fn event_dedup_key(event: &Event) -> (r: Option<String>)
    ensures
        text_view(r) == event@.payload.text_at("dedup_key"@),
{
    event.payload.text_at("dedup_key")
}

/// Whether this is what is decided of an event that can be tried again.
pub open spec fn decides_start(
    event: EventView,
    dept: Seq<char>,
    key: Seq<char>,
    marked: bool,
    existing: Option<RetryRecordView>,
    now_ms: u64,
    lease: nat,
    r: StartDecision,
) -> bool {
    if marked {
        r is SkipMarked
    } else if existing matches Some(e) && e.due_at > now_ms {
        r is SkipPending
    } else {
        r matches StartDecision::Run { record } && record@ == started(
            event,
            dept,
            key,
            existing,
            now_ms,
            lease,
        )
    }
}

/// Decides whether an event runs. `marked` says whether it was done before, and `existing` is the
/// record that was found.
pub fn start_decision(
    event: &Event,
    dept: &str,
    key: &str,
    marked: bool,
    existing: &Option<RetryRecord>,
    now_ms: u64,
    lease: Duration,
) -> (r: StartDecision)
    ensures
        decides_start(event@, dept@, key@, marked, record_view(*existing), now_ms, lease@, r),
{
    if marked {
        return StartDecision::SkipMarked;
    }
    let (attempt, generation, last): (u64, u64, String) = match existing {
        Some(e) => {
            if e.due_at > now_ms {
                return StartDecision::SkipPending;
            }
            (e.attempt, e.generation, copy_text(e.last_error_excerpt.as_str()))
        },
        None => (0, 0, String::new()),
    };
    proof {
        if *existing is None {
            assert(last@ =~= Seq::<char>::empty());
        }
    }
    StartDecision::Run {
        record: RetryRecord {
            queue: copy_text(event.queue.as_str()),
            payload: event.payload.copy(),
            dept: copy_text(dept),
            dedup_key: copy_text(key),
            attempt,
            generation: generation.saturating_add(1),
            due_at: now_ms.saturating_add(millis_of(lease)),
            last_error_excerpt: last,
        },
    }
}

// Ending.

/// How a run ended.
pub enum CompletionStatus {
    Success,
    Failure { error: String },
}

/// What is done when a run ends.
pub enum Completion {
    /// Nothing: the run is not the one that is kept.
    Nothing,
    /// The run is marked as done, and its record removed.
    Mark,
    /// The run is tried again: this record is written.
    Retry { record: RetryRecord },
    /// The run was tried too often: this is written, the record removed, and a letter sent.
    Bury { dead: DeadRun, letter: Option<Event> },
}

/// The record of a run that is tried again after a delay.
pub open spec fn tried_again(
    event: EventView,
    dept: Seq<char>,
    key: Seq<char>,
    current: RetryRecordView,
    error: Seq<char>,
    policy: RetryPolicy,
    now_ms: u64,
) -> RetryRecordView {
    let attempt = (current.attempt + 1) as u64;
    RetryRecordView {
        queue: event.queue,
        payload: event.payload,
        dept,
        dedup_key: key,
        attempt,
        generation: current.generation,
        due_at: plus_capped(
            now_ms,
            backoff_millis(policy.base@ / 1_000_000, policy.cap@ / 1_000_000, attempt as nat),
        ),
        last_error_excerpt: excerpt(error, RETRY_EXCERPT_LIMIT as nat),
    }
}

/// What is left of a run that was tried too often.
pub open spec fn buried(
    event: EventView,
    dept: Seq<char>,
    key: Seq<char>,
    current: RetryRecordView,
    error: Seq<char>,
    failed_at: Seq<char>,
) -> DeadRunView {
    DeadRunView {
        original_queue: event.queue,
        payload: event.payload,
        dept,
        dedup_key: key,
        attempts: (current.attempt + 1) as u64,
        last_error_excerpt: excerpt(error, RETRY_EXCERPT_LIMIT as nat),
        failed_at,
    }
}

/// The letter that tells of a run that was tried too often. There is none for a letter.
pub open spec fn letter_of(d: DeadRunView, now_ms: u64) -> Option<EventView> {
    if d.original_queue == "dead_letter"@ {
        None
    } else {
        Some(
            EventView {
                queue: "dead_letter"@,
                payload: JsonView::Object(
                    Map::<Seq<char>, JsonView>::empty().insert(
                        "dedup_key"@,
                        JsonView::Text(d.dedup_key),
                    ).insert("dept"@, JsonView::Text(d.dept)).insert(
                        "original_queue"@,
                        JsonView::Text(d.original_queue),
                    ).insert("attempts"@, JsonView::Unsigned(d.attempts as nat)).insert(
                        "last_error_excerpt"@,
                        JsonView::Text(d.last_error_excerpt),
                    ).insert("failed_at"@, JsonView::Text(d.failed_at)),
                ),
                ts: now_ms,
            },
        )
    }
}

pub open spec fn event_view(e: Option<Event>) -> Option<EventView> {
    match e {
        Some(e) => Some(e@),
        None => None,
    }
}

fn dead_letter(d: &DeadRun, now_ms: u64) -> (r: Option<Event>)
    ensures
        event_view(r) == letter_of(d@, now_ms),
{
    if same_text(d.original_queue.as_str(), "dead_letter") {
        return None;
    }
    let mut members: Vec<Member> = Vec::new();
    assert(members_view(members@) =~= Map::empty());
    put(&mut members, "dedup_key", Json::text(d.dedup_key.as_str()));
    put(&mut members, "dept", Json::text(d.dept.as_str()));
    put(&mut members, "original_queue", Json::text(d.original_queue.as_str()));
    put(&mut members, "attempts", Json::Unsigned(d.attempts));
    put(&mut members, "last_error_excerpt", Json::text(d.last_error_excerpt.as_str()));
    put(&mut members, "failed_at", Json::text(d.failed_at.as_str()));
    Some(Event { queue: copy_text("dead_letter"), payload: Json::Object(members), ts: now_ms })
}

/// Whether a generation holds the record of a run.
pub open spec fn holds(current: Option<RetryRecordView>, generation: u64) -> bool {
    current matches Some(r) && r.generation == generation
}

/// Whether this is what is done when a run ends.
pub open spec fn decides_end(
    policy: RetryPolicy,
    dept: Seq<char>,
    event: EventView,
    key: Seq<char>,
    generation: u64,
    status: CompletionStatus,
    current: Option<RetryRecordView>,
    now_ms: u64,
    failed_at: Seq<char>,
    r: Completion,
) -> bool {
    if !holds(current, generation) {
        r is Nothing
    } else {
        let c = current->0;
        match status {
            CompletionStatus::Success => r is Mark,
            CompletionStatus::Failure { error } => if c.attempt + 1 >= policy.max_attempts {
                r matches Completion::Bury { dead, letter } && dead@ == buried(
                    event,
                    dept,
                    key,
                    c,
                    error@,
                    failed_at,
                ) && event_view(letter) == letter_of(dead@, now_ms)
            } else {
                r matches Completion::Retry { record } && record@ == tried_again(
                    event,
                    dept,
                    key,
                    c,
                    error@,
                    policy,
                    now_ms,
                )
            },
        }
    }
}

/// Decides what is done when a run of a generation ends. `current` is the record that was found.
/// A run whose generation does not hold the record changes nothing.
pub fn complete(
    policy: &RetryPolicy,
    dept: &str,
    event: &Event,
    key: &str,
    generation: u64,
    status: &CompletionStatus,
    current: &Option<RetryRecord>,
    now_ms: u64,
    failed_at: &str,
) -> (r: Completion)
    requires
        holds(record_view(*current), generation) && *status is Failure ==> (*current)->0.attempt
            < u64::MAX,
    ensures
        decides_end(*policy, dept@, event@, key@, generation, *status, record_view(*current), now_ms, failed_at@, r),
{
    let c: &RetryRecord = match current {
        Some(c) => c,
        None => return Completion::Nothing,
    };
    if c.generation != generation {
        return Completion::Nothing;
    }
    match status {
        CompletionStatus::Success => Completion::Mark,
        CompletionStatus::Failure { error } => {
            let attempt: u64 = c.attempt + 1;
            let last: String = error_excerpt(error.as_str());
            if attempt >= policy.max_attempts {
                let dead: DeadRun = DeadRun {
                    original_queue: copy_text(event.queue.as_str()),
                    payload: event.payload.copy(),
                    dept: copy_text(dept),
                    dedup_key: copy_text(key),
                    attempts: attempt,
                    last_error_excerpt: last,
                    failed_at: copy_text(failed_at),
                };
                let letter: Option<Event> = dead_letter(&dead, now_ms);
                Completion::Bury { dead, letter }
            } else {
                let delay: Duration = backoff_delay(policy.base, policy.cap, attempt);
                proof {
                    let ms = backoff_millis(
                        policy.base@ / 1_000_000,
                        policy.cap@ / 1_000_000,
                        attempt as nat,
                    );
                    assert(delay@ == ms * 1_000_000);
                    assert(delay@ / 1_000_000 == ms);
                }
                Completion::Retry {
                    record: RetryRecord {
                        queue: copy_text(event.queue.as_str()),
                        payload: event.payload.copy(),
                        dept: copy_text(dept),
                        dedup_key: copy_text(key),
                        attempt,
                        generation,
                        due_at: now_ms.saturating_add(delay.millis()),
                        last_error_excerpt: last,
                    },
                }
            }
        },
    }
}

// Renewing.

/// What is done to keep a run from being tried again while it is under way.
pub enum Renewal {
    /// It was done before; what is left of it is removed.
    Remove,
    /// The run is not the one that is kept.
    Nothing,
    /// This record is written.
    Write { record: RetryRecord },
}

/// Whether this is what is done to keep a run.
pub open spec fn decides_renewal(
    marked: bool,
    current: Option<RetryRecordView>,
    generation: u64,
    now_ms: u64,
    lease: nat,
    r: Renewal,
) -> bool {
    if marked {
        r is Remove
    } else if !holds(current, generation) {
        r is Nothing
    } else {
        r matches Renewal::Write { record } && record@ == (RetryRecordView {
            due_at: plus_capped(now_ms, low_millis(lease)),
            ..current->0
        })
    }
}

/// Decides whether a generation keeps its run. `marked` says whether it was done before, and
/// `current` is the record that was found.
pub fn renew_lease(
    marked: bool,
    current: &Option<RetryRecord>,
    generation: u64,
    now_ms: u64,
    lease: Duration,
) -> (r: Renewal)
    ensures
        decides_renewal(marked, record_view(*current), generation, now_ms, lease@, r),
{
    if marked {
        return Renewal::Remove;
    }
    match current {
        None => Renewal::Nothing,
        Some(c) => {
            if c.generation != generation {
                return Renewal::Nothing;
            }
            Renewal::Write {
                record: RetryRecord {
                    queue: copy_text(c.queue.as_str()),
                    payload: c.payload.copy(),
                    dept: copy_text(c.dept.as_str()),
                    dedup_key: copy_text(c.dedup_key.as_str()),
                    attempt: c.attempt,
                    generation: c.generation,
                    due_at: now_ms.saturating_add(millis_of(lease)),
                    last_error_excerpt: copy_text(c.last_error_excerpt.as_str()),
                },
            }
        },
    }
}

/// The text of the mark of a run that is done.
pub fn marker_text(key: &str, marked_at: &str) -> (r: String)
    ensures
        r@ == "key="@ + key@ + "\nmarked_at="@ + marked_at@ + "\n"@,
{
    let mut out: String = copy_text("key=");
    out.append(key);
    out.append("\nmarked_at=");
    out.append(marked_at);
    out.append("\n");
    out
}

/// A later start of the same run takes it away from the one before: the earlier generation changes
/// nothing any more.
pub proof fn law_later_start_fences(
    event: EventView,
    dept: Seq<char>,
    key: Seq<char>,
    existing: RetryRecordView,
    now_ms: u64,
    lease: nat,
)
    requires
        existing.generation < u64::MAX,
    ensures
        !holds(
            Some(started(event, dept, key, Some(existing), now_ms, lease)),
            existing.generation,
        ),
{
}

// Sweeping.

/// Whether a record is worth a look before its lock is taken.
pub fn is_due(record: &RetryRecord, now_ms: u64) -> (r: bool)
    ensures
        r == (now_ms >= record@.due_at),
{
    now_ms >= record.due_at
}

/// What a sweep does with a record under its lock.
pub enum SweepAction {
    /// The run was done; its record is removed.
    Remove,
    /// The record is left as it is.
    Leave,
    /// The event is sent to its queue again; the record is left as it is.
    Send { event: Event },
}

/// Whether this is what a sweep does with a record.
pub open spec fn decides_sweep(
    marked: bool,
    current: Option<RetryRecordView>,
    now_ms: u64,
    r: SweepAction,
) -> bool {
    if marked {
        r is Remove
    } else if current matches Some(c) && now_ms >= c.due_at {
        r matches SweepAction::Send { event } && event@ == (EventView {
            queue: current->0.queue,
            payload: current->0.payload,
            ts: now_ms,
        })
    } else {
        r is Leave
    }
}

/// Decides what a sweep does. `marked` says whether the run was done before, and `current` is the
/// record that was read under the lock, where it could be read.
pub fn sweep_decision(marked: bool, current: &Option<RetryRecord>, now_ms: u64) -> (r: SweepAction)
    ensures
        decides_sweep(marked, record_view(*current), now_ms, r),
{
    if marked {
        return SweepAction::Remove;
    }
    match current {
        Some(c) => {
            if now_ms < c.due_at {
                return SweepAction::Leave;
            }
            SweepAction::Send {
                event: Event {
                    queue: copy_text(c.queue.as_str()),
                    payload: c.payload.copy(),
                    ts: now_ms,
                },
            }
        },
        None => SweepAction::Leave,
    }
}

} // verus!
