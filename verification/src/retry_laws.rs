//! Laws of runs that can be tried again: when they start, what is kept of them, and what is sent.

use vstd::prelude::*;
use vstd::string::*;
use crate::cutting::{join, law_split_join};
use crate::delivery_retry::backoff_millis;
use crate::delivery_types::RetryPolicy;
use crate::event::EventView;
use crate::json::JsonView;
use crate::store_keeping::capped_time;
use crate::retry_state::{
    buried, decides_end, decides_renewal, decides_start, decides_sweep, event_view, is_safe_char,
    letter_of, safe_char, safe_chars, safe_key, safe_segment, safe_segments, Completion,
    CompletionStatus, DeadRunView, Renewal, RetryRecordView, StartDecision, SweepAction,
    LONGEST_SEGMENT,
};

verus! {

// Delays.

/// The delay doubles from one attempt to the next until it reaches the cap; the first is the base.
pub proof fn law_the_delay_doubles(base: nat, cap: nat, attempt: nat)
    requires
        cap <= u64::MAX,
        1 <= attempt < 64,
    ensures
        backoff_millis(base, cap, 0) == backoff_millis(base, cap, 1),
        backoff_millis(base, cap, 1) == if base <= cap {
            base
        } else {
            cap
        },
        backoff_millis(base, cap, attempt + 1) == if 2 * backoff_millis(base, cap, attempt) <= cap {
            2 * backoff_millis(base, cap, attempt)
        } else {
            cap
        },
{
    use_doubling(base, attempt);
    vstd::arithmetic::power2::lemma2_to64();
    assert(base * vstd::arithmetic::power2::pow2(0) == base) by (nonlinear_arith)
        requires
            vstd::arithmetic::power2::pow2(0) == 1,
    ;
}

proof fn use_doubling(base: nat, attempt: nat)
    requires
        1 <= attempt < 64,
    ensures
        base * vstd::arithmetic::power2::pow2(attempt) == 2 * (base
            * vstd::arithmetic::power2::pow2((attempt - 1) as nat)),
{
    vstd::arithmetic::power2::lemma_pow2_unfold(attempt);
    let p = vstd::arithmetic::power2::pow2((attempt - 1) as nat);
    assert(base * (2 * p) == 2 * (base * p)) by (nonlinear_arith);
}

// Starting.

/// An event runs just where it was not done before and no earlier run of it is under way or waits.
/// What is kept of it is the event, its department and its key, the attempts that it had, and the next
/// generation; it is due again when its lease runs out.
pub proof fn law_when_a_run_starts(
    event: EventView,
    dept: Seq<char>,
    key: Seq<char>,
    marked: bool,
    existing: Option<RetryRecordView>,
    now_ms: u64,
    lease: nat,
    r: StartDecision,
)
    requires
        decides_start(event, dept, key, marked, existing, now_ms, lease, r),
        lease / 1_000_000 <= u64::MAX,
    ensures
        r is Run <==> !marked && (existing matches Some(e) ==> e.due_at <= now_ms),
        r is SkipMarked <==> marked,
        r matches StartDecision::Run { record } ==> {
            &&& record@.queue == event.queue
            &&& record@.payload == event.payload
            &&& record@.dept == dept
            &&& record@.dedup_key == key
            &&& record@.due_at == capped_time(now_ms + lease / 1_000_000)
            &&& match existing {
                Some(e) => record@.attempt == e.attempt && record@.generation == capped_time(
                    e.generation + 1,
                ) && record@.last_error_excerpt == e.last_error_excerpt,
                None => record@.attempt == 0 && record@.generation == 1
                    && record@.last_error_excerpt.len() == 0,
            }
        },
{
}

// Ending.

/// Only the run that is kept changes anything when it ends. One that ended well is marked. One that
/// failed is tried again as the event that it is, with one attempt more and after the delay for its
/// attempts, until it was tried as often as the policy allows; then it is buried as the event that it
/// is.
pub proof fn law_what_becomes_of_a_run_that_ends(
    policy: RetryPolicy,
    dept: Seq<char>,
    event: EventView,
    key: Seq<char>,
    generation: u64,
    status: CompletionStatus,
    current: Option<RetryRecordView>,
    now_ms: u64,
    failed_at: Seq<char>,
    r: Completion,
)
    requires
        decides_end(
            policy,
            dept,
            event,
            key,
            generation,
            status,
            current,
            now_ms,
            failed_at,
            r,
        ),
        current matches Some(c) ==> c.attempt < u64::MAX,
    ensures
        r is Nothing <==> !(current matches Some(c) && c.generation == generation),
        r is Mark <==> (current matches Some(c) && c.generation == generation) && status is Success,
        r is Retry <==> (current matches Some(c) && c.generation == generation && c.attempt + 1
            < policy.max_attempts) && status is Failure,
        r is Bury <==> (current matches Some(c) && c.generation == generation && c.attempt + 1
            >= policy.max_attempts) && status is Failure,
        r matches Completion::Retry { record } ==> {
            &&& record@.queue == event.queue
            &&& record@.payload == event.payload
            &&& record@.dept == dept
            &&& record@.dedup_key == key
            &&& record@.generation == generation
            &&& record@.attempt == (current->0).attempt + 1
            &&& status matches CompletionStatus::Failure { error } ==> record@.last_error_excerpt
                == crate::delivery_retry::excerpt(
                error@,
                crate::retry_state::RETRY_EXCERPT_LIMIT as nat,
            )
            &&& record@.due_at == capped_time(
                now_ms + backoff_millis(
                    policy.base@ / 1_000_000,
                    policy.cap@ / 1_000_000,
                    ((current->0).attempt + 1) as nat,
                ),
            )
        },
        r matches Completion::Bury { dead, letter } ==> {
            &&& dead@.original_queue == event.queue
            &&& dead@.payload == event.payload
            &&& dead@.dept == dept
            &&& dead@.dedup_key == key
            &&& dead@.attempts == (current->0).attempt + 1
            &&& status matches CompletionStatus::Failure { error } ==> dead@.last_error_excerpt
                == crate::delivery_retry::excerpt(
                error@,
                crate::retry_state::RETRY_EXCERPT_LIMIT as nat,
            )
            &&& dead@.failed_at == failed_at
            &&& event_view(letter) == letter_of(dead@, now_ms)
        },
{
}

/// The letter about a buried run goes to the queue for letters and tells which run it was; there is
/// none about a letter.
pub proof fn law_the_letter_about_a_run(d: DeadRunView, now_ms: u64)
    ensures
        letter_of(d, now_ms) is None <==> d.original_queue == "dead_letter"@,
        letter_of(d, now_ms) matches Some(e) ==> {
            &&& e.queue == "dead_letter"@
            &&& e.ts == now_ms
            &&& e.payload.text_at("dedup_key"@) == Some(d.dedup_key)
            &&& e.payload.text_at("dept"@) == Some(d.dept)
            &&& e.payload.text_at("original_queue"@) == Some(d.original_queue)
            &&& e.payload.get("attempts"@) == Some(JsonView::Unsigned(d.attempts as nat))
            &&& e.payload.text_at("last_error_excerpt"@) == Some(d.last_error_excerpt)
            &&& e.payload.text_at("failed_at"@) == Some(d.failed_at)
        },
{
    reveal_strlit("dedup_key");
    reveal_strlit("dept");
    reveal_strlit("original_queue");
    reveal_strlit("attempts");
    reveal_strlit("last_error_excerpt");
    reveal_strlit("failed_at");
    assert("dedup_key"@.len() == 9 && "failed_at"@.len() == 9 && "dedup_key"@[0] == 'd'
        && "failed_at"@[0] == 'f');
    assert("dept"@.len() == 4 && "original_queue"@.len() == 14 && "attempts"@.len() == 8
        && "last_error_excerpt"@.len() == 18);
}

// Renewing.

/// A run keeps itself from being tried again just where it was not done before and is the one that is
/// kept; nothing of what is kept changes but when it is due.
pub proof fn law_a_renewed_run_stays_as_it_is(
    marked: bool,
    current: Option<RetryRecordView>,
    generation: u64,
    now_ms: u64,
    lease: nat,
    r: Renewal,
)
    requires
        decides_renewal(marked, current, generation, now_ms, lease, r),
        lease / 1_000_000 <= u64::MAX,
    ensures
        r is Remove <==> marked,
        r is Write <==> !marked && (current matches Some(c) && c.generation == generation),
        r matches Renewal::Write { record } ==> (current matches Some(c) && {
            &&& record@.queue == c.queue
            &&& record@.payload == c.payload
            &&& record@.dept == c.dept
            &&& record@.dedup_key == c.dedup_key
            &&& record@.attempt == c.attempt
            &&& record@.generation == c.generation
            &&& record@.last_error_excerpt == c.last_error_excerpt
            &&& record@.due_at == capped_time(now_ms + lease / 1_000_000)
        }),
{
}

// Sweeping.

/// A sweep sends just what is due and was not done, and what it sends is what the event was: a run
/// that is tried again comes back with the queue and the payload that it had.
pub proof fn law_what_a_sweep_sends(
    policy: RetryPolicy,
    dept: Seq<char>,
    event: EventView,
    key: Seq<char>,
    generation: u64,
    status: CompletionStatus,
    current: Option<RetryRecordView>,
    ended_ms: u64,
    failed_at: Seq<char>,
    completion: Completion,
    marked: bool,
    now_ms: u64,
    r: SweepAction,
)
    requires
        decides_end(
            policy,
            dept,
            event,
            key,
            generation,
            status,
            current,
            ended_ms,
            failed_at,
            completion,
        ),
        completion is Retry,
        decides_sweep(marked, Some((completion->Retry_record)@), now_ms, r),
    ensures
        r is Remove <==> marked,
        r is Send <==> !marked && now_ms >= (completion->Retry_record)@.due_at,
        r matches SweepAction::Send { event: e } ==> e@.queue == event.queue && e@.payload
            == event.payload && e@.ts == now_ms,
{
}

/// A sweep leaves what could not be read.
pub proof fn law_a_sweep_leaves_what_it_cannot_read(marked: bool, now_ms: u64, r: SweepAction)
    requires
        decides_sweep(marked, None, now_ms, r),
    ensures
        r is Remove <==> marked,
        r is Leave <==> !marked,
{
}

// Keys.

/// The characters that a file name may have: letters, digits, dots, underscores and dashes.
pub open spec fn is_name_char(c: char) -> bool {
    ('a' <= c && c <= 'z') || ('A' <= c && c <= 'Z') || ('0' <= c && c <= '9') || c == '.' || c
        == '_' || c == '-'
}

pub open spec fn is_plain_name(s: Seq<char>) -> bool {
    &&& 0 < s.len() <= LONGEST_SEGMENT
    &&& forall|i: int| 0 <= i < s.len() ==> is_name_char(#[trigger] s[i])
    &&& exists|i: int| 0 <= i < s.len() && #[trigger] s[i] != '.'
}

/// A name that a file may have stays as it is, and in any other each character that no file name has
/// becomes a dash.
pub proof fn law_what_stays_of_a_name(s: Seq<char>, i: int)
    ensures
        is_plain_name(s) ==> safe_segment(s) == s,
        0 <= i < s.len() && i < LONGEST_SEGMENT && !is_name_char(s[i]) ==> safe_segment(s).len() > i
            && safe_segment(s)[i] == '-',
        0 <= i < s.len() && i < LONGEST_SEGMENT && is_name_char(s[i]) && s[i] != '.' ==> safe_segment(
            s,
        ).len() > i && safe_segment(s)[i] == s[i],
        s.len() > LONGEST_SEGMENT && s[0] != '.' ==> safe_segment(s).len() == LONGEST_SEGMENT,
{
    let chars = safe_chars(s);
    assert(forall|k: int| 0 <= k < s.len() ==> is_safe_char(s[k]) == is_name_char(#[trigger] s[k]));
    if is_plain_name(s) {
        assert(chars =~= s);
        let k = choose|k: int| 0 <= k < s.len() && #[trigger] s[k] != '.';
        assert(chars[k] != '.');
    }
    if 0 <= i < s.len() {
        assert(chars[i] == safe_char(s[i]));
        if !is_name_char(s[i]) || s[i] != '.' {
            assert(chars[i] != '.');
        }
    }
    if s.len() > LONGEST_SEGMENT && s[0] != '.' {
        assert(chars[0] != '.');
    }
}

proof fn lemma_plain_segments(parts: Seq<Seq<char>>)
    requires
        forall|i: int| 0 <= i < parts.len() ==> is_plain_name(#[trigger] parts[i]),
    ensures
        safe_segments(parts) == parts,
    decreases parts.len(),
{
    if parts.len() > 0 {
        let front = parts.drop_last();
        assert forall|i: int| 0 <= i < front.len() implies is_plain_name(#[trigger] front[i]) by {
            assert(front[i] == parts[i]);
        }
        lemma_plain_segments(front);
        assert(is_plain_name(parts[parts.len() - 1]));
        law_what_stays_of_a_name(parts.last(), 0);
        assert(front.push(parts.last()) =~= parts);
    } else {
        assert(safe_segments(parts) =~= parts);
    }
}

/// A key of names that files may have stays as it is; empty parts of a key are left out.
pub proof fn law_what_stays_of_a_key(parts: Seq<Seq<char>>)
    requires
        parts.len() >= 1,
        forall|i: int| 0 <= i < parts.len() ==> is_plain_name(#[trigger] parts[i]),
    ensures
        safe_key(join(parts, seq!['/'])) == join(parts, seq!['/']),
        safe_segments(parts.push(Seq::empty())) == safe_segments(parts),
{
    reveal_strlit("/");
    assert("/"@ =~= seq!['/']);
    assert forall|i: int, j: int| 0 <= i < parts.len() && 0 <= j < parts[i].len() implies #[trigger]
        parts[i][j] != '/' by {
        assert(is_plain_name(parts[i]));
        assert(is_name_char(parts[i][j]));
    }
    law_split_join(parts, '/');
    lemma_plain_segments(parts);
    assert(parts.push(Seq::empty()).drop_last() =~= parts);
}

} // verus!
