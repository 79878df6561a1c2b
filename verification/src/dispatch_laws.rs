//! Laws of dispatching: which deliveries run, and what becomes of a run that ended.

use vstd::prelude::*;
use vstd::string::*;
use crate::config::DepartmentDecl;
use crate::consumer::{dispatch_room, lease_nanos, renew_nanos};
use crate::cutting::is_whitespace;
use crate::delivery_router::{derived_view, record_of, PublishEnvelope};
use crate::delivery_types::{source_view, DeadView, DeliveryView, SourceKind};
use crate::dispatch::{
    after_renewal, any_passes, busy_lock, completes, consumer_steps, ephemeral_leaves, event_of,
    exit_failure, finishes, is_letter_of, is_raised, kinds_of, letter_queue, named_lock,
    number_kind, passes, renewals_due, running_ids, selected, ConsumerAction, ConsumerEvent,
    ConsumerState, EphemeralCompletion, ErrorNumbers, FaultKind, FinishAction, RunCompletion,
    RunOutcome, RunningView, SystemFault,
};
use crate::event::EventView;
use crate::failure_fact::dead_record_of;
use crate::fingerprint::words;
use crate::store_keeping::same_delivery;
use crate::text::texts_view;
use crate::text_laws::law_a_text_is_split_at_the_first_separator;

verus! {

// Queues.

/// The queues that are selected are those of the list that are in the other, or those that are not,
/// in their order.
pub proof fn law_which_queues_are_selected(
    queues: Seq<Seq<char>>,
    others: Seq<Seq<char>>,
    inside: bool,
)
    ensures
        selected(queues, others, inside) == queues.filter(
            |q: Seq<char>| others.contains(q) == inside,
        ),
    decreases queues.len(),
{
    reveal(Seq::filter);
    if queues.len() > 0 {
        law_which_queues_are_selected(queues.drop_last(), others, inside);
    }
}

proof fn lemma_selected_holds(
    queues: Seq<Seq<char>>,
    others: Seq<Seq<char>>,
    inside: bool,
    q: Seq<char>,
)
    ensures
        selected(queues, others, inside).contains(q) <==> queues.contains(q) && others.contains(q)
            == inside,
    decreases queues.len(),
{
    if queues.len() > 0 {
        let front = queues.drop_last();
        lemma_selected_holds(front, others, inside, q);
        let all = selected(queues, others, inside);
        let some = selected(front, others, inside);
        if all.contains(q) {
            let k = choose|k: int| 0 <= k < all.len() && all[k] == q;
            if k < some.len() {
                assert(some[k] == q);
                let i = choose|i: int| 0 <= i < front.len() && front[i] == q;
                assert(queues[i] == q);
            } else {
                assert(queues[queues.len() - 1] == q);
            }
        }
        if queues.contains(q) && others.contains(q) == inside {
            let i = choose|i: int| 0 <= i < queues.len() && queues[i] == q;
            if i < front.len() {
                assert(front[i] == q);
                let k = choose|k: int| 0 <= k < some.len() && some[k] == q;
                assert(all[k] == q);
            } else {
                assert(all[some.len() as int] == q);
            }
        }
    }
}

/// A consumer runs a child for an event just where its department takes from the queue of the event
/// and calls it ephemeral.
pub proof fn law_which_events_a_consumer_runs(
    d: DepartmentDecl,
    before: ConsumerState,
    queue: &str,
    after: ConsumerState,
    r: ConsumerAction,
)
    requires
        texts_view(before.ephemeral_queues@) == selected(
            texts_view(d.consumes@),
            texts_view(d.ephemeral@),
            true,
        ),
        consumer_steps(before, ConsumerEvent::Ephemeral { queue }, after, r),
    ensures
        r == ConsumerAction::RunEphemeral <==> texts_view(d.consumes@).contains(queue@)
            && texts_view(d.ephemeral@).contains(queue@),
        r == ConsumerAction::RunEphemeral || r == ConsumerAction::Ignore,
        after == before,
{
    lemma_selected_holds(texts_view(d.consumes@), texts_view(d.ephemeral@), true, queue@);
}

/// A consumer ends just where its ephemeral queues are closed and it has no reliable ones; it never
/// takes up again what was closed, and it always has the queues that it started with.
pub proof fn law_when_a_consumer_ends(
    before: ConsumerState,
    event: ConsumerEvent,
    after: ConsumerState,
    r: ConsumerAction,
)
    requires
        consumer_steps(before, event, after, r),
    ensures
        r == ConsumerAction::Exit <==> event is EphemeralClosed && before.reliable_queues@.len()
            == 0,
        !before.wake_open ==> !after.wake_open,
        !before.ephemeral_open ==> !after.ephemeral_open,
        event is WakeClosed ==> !after.wake_open,
        event is EphemeralClosed && before.reliable_queues@.len() > 0 ==> !after.ephemeral_open,
        !(event is WakeClosed) ==> after.wake_open == before.wake_open,
        !(event is EphemeralClosed) ==> after.ephemeral_open == before.ephemeral_open,
        after.reliable_queues == before.reliable_queues,
        after.ephemeral_queues == before.ephemeral_queues,
{
}

/// Deliveries are started at every hint that one is due and at every tick; at a tick leases are
/// renewed too, and a run that ended is finished.
pub proof fn law_when_deliveries_are_started(
    before: ConsumerState,
    event: ConsumerEvent,
    after: ConsumerState,
    r: ConsumerAction,
)
    requires
        consumer_steps(before, event, after, r),
    ensures
        r == ConsumerAction::Maintain <==> event is Tick,
        r == ConsumerAction::Finish <==> event is Completed,
        r == ConsumerAction::Dispatch <==> event is Wake || event is WakeClosed,
{
}

// How many run.

/// As many deliveries start as may: no fewer than the ceiling, the burst and the batch leave room
/// for.
pub proof fn law_as_many_start_as_may(running: int, max_in_flight: int, burst: int)
    requires
        0 <= running <= max_in_flight,
        0 <= burst,
    ensures
        ({
            let n = dispatch_room(running, max_in_flight, burst);
            running + n == max_in_flight || n == burst || n == 16
        }),
{
}

/// A delivery is leased for six seconds more than the stall window, and its lease is renewed after
/// half of that.
pub proof fn law_how_long_a_lease_is(stall_window: nat)
    requires
        stall_window + 6_000_000_000 <= crate::duration::LONGEST_NANOS,
    ensures
        lease_nanos(stall_window) == stall_window + 6_000_000_000,
        2 * renew_nanos(stall_window) <= lease_nanos(stall_window) < 2 * renew_nanos(stall_window)
            + 2,
{
}

// Leases of runs.

/// A lease is renewed just where the child of the run has not ended and its time has come; each is
/// asked for by the id and the generation of its delivery.
pub proof fn law_which_leases_are_renewed(
    running: Seq<RunningView>,
    finished: Seq<bool>,
    now_ms: u64,
    id: Seq<char>,
    generation: u64,
)
    requires
        finished.len() == running.len(),
    ensures
        renewals_due(running, finished, now_ms).contains((id, generation)) <==> exists|i: int|
            0 <= i < running.len() && (#[trigger] running[i]).record.delivery_id == id
                && running[i].record.lease_generation == generation && !finished[i]
                && running[i].next_renew_at_ms <= now_ms,
    decreases running.len(),
{
    lemma_renewals(running, finished, now_ms, id, generation);
}

proof fn lemma_renewals(
    running: Seq<RunningView>,
    finished: Seq<bool>,
    now_ms: u64,
    id: Seq<char>,
    generation: u64,
)
    requires
        finished.len() >= running.len(),
    ensures
        renewals_due(running, finished, now_ms).contains((id, generation)) <==> exists|i: int|
            0 <= i < running.len() && (#[trigger] running[i]).record.delivery_id == id
                && running[i].record.lease_generation == generation && !finished[i]
                && running[i].next_renew_at_ms <= now_ms,
    decreases running.len(),
{
    if running.len() > 0 {
        let front = running.drop_last();
        let last = running.len() - 1;
        lemma_renewals(front, finished, now_ms, id, generation);
        let all = renewals_due(running, finished, now_ms);
        let some = renewals_due(front, finished, now_ms);
        if all.contains((id, generation)) {
            let k = choose|k: int| 0 <= k < all.len() && all[k] == (id, generation);
            if k < some.len() {
                assert(some[k] == (id, generation));
                let i = choose|i: int|
                    0 <= i < front.len() && (#[trigger] front[i]).record.delivery_id == id
                        && front[i].record.lease_generation == generation && !finished[i]
                        && front[i].next_renew_at_ms <= now_ms;
                assert(running[i] == front[i]);
            } else {
                assert(running[last].record.delivery_id == id);
            }
        }
        if exists|i: int|
            0 <= i < running.len() && (#[trigger] running[i]).record.delivery_id == id
                && running[i].record.lease_generation == generation && !finished[i]
                && running[i].next_renew_at_ms <= now_ms {
            let i = choose|i: int|
                0 <= i < running.len() && (#[trigger] running[i]).record.delivery_id == id
                    && running[i].record.lease_generation == generation && !finished[i]
                    && running[i].next_renew_at_ms <= now_ms;
            if i < last {
                assert(front[i] == running[i]);
                let k = choose|k: int| 0 <= k < some.len() && some[k] == (id, generation);
                assert(all[k] == (id, generation));
            } else {
                assert(all[some.len() as int] == (id, generation));
            }
        }
    }
}

/// A run after leases were renewed is the run that it was, with its new lease where it asked for one
/// and got it; a run that ended in the meantime, that did not ask, or whose lease another holds stays
/// as it was.
pub proof fn law_a_renewed_run_is_the_same_run(
    r: RunningView,
    was_finished: bool,
    is_finished: bool,
    now_ms: u64,
    renewed: Map<Seq<char>, DeliveryView>,
    next_ms: u64,
)
    ensures
        ({
            let after = after_renewal(r, was_finished, is_finished, now_ms, renewed, next_ms);
            let d = after.record;
            let got = !was_finished && r.next_renew_at_ms <= now_ms && !is_finished
                && renewed.contains_key(r.record.delivery_id);
            &&& same_delivery(d, r.record)
            &&& d.attempt == r.record.attempt
            &&& d.redrive_count == r.record.redrive_count
            &&& d.not_before_ms == r.record.not_before_ms
            &&& d.last_error_excerpt == r.record.last_error_excerpt
            &&& got ==> d.lease_until_ms == renewed[r.record.delivery_id].lease_until_ms
                && d.lease_generation == renewed[r.record.delivery_id].lease_generation
                && after.next_renew_at_ms == next_ms
            &&& !got ==> after == r
        }),
{
}

/// The ids of what runs are the ids of the deliveries that run, one for each.
pub proof fn law_what_runs_is_named(running: Seq<RunningView>, i: int)
    requires
        0 <= i < running.len(),
    ensures
        running_ids(running).len() == running.len(),
        running_ids(running)[i] == running[i].record.delivery_id,
{
}

// Runs that ended.

/// What becomes of a delivery whose run ended. It is done just where its child ended well and what it
/// raised was published; it is put off just where its child found a lock busy; else it failed, and is
/// given back where its department wants further attempts and dropped where it does not.
pub proof fn law_what_becomes_of_a_run(
    outcome: RunOutcome,
    lock_busy_exit_code: i32,
    lock: Option<String>,
    publish_error: Option<String>,
    raised: usize,
    completion: RunCompletion,
    has_retry_policy: bool,
    action: FinishAction,
)
    requires
        lock_busy_exit_code != 0,
        completes(outcome, lock_busy_exit_code, lock, publish_error, raised, completion),
        finishes(completion, has_retry_policy, action),
    ensures
        action is Ack <==> (outcome matches RunOutcome::Ended(result) && result.exit_code == 0
            && publish_error is None),
        action is Defer <==> (outcome matches RunOutcome::Ended(result) && result.exit_code
            == lock_busy_exit_code),
        action matches FinishAction::Defer { lock: l } ==> l == lock,
        action is Retry ==> has_retry_policy,
        action is Drop ==> !has_retry_policy,
        completion is PublishOutput <==> action is Ack && raised == 0,
        action matches FinishAction::Retry { failure } ==> match outcome {
            RunOutcome::Ended(result) => if result.exit_code != 0 {
                failure@.replayable == (result.exit_code == 124)
            } else {
                !failure@.replayable
            },
            RunOutcome::NotStarted { failure: f } => failure@ == f@,
        },
{
}

/// What a child of an ephemeral event leaves to do: what its output raises is published just where it
/// ended well and raised nothing on the way.
pub proof fn law_what_an_ephemeral_child_leaves(
    exit_code: i32,
    lock_busy_exit_code: i32,
    publish_failed: bool,
    raised_observed: bool,
)
    requires
        lock_busy_exit_code != 0,
    ensures
        ({
            let left = ephemeral_leaves(
                exit_code,
                lock_busy_exit_code,
                publish_failed,
                raised_observed,
            );
            &&& left == EphemeralCompletion::PublishOutput <==> exit_code == 0 && !publish_failed
                && !raised_observed
            &&& left == EphemeralCompletion::PublishFailed <==> exit_code == 0 && publish_failed
            &&& left == EphemeralCompletion::LockBusy <==> exit_code == lock_busy_exit_code
        }),
{
}

/// A child that ran out of time is worth another run, and one that ended with any other code is not;
/// what it said is told, and two failures with one code are told apart by it.
pub proof fn law_what_is_told_of_a_failed_child(
    exit_code: i32,
    stderr: Seq<char>,
    other: Seq<char>,
)
    ensures
        exit_failure(exit_code, stderr).replayable <==> exit_code == 124,
        exit_failure(exit_code, stderr).message.len() >= stderr.len(),
        stderr.is_suffix_of(exit_failure(exit_code, stderr).message),
        exit_failure(exit_code, stderr).message == exit_failure(exit_code, other).message <==> stderr
            == other,
{
    let front = "exit="@ + crate::numeral::signed_decimal(exit_code as int) + " stderr="@;
    let m = exit_failure(exit_code, stderr).message;
    let n = exit_failure(exit_code, other).message;
    assert(m =~= front + stderr);
    assert(n =~= front + other);
    assert(stderr =~= m.skip(front.len() as int));
    assert(other =~= n.skip(front.len() as int));
    assert(m.skip(m.len() - stderr.len()) =~= stderr);
}

/// Whether a fault passes, by its kind or by its number.
pub open spec fn fault_passes(fault: SystemFault, numbers: ErrorNumbers) -> bool {
    ||| fault.kind == FaultKind::TooManyFiles
    ||| fault.kind == FaultKind::FileTableFull
    ||| fault.kind == FaultKind::TryAgain
    ||| fault.kind == FaultKind::NoMemory
    ||| fault.kind == FaultKind::WouldBlock
    ||| fault.kind == FaultKind::OutOfMemory
    ||| (fault.errno matches Some(n) && (n == numbers.too_many_files || n
        == numbers.file_table_full || n == numbers.try_again || n == numbers.no_memory))
}

/// A child that could not be started is worth another try just where one of the faults on the way
/// passes: where files, memory or processes are short for now.
pub proof fn law_which_faults_pass(faults: Seq<SystemFault>, numbers: ErrorNumbers)
    ensures
        any_passes(kinds_of(faults, numbers)) <==> exists|i: int|
            0 <= i < faults.len() && fault_passes(#[trigger] faults[i], numbers),
    decreases faults.len(),
{
    if faults.len() > 0 {
        let front = faults.drop_last();
        let last = faults.len() - 1;
        law_which_faults_pass(front, numbers);
        let all = kinds_of(faults, numbers);
        let some = kinds_of(front, numbers);
        let n = some.len() as int;
        assert(all[n] == faults[last].kind);
        assert(all[n + 1] == number_kind(faults[last].errno, numbers));
        if any_passes(all) {
            let k = choose|k: int| 0 <= k < all.len() && passes(#[trigger] all[k]);
            if k < n {
                assert(passes(some[k]));
                let i = choose|i: int|
                    0 <= i < front.len() && fault_passes(#[trigger] front[i], numbers);
                assert(faults[i] == front[i]);
            } else {
                assert(fault_passes(faults[last], numbers));
            }
        }
        if exists|i: int| 0 <= i < faults.len() && fault_passes(#[trigger] faults[i], numbers) {
            let i = choose|i: int|
                0 <= i < faults.len() && fault_passes(#[trigger] faults[i], numbers);
            if i < last {
                assert(front[i] == faults[i]);
                let k = choose|k: int| 0 <= k < some.len() && passes(#[trigger] some[k]);
                assert(all[k] == some[k]);
            } else {
                assert(passes(all[n]) || passes(all[n + 1]));
            }
        }
    } else {
        assert(kinds_of(faults, numbers).len() == 0);
    }
}

// What a child says.

proof fn lemma_words_end(s: Seq<char>)
    ensures
        s.len() > 0 && !is_whitespace(s.last()) ==> words(s).len() > 0,
    decreases s.len(),
{
    if s.len() > 1 {
        lemma_words_end(s.drop_last());
        assert(s.drop_last().last() == s[s.len() - 2]);
    }
}

/// Words stand between whitespace: whitespace in a text parts the words in front of it from those
/// behind it.
pub proof fn law_whitespace_parts_words(a: Seq<char>, c: char, b: Seq<char>)
    requires
        is_whitespace(c),
    ensures
        words(a + seq![c] + b) == words(a) + words(b),
    decreases b.len(),
{
    let s = a + seq![c] + b;
    if b.len() == 0 {
        assert(s.drop_last() =~= a);
        assert(s.last() == c);
        assert(words(a) + words(b) =~= words(a));
    } else {
        let f = b.drop_last();
        law_whitespace_parts_words(a, c, f);
        assert(s.drop_last() =~= a + seq![c] + f);
        assert(s.last() == b.last());
        if !is_whitespace(b.last()) {
            if b.len() == 1 {
                assert(s[s.len() - 2] == c);
                assert(words(f) =~= Seq::<Seq<char>>::empty());
                assert(words(s) =~= words(a) + words(b));
            } else {
                assert(s[s.len() - 2] == b[b.len() - 2]);
                assert(f.last() == b[b.len() - 2]);
                lemma_words_end(f);
                assert(words(s) =~= words(a) + words(b));
            }
        }
    }
}

/// A text without whitespace is one word, and nothing is none.
pub proof fn law_one_word(s: Seq<char>)
    requires
        forall|i: int| 0 <= i < s.len() ==> !is_whitespace(#[trigger] s[i]),
    ensures
        words(s) == if s.len() == 0 {
            Seq::<Seq<char>>::empty()
        } else {
            seq![s]
        },
    decreases s.len(),
{
    if s.len() > 0 {
        let f = s.drop_last();
        assert(!is_whitespace(s[s.len() - 1]));
        assert forall|i: int| 0 <= i < f.len() implies !is_whitespace(#[trigger] f[i]) by {
            assert(f[i] == s[i]);
        }
        law_one_word(f);
        if s.len() > 1 {
            assert(!is_whitespace(s[s.len() - 2]));
            assert(words(f).len() == 1);
            assert(f.push(s.last()) =~= s);
            assert(words(s) =~= seq![s]);
        } else {
            assert(words(f) =~= Seq::<Seq<char>>::empty());
            assert(seq![s.last()] =~= s);
            assert(words(s) =~= seq![s]);
        }
    }
}

/// The lock that is named is what stands behind `lock=` in the first word that starts so.
pub proof fn law_which_lock_is_named(list: Seq<Seq<char>>, at: int, lock: Seq<char>)
    requires
        0 <= at < list.len(),
        list[at] == "lock="@ + lock,
        forall|i: int| 0 <= i < at ==> !"lock="@.is_prefix_of(#[trigger] list[i]),
    ensures
        named_lock(list) == Some(lock),
    decreases at,
{
    reveal_strlit("lock=");
    if at == 0 {
        let w = "lock="@ + lock;
        assert(w.take(5) =~= "lock="@);
        assert(w.skip(5) =~= lock);
    } else {
        let rest = list.drop_first();
        assert(!"lock="@.is_prefix_of(list[0]));
        assert forall|i: int| 0 <= i < at - 1 implies !"lock="@.is_prefix_of(#[trigger] rest[i]) by {
            assert(rest[i] == list[i + 1]);
        }
        law_which_lock_is_named(rest, at - 1, lock);
    }
}

/// No lock is busy unless the child says so in a word of its own, and none is named where no word
/// names one.
pub proof fn law_when_a_lock_is_busy(stderr: Seq<char>)
    ensures
        !words(stderr).contains("error_class=lock_busy"@) ==> busy_lock(stderr) is None,
        words(stderr).contains("error_class=lock_busy"@) ==> busy_lock(stderr) == named_lock(
            words(stderr),
        ),
        (forall|i: int|
            0 <= i < words(stderr).len() ==> !"lock="@.is_prefix_of(#[trigger] words(stderr)[i]))
            ==> busy_lock(stderr) is None,
{
    if forall|i: int|
        0 <= i < words(stderr).len() ==> !"lock="@.is_prefix_of(#[trigger] words(stderr)[i]) {
        lemma_no_lock(words(stderr));
    }
}

proof fn lemma_no_lock(list: Seq<Seq<char>>)
    requires
        forall|i: int| 0 <= i < list.len() ==> !"lock="@.is_prefix_of(#[trigger] list[i]),
    ensures
        named_lock(list) is None,
    decreases list.len(),
{
    if list.len() > 0 {
        let rest = list.drop_first();
        assert(!"lock="@.is_prefix_of(list[0]));
        assert forall|i: int| 0 <= i < rest.len() implies !"lock="@.is_prefix_of(
            #[trigger] rest[i],
        ) by {
            assert(rest[i] == list[i + 1]);
        }
        lemma_no_lock(rest);
    }
}

// Letters and raised events.

/// The letter of a dead delivery goes to the queue for letters of the namespace of its department, or
/// to the one of the host; a letter about a letter is never sent.
pub proof fn law_where_dead_letters_go(namespace: Seq<char>, rest: Seq<char>, queue: Seq<char>)
    requires
        forall|i: int| 0 <= i < namespace.len() ==> #[trigger] namespace[i] != '.',
    ensures
        letter_queue(namespace + seq!['.'] + rest, queue) == if queue == namespace
            + ".dead_letter"@ {
            None
        } else {
            Some(namespace + ".dead_letter"@)
        },
        letter_queue(namespace, queue) == if queue == "dead_letter"@ {
            None
        } else {
            Some("dead_letter"@)
        },
{
    law_a_text_is_split_at_the_first_separator(namespace, rest, '.');
}

/// What a department runs on is what was published: the event of the delivery that an event became
/// is that event, whichever attempt it is.
pub proof fn law_what_runs_is_what_was_published(
    envelope: PublishEnvelope,
    dept: Seq<char>,
    now_ms: u64,
    later: DeliveryView,
)
    requires
        same_delivery(later, record_of(envelope, dept, now_ms)),
    ensures
        event_of(later) == envelope.event@,
{
}

/// The letter of a dead delivery is sent where letters go, and comes from the delivery that it is
/// about; no letter is sent about a letter.
pub proof fn law_the_letter_of_a_dead_delivery(
    dead: DeadView,
    now_ms: u64,
    r: Option<PublishEnvelope>,
)
    requires
        is_letter_of(dead, now_ms, r),
    ensures
        r is Some <==> letter_queue(dead.dept, dead.queue) is Some,
        r matches Some(e) ==> {
            &&& Some(e.event@.queue) == letter_queue(dead.dept, dead.queue)
            &&& e.event@.queue != dead.queue
            &&& e.event@.ts == now_ms
            &&& e.event@.payload == dead_record_of(dead, now_ms)
            &&& source_view(e.source) matches Some(s) && s.reference == "dead/"@ + dead.delivery_id
                && s.kind == SourceKind::External
            &&& e.derived is None
            &&& e.cron_payload is None
        },
{
}

/// An event that a delivery raised is published as it is, at the time and from the source of that
/// delivery, and is known by that delivery and its number.
pub proof fn law_a_raised_event_is_published_as_it_is(
    envelope: PublishEnvelope,
    event: EventView,
    parent: DeliveryView,
    ordinal: nat,
)
    requires
        is_raised(envelope, event, parent, ordinal),
    ensures
        envelope.event@.queue == event.queue,
        envelope.event@.payload == event.payload,
        envelope.event@.ts == parent.observed_at_ms,
        source_view(envelope.source) == parent.source,
        envelope.cron_payload is None,
        derived_view(envelope.derived) matches Some(d) && d.parent_delivery_id == parent.delivery_id
            && d.ordinal == ordinal,
{
}

} // verus!
