//! What a consumer does with deliveries: which it starts, what it makes of a run that ended, and
//! what it tells of that.

use vstd::prelude::*;
use vstd::string::*;
use crate::config::DepartmentDecl;
use crate::consumer::{
    is_replayable_framework_exit_code, lease_nanos, next_renew_at_ms, renew_nanos, retry_lease,
    ShouldExit,
};
use crate::cutting::{split_once, split_text_once, starts_with};
use crate::delivery_router::{derived_view, DerivedDelivery, DerivedView, PublishEnvelope};
use crate::delivery_store::{renewals_view, requests_view, Renewal, RetryFailure};
use crate::delivery_types::{
    copy_source, source_view, DeadRecord, DeadView, DeliveryRecord, DeliveryView, SourceKind, SourceRef,
    SourceView,
};
use crate::duration::{millis, Duration};
use crate::event::{Event, EventView};
use crate::failure_fact::{dead_record_of, dead_record_payload};
use crate::fingerprint::{split_words, words};
use crate::journal::{field, fields_view, optional_path, optional_path_text, Field};
use crate::numeral::{
    decimal, decimal_text, push_signed, push_wide_decimal, signed_decimal, signed_text,
};
use crate::paths::{join_path, joined};
use crate::spawner::SpawnResult;
use crate::store_model::{plus_capped, FailureView, RetryOutcome};
use crate::text::{
    copy_text, list_holds, same_text, text_of, text_view, texts_view, to_chars,
};

verus! {

// Queues.

/// The queues of a list that are, or are not, in another.
pub open spec fn selected(queues: Seq<Seq<char>>, others: Seq<Seq<char>>, inside: bool) -> Seq<
    Seq<char>,
>
    decreases queues.len(),
{
    if queues.len() == 0 {
        Seq::empty()
    } else {
        let front = selected(queues.drop_last(), others, inside);
        if others.contains(queues.last()) == inside {
            front.push(queues.last())
        } else {
            front
        }
    }
}

/// The queues of a list that are, or are not, in another.
pub fn select_queues(queues: &Vec<String>, others: &Vec<String>, inside: bool) -> (r: Vec<String>)
    ensures
        texts_view(r@) == selected(texts_view(queues@), texts_view(others@), inside),
{
    let ghost views = texts_view(queues@);
    let mut out: Vec<String> = Vec::new();
    let mut i: usize = 0;
    assert(texts_view(out@) =~= Seq::<Seq<char>>::empty());
    while i < queues.len()
        invariant
            views == texts_view(queues@),
            i <= queues@.len(),
            texts_view(out@) == selected(views.take(i as int), texts_view(others@), inside),
        decreases queues@.len() - i,
    {
        let ghost had = texts_view(out@);
        proof {
            assert(views.take(i + 1).drop_last() =~= views.take(i as int));
            assert(views.take(i + 1).last() == queues@[i as int]@);
        }
        if list_holds(others, queues[i].as_str()) == inside {
            out.push(copy_text(queues[i].as_str()));
            assert(texts_view(out@) =~= had.push(queues@[i as int]@));
        }
        i = i + 1;
    }
    assert(views.take(views.len() as int) =~= views);
    out
}

// The loop of a consumer.

/// What a consumer still listens to.
pub struct ConsumerState {
    pub reliable_queues: Vec<String>,
    pub ephemeral_queues: Vec<String>,
    pub ephemeral_open: bool,
    pub wake_open: bool,
}

/// What a consumer hears.
pub enum ConsumerEvent<'a> {
    /// An event from an ephemeral queue.
    Ephemeral { queue: &'a str },
    /// No more events come from ephemeral queues.
    EphemeralClosed,
    /// A reliable delivery may be due.
    Wake,
    /// No more such hints come.
    WakeClosed,
    /// Time has passed.
    Tick,
    /// A run has ended.
    Completed,
}

/// What a consumer does about it.
#[derive(Clone, Copy, Debug, PartialEq, Eq, Structural)]
pub enum ConsumerAction {
    /// Nothing.
    Ignore,
    /// A child runs for the event.
    RunEphemeral,
    /// Deliveries that are due are started.
    Dispatch,
    /// Leases are renewed, dead deliveries are looked after, and deliveries that are due are
    /// started.
    Maintain,
    /// The run is finished.
    Finish,
    /// The consumer ends.
    Exit,
}

/// A consumer that starts: it listens to ephemeral queues and to hints where it has such queues.
pub fn start_consumer(d: &DepartmentDecl) -> (r: ConsumerState)
    ensures
        texts_view(r.reliable_queues@) == selected(
            texts_view(d.consumes@),
            texts_view(d.ephemeral@),
            false,
        ),
        texts_view(r.ephemeral_queues@) == selected(
            texts_view(d.consumes@),
            texts_view(d.ephemeral@),
            true,
        ),
        r.ephemeral_open == (r.ephemeral_queues@.len() > 0),
        r.wake_open == (r.reliable_queues@.len() > 0),
{
    let reliable_queues: Vec<String> = select_queues(&d.consumes, &d.ephemeral, false);
    let ephemeral_queues: Vec<String> = select_queues(&d.consumes, &d.ephemeral, true);
    ConsumerState {
        ephemeral_open: ephemeral_queues.len() > 0,
        wake_open: reliable_queues.len() > 0,
        reliable_queues,
        ephemeral_queues,
    }
}

/// Whether this is what a consumer does about what it hears, and what it listens to from then on.
pub open spec fn consumer_steps(
    before: ConsumerState,
    event: ConsumerEvent,
    after: ConsumerState,
    r: ConsumerAction,
) -> bool {
    &&& after.reliable_queues == before.reliable_queues
    &&& after.ephemeral_queues == before.ephemeral_queues
    &&& after.ephemeral_open == (before.ephemeral_open && !(event is EphemeralClosed
        && before.reliable_queues@.len() > 0))
    &&& after.wake_open == (before.wake_open && !(event is WakeClosed))
    &&& r == match event {
        ConsumerEvent::Ephemeral { queue } => if texts_view(
            before.ephemeral_queues@,
        ).contains(queue@) {
            ConsumerAction::RunEphemeral
        } else {
            ConsumerAction::Ignore
        },
        ConsumerEvent::EphemeralClosed => if before.reliable_queues@.len() == 0 {
            ConsumerAction::Exit
        } else {
            ConsumerAction::Ignore
        },
        ConsumerEvent::Wake => ConsumerAction::Dispatch,
        ConsumerEvent::WakeClosed => ConsumerAction::Dispatch,
        ConsumerEvent::Tick => ConsumerAction::Maintain,
        ConsumerEvent::Completed => ConsumerAction::Finish,
    }
}

impl ConsumerState {
    /// Whether the consumer listens to the passing of time.
    pub fn ticks(&self) -> (r: bool)
        ensures
            r == (self.reliable_queues@.len() > 0),
    {
        self.reliable_queues.len() > 0
    }

    /// What the consumer does about what it hears, and what it listens to from then on. It ends
    /// where its ephemeral queues are closed and it has no others.
    pub fn step(&mut self, event: ConsumerEvent) -> (r: ConsumerAction)
        ensures
            consumer_steps(*old(self), event, *final(self), r),
    {
        match event {
            ConsumerEvent::Ephemeral { queue } => {
                if list_holds(&self.ephemeral_queues, queue) {
                    ConsumerAction::RunEphemeral
                } else {
                    ConsumerAction::Ignore
                }
            },
            ConsumerEvent::EphemeralClosed => {
                let mut open: bool = self.ephemeral_open;
                match crate::consumer::on_ephemeral_disconnect(
                    self.reliable_queues.len() == 0,
                    &mut open,
                ) {
                    ShouldExit::Yes => ConsumerAction::Exit,
                    ShouldExit::No => {
                        self.ephemeral_open = open;
                        ConsumerAction::Ignore
                    },
                }
            },
            ConsumerEvent::Wake => ConsumerAction::Dispatch,
            ConsumerEvent::WakeClosed => {
                self.wake_open = false;
                ConsumerAction::Dispatch
            },
            ConsumerEvent::Tick => ConsumerAction::Maintain,
            ConsumerEvent::Completed => ConsumerAction::Finish,
        }
    }
}

// Runs that are under way.

/// A delivery whose child runs.
pub struct RunningDelivery {
    pub next_renew_at_ms: u64,
    pub record: DeliveryRecord,
}

pub struct RunningView {
    pub next_renew_at_ms: u64,
    pub record: DeliveryView,
}

impl View for RunningDelivery {
    type V = RunningView;

    open spec fn view(&self) -> RunningView {
        RunningView { next_renew_at_ms: self.next_renew_at_ms, record: self.record@ }
    }
}

pub open spec fn running_views(v: Seq<RunningDelivery>) -> Seq<RunningView> {
    Seq::new(v.len(), |i: int| v[i]@)
}

pub open spec fn running_ids(v: Seq<RunningView>) -> Seq<Seq<char>> {
    Seq::new(v.len(), |i: int| v[i].record.delivery_id)
}

/// The ids of the deliveries that run.
pub fn running_delivery_ids(running: &Vec<RunningDelivery>) -> (r: Vec<String>)
    ensures
        texts_view(r@) == running_ids(running_views(running@)),
{
    let mut out: Vec<String> = Vec::new();
    let mut i: usize = 0;
    while i < running.len()
        invariant
            i <= running@.len(),
            out@.len() == i,
            forall|k: int|
                0 <= k < i ==> (#[trigger] out@[k])@ == running@[k].record@.delivery_id,
        decreases running@.len() - i,
    {
        out.push(copy_text(running[i].record.delivery_id.as_str()));
        i = i + 1;
    }
    assert(texts_view(out@) =~= running_ids(running_views(running@)));
    out
}

/// A delivery that starts: its lease is renewed in time.
pub fn start_running(record: DeliveryRecord, now_ms: u64, stall_window: Duration) -> (r:
    RunningDelivery)
    ensures
        r@.record == record@,
        r@.next_renew_at_ms == plus_capped(now_ms, millis(renew_nanos(stall_window@))),
{
    RunningDelivery { next_renew_at_ms: next_renew_at_ms(now_ms, stall_window), record }
}

/// Whether the lease of a run is to be renewed.
pub open spec fn renewal_due(r: RunningView, finished: bool, now_ms: u64) -> bool {
    !finished && r.next_renew_at_ms <= now_ms
}

/// The leases that are to be renewed.
pub open spec fn renewals_due(running: Seq<RunningView>, finished: Seq<bool>, now_ms: u64) -> Seq<
    (Seq<char>, u64),
>
    decreases running.len(),
{
    if running.len() == 0 {
        Seq::empty()
    } else {
        let front = renewals_due(running.drop_last(), finished, now_ms);
        let last = running.last();
        if renewal_due(last, finished[running.len() - 1], now_ms) {
            front.push((last.record.delivery_id, last.record.lease_generation))
        } else {
            front
        }
    }
}

/// Finds the leases that are to be renewed. `finished` says of every run whether its child has
/// ended.
pub fn collect_renewals(running: &Vec<RunningDelivery>, finished: &Vec<bool>, now_ms: u64) -> (r:
    Vec<(String, u64)>)
    requires
        finished@.len() == running@.len(),
    ensures
        requests_view(r@) == renewals_due(running_views(running@), finished@, now_ms),
{
    let ghost views = running_views(running@);
    let mut out: Vec<(String, u64)> = Vec::new();
    let mut i: usize = 0;
    assert(requests_view(out@) =~= Seq::<(Seq<char>, u64)>::empty());
    while i < running.len()
        invariant
            views == running_views(running@),
            finished@.len() == running@.len(),
            i <= running@.len(),
            requests_view(out@) == renewals_due(views.take(i as int), finished@, now_ms),
        decreases running@.len() - i,
    {
        let ghost had = requests_view(out@);
        proof {
            assert(views.take(i + 1).drop_last() =~= views.take(i as int));
            assert(views.take(i + 1).last() == running@[i as int]@);
        }
        let r: &RunningDelivery = &running[i];
        if !finished[i] && r.next_renew_at_ms <= now_ms {
            out.push((copy_text(r.record.delivery_id.as_str()), r.record.lease_generation));
            assert(requests_view(out@) =~= had.push(
                (r.record@.delivery_id, r.record@.lease_generation),
            ));
        }
        i = i + 1;
    }
    assert(views.take(views.len() as int) =~= views);
    out
}

/// When leases that are renewed now run out.
pub fn renewed_until(now_ms: u64, stall_window: Duration) -> (r: u64)
    ensures
        r == plus_capped(now_ms, millis(lease_nanos(stall_window@))),
{
    now_ms.saturating_add(retry_lease(stall_window).millis())
}

/// A run after leases were renewed: its lease and its next renewal are new where its own lease was
/// to be renewed and was.
pub open spec fn after_renewal(
    r: RunningView,
    was_finished: bool,
    is_finished: bool,
    now_ms: u64,
    renewed: Map<Seq<char>, DeliveryView>,
    next_ms: u64,
) -> RunningView {
    if renewal_due(r, was_finished, now_ms) && !is_finished && renewed.contains_key(
        r.record.delivery_id,
    ) {
        RunningView {
            next_renew_at_ms: next_ms,
            record: DeliveryView {
                lease_until_ms: renewed[r.record.delivery_id].lease_until_ms,
                lease_generation: renewed[r.record.delivery_id].lease_generation,
                ..r.record
            },
        }
    } else {
        r
    }
}

fn find_renewal(renewed: &Vec<Renewal>, id: &str) -> (r: Option<(Option<u64>, u64)>)
    ensures
        match r {
            Some((until, generation)) => renewals_view(renewed@).contains_key(id@)
                && renewals_view(renewed@)[id@].lease_until_ms == until && renewals_view(
                renewed@,
            )[id@].lease_generation == generation,
            None => !renewals_view(renewed@).contains_key(id@),
        },
{
    let mut i: usize = renewed.len();
    assert(renewed@.take(renewed@.len() as int) =~= renewed@);
    while i > 0
        invariant
            i <= renewed@.len(),
            renewals_view(renewed@).contains_key(id@) == renewals_view(
                renewed@.take(i as int),
            ).contains_key(id@),
            renewals_view(renewed@).contains_key(id@) ==> renewals_view(renewed@)[id@]
                == renewals_view(renewed@.take(i as int))[id@],
        decreases i,
    {
        proof {
            assert(renewed@.take(i as int).drop_last() =~= renewed@.take(i - 1));
            assert(renewed@.take(i as int).last() == renewed@[i - 1]);
        }
        if same_text(renewed[i - 1].delivery_id.as_str(), id) {
            return Some(
                (
                    renewed[i - 1].record.lease_until_ms,
                    renewed[i - 1].record.lease_generation,
                ),
            );
        }
        i = i - 1;
    }
    assert(renewed@.take(0) =~= Seq::<Renewal>::empty());
    None
}

/// Notes which leases were renewed. `was_finished` says of every run whether its child had ended
/// before, and `is_finished` whether it has ended since.
pub fn apply_renewals(
    running: &mut Vec<RunningDelivery>,
    was_finished: &Vec<bool>,
    is_finished: &Vec<bool>,
    renewed: &Vec<Renewal>,
    now_ms: u64,
    stall_window: Duration,
)
    requires
        was_finished@.len() == old(running)@.len(),
        is_finished@.len() == old(running)@.len(),
    ensures
        final(running)@.len() == old(running)@.len(),
        forall|i: int|
            0 <= i < old(running)@.len() ==> (#[trigger] final(running)@[i])@ == after_renewal(
                old(running)@[i]@,
                was_finished@[i],
                is_finished@[i],
                now_ms,
                renewals_view(renewed@),
                plus_capped(now_ms, millis(renew_nanos(stall_window@))),
            ),
{
    let next: u64 = next_renew_at_ms(now_ms, stall_window);
    let ghost before = running@;
    let len: usize = running.len();
    let mut i: usize = 0;
    while i < len
        invariant
            len == before.len(),
            running@.len() == before.len(),
            was_finished@.len() == before.len(),
            is_finished@.len() == before.len(),
            next == plus_capped(now_ms, millis(renew_nanos(stall_window@))),
            i <= len,
            forall|k: int| i <= k < len ==> running@[k] == before[k],
            forall|k: int|
                0 <= k < i ==> (#[trigger] running@[k])@ == after_renewal(
                    before[k]@,
                    was_finished@[k],
                    is_finished@[k],
                    now_ms,
                    renewals_view(renewed@),
                    next,
                ),
        decreases len - i,
    {
        if !was_finished[i] && running[i].next_renew_at_ms <= now_ms && !is_finished[i] {
            match find_renewal(renewed, running[i].record.delivery_id.as_str()) {
                Some((until, generation)) => {
                    let ghost had = running@;
                    let mut r: RunningDelivery = running.remove(i);
                    r.record.lease_until_ms = until;
                    r.record.lease_generation = generation;
                    r.next_renew_at_ms = next;
                    running.insert(i, r);
                    assert(running@ =~= had.update(i as int, running@[i as int]));
                },
                None => {},
            }
        }
        i = i + 1;
    }
}

// Failures.

/// Why a delivery failed, and whether it is worth another run.
pub struct DeliveryFailure {
    pub message: String,
    pub replayable: bool,
}

impl View for DeliveryFailure {
    type V = FailureView;

    open spec fn view(&self) -> FailureView {
        FailureView { message: self.message@, replayable: self.replayable }
    }
}

pub open spec fn exit_failure(exit_code: i32, stderr: Seq<char>) -> FailureView {
    FailureView {
        message: "exit="@ + signed_decimal(exit_code as int) + " stderr="@ + stderr,
        replayable: exit_code == 124,
    }
}

impl DeliveryFailure {
    pub fn permanent(message: String) -> (r: DeliveryFailure)
        ensures
            r@ == (FailureView { message: message@, replayable: false }),
    {
        DeliveryFailure { message, replayable: false }
    }

    pub fn from_spawn_result(result: &SpawnResult) -> (r: DeliveryFailure)
        ensures
            r@ == exit_failure(result.exit_code, result.stderr@),
    {
        let mut message: String = copy_text("exit=");
        push_signed(&mut message, result.exit_code as i64);
        message.append(" stderr=");
        message.append(result.stderr.as_str());
        DeliveryFailure {
            message,
            replayable: is_replayable_framework_exit_code(result.exit_code),
        }
    }

    /// A child that could not be started. `faults` are the faults on the way to it.
    pub fn from_spawn_error(error: &str, faults: &Vec<FaultKind>) -> (r: DeliveryFailure)
        ensures
            r@ == (FailureView {
                message: "spawn error: "@ + error@,
                replayable: any_passes(faults@),
            }),
    {
        let mut message: String = copy_text("spawn error: ");
        message.append(error);
        DeliveryFailure { message, replayable: is_replayable_spawn_error(faults) }
    }

    pub fn to_retry(self) -> (r: RetryFailure)
        ensures
            r@ == self@,
    {
        RetryFailure { message: self.message, replayable: self.replayable }
    }
}

/// What a fault of the system is.
#[derive(Clone, Copy, Debug, PartialEq, Eq, Structural)]
pub enum FaultKind {
    TooManyFiles,
    FileTableFull,
    TryAgain,
    NoMemory,
    WouldBlock,
    OutOfMemory,
    Other,
}

/// An error of the system: what its kind says, and its number, where it has one.
pub struct SystemFault {
    pub kind: FaultKind,
    pub errno: Option<i32>,
}

/// The error numbers of a machine that matter here.
#[derive(Clone, Copy, Debug, PartialEq, Eq, Structural)]
pub struct ErrorNumbers {
    pub too_many_files: i32,
    pub file_table_full: i32,
    pub try_again: i32,
    pub no_memory: i32,
}

/// The numbers that `nix::errno::Errno` gives to `EMFILE`, `ENFILE`, `EAGAIN` and `ENOMEM`. They
/// differ from machine to machine, so nothing is said of them.
#[verifier::external_body]
fn error_numbers() -> (r: ErrorNumbers) {
    ErrorNumbers {
        too_many_files: nix::errno::Errno::EMFILE as i32,
        file_table_full: nix::errno::Errno::ENFILE as i32,
        try_again: nix::errno::Errno::EAGAIN as i32,
        no_memory: nix::errno::Errno::ENOMEM as i32,
    }
}

/// What an error number stands for.
pub open spec fn number_kind(errno: Option<i32>, numbers: ErrorNumbers) -> FaultKind {
    match errno {
        None => FaultKind::Other,
        Some(n) => if n == numbers.too_many_files {
            FaultKind::TooManyFiles
        } else if n == numbers.file_table_full {
            FaultKind::FileTableFull
        } else if n == numbers.try_again {
            FaultKind::TryAgain
        } else if n == numbers.no_memory {
            FaultKind::NoMemory
        } else {
            FaultKind::Other
        },
    }
}

/// What errors say: two kinds for each of them, the one that it has and the one that its number
/// stands for.
pub open spec fn kinds_of(faults: Seq<SystemFault>, numbers: ErrorNumbers) -> Seq<FaultKind>
    decreases faults.len(),
{
    if faults.len() == 0 {
        Seq::empty()
    } else {
        kinds_of(faults.drop_last(), numbers).push(faults.last().kind).push(
            number_kind(faults.last().errno, numbers),
        )
    }
}

/// The kinds of errors, on a machine with some numbers.
pub fn kinds_by_number(faults: &Vec<SystemFault>, numbers: ErrorNumbers) -> (r: Vec<FaultKind>)
    ensures
        r@ == kinds_of(faults@, numbers),
{
    let mut out: Vec<FaultKind> = Vec::new();
    let mut i: usize = 0;
    assert(out@ =~= kinds_of(faults@.take(0), numbers));
    while i < faults.len()
        invariant
            i <= faults@.len(),
            out@ == kinds_of(faults@.take(i as int), numbers),
        decreases faults@.len() - i,
    {
        assert(faults@.take(i + 1).drop_last() =~= faults@.take(i as int));
        out.push(faults[i].kind);
        let by_number: FaultKind = match faults[i].errno {
            Some(n) => if n == numbers.too_many_files {
                FaultKind::TooManyFiles
            } else if n == numbers.file_table_full {
                FaultKind::FileTableFull
            } else if n == numbers.try_again {
                FaultKind::TryAgain
            } else if n == numbers.no_memory {
                FaultKind::NoMemory
            } else {
                FaultKind::Other
            },
            None => FaultKind::Other,
        };
        out.push(by_number);
        i = i + 1;
    }
    assert(faults@.take(faults@.len() as int) =~= faults@);
    out
}

/// The kinds of errors, on this machine.
pub fn fault_kinds(faults: &Vec<SystemFault>) -> (r: Vec<FaultKind>)
    ensures
        exists|numbers: ErrorNumbers| r@ == #[trigger] kinds_of(faults@, numbers),
{
    kinds_by_number(faults, error_numbers())
}

/// Whether a fault passes: where files, memory or something else is short for now.
pub open spec fn passes(kind: FaultKind) -> bool {
    match kind {
        FaultKind::TooManyFiles => true,
        FaultKind::FileTableFull => true,
        FaultKind::TryAgain => true,
        FaultKind::NoMemory => true,
        FaultKind::WouldBlock => true,
        FaultKind::OutOfMemory => true,
        FaultKind::Other => false,
    }
}

pub open spec fn any_passes(faults: Seq<FaultKind>) -> bool {
    exists|i: int| 0 <= i < faults.len() && passes(#[trigger] faults[i])
}

/// Whether a child that could not be started is worth another try: where any fault on the way
/// passes.
pub fn is_replayable_spawn_error(faults: &Vec<FaultKind>) -> (r: bool)
    ensures
        r == exists|i: int| 0 <= i < faults@.len() && passes(#[trigger] faults@[i]),
{
    let mut i: usize = 0;
    while i < faults.len()
        invariant
            i <= faults@.len(),
            forall|k: int| 0 <= k < i ==> !passes(#[trigger] faults@[k]),
        decreases faults@.len() - i,
    {
        match faults[i] {
            FaultKind::Other => {},
            _ => {
                assert(passes(faults@[i as int]));
                return true;
            },
        }
        i = i + 1;
    }
    false
}

// A run that ended.

/// What came of a child: it ended, or it could not be started.
pub enum RunOutcome {
    Ended(SpawnResult),
    NotStarted { failure: DeliveryFailure },
}

/// What is made of a run.
pub enum RunCompletion {
    /// A lock was busy: the delivery is put off.
    LockBusy { lock: Option<String> },
    /// The delivery failed.
    Failed { failure: DeliveryFailure },
    /// The delivery is done, but nothing was raised on the way: what its output raises is
    /// published.
    PublishOutput,
    /// The delivery is done.
    Done,
}

/// Whether this is what is made of a run.
pub open spec fn completes(
    outcome: RunOutcome,
    lock_busy_exit_code: i32,
    lock: Option<String>,
    publish_error: Option<String>,
    raised: usize,
    r: RunCompletion,
) -> bool {
    match outcome {
        RunOutcome::Ended(result) => if result.exit_code == lock_busy_exit_code {
            r matches RunCompletion::LockBusy { lock: l } && l == lock
        } else if result.exit_code != 0 {
            r matches RunCompletion::Failed { failure } && failure@ == exit_failure(
                result.exit_code,
                result.stderr@,
            )
        } else if publish_error is Some {
            r matches RunCompletion::Failed { failure } && failure@ == publish_failure(
                publish_error->0@,
            )
        } else if raised == 0 {
            r is PublishOutput
        } else {
            r is Done
        },
        RunOutcome::NotStarted { failure: f } => r matches RunCompletion::Failed { failure }
            && failure == f,
    }
}

/// What is made of a run: whether a lock was busy by its exit code, else whether it ended well and
/// what it raised could be published.
pub fn run_completion(
    outcome: RunOutcome,
    lock_busy_exit_code: i32,
    lock: Option<String>,
    publish_error: Option<String>,
    raised: usize,
) -> (r: RunCompletion)
    ensures
        completes(outcome, lock_busy_exit_code, lock, publish_error, raised, r),
{
    match outcome {
        RunOutcome::Ended(result) => {
            if result.exit_code == lock_busy_exit_code {
                return RunCompletion::LockBusy { lock };
            }
            if result.exit_code != 0 {
                return RunCompletion::Failed {
                    failure: DeliveryFailure::from_spawn_result(&result),
                };
            }
            match publish_error {
                Some(error) => RunCompletion::Failed {
                    failure: raised_publish_failure(error.as_str()),
                },
                None => if raised == 0 {
                    RunCompletion::PublishOutput
                } else {
                    RunCompletion::Done
                },
            }
        },
        RunOutcome::NotStarted { failure } => RunCompletion::Failed { failure },
    }
}

/// A delivery whose events could not be published.
pub open spec fn publish_failure(error: Seq<char>) -> FailureView {
    FailureView { message: "raised publish error: "@ + error, replayable: false }
}

pub fn raised_publish_failure(error: &str) -> (r: DeliveryFailure)
    ensures
        r@ == publish_failure(error@),
{
    let mut message: String = copy_text("raised publish error: ");
    message.append(error);
    DeliveryFailure::permanent(message)
}

/// What a child of an ephemeral event leaves to do.
#[derive(Clone, Copy, Debug, PartialEq, Eq, Structural)]
pub enum EphemeralCompletion {
    /// A lock was busy: the event is dropped, and that is told.
    LockBusy,
    /// Nothing.
    Nothing,
    /// What was raised could not be published: that is told.
    PublishFailed,
    /// What the output raises is published.
    PublishOutput,
}

/// What a child of an ephemeral event leaves to do.
pub open spec fn ephemeral_leaves(
    exit_code: i32,
    lock_busy_exit_code: i32,
    publish_failed: bool,
    raised_observed: bool,
) -> EphemeralCompletion {
    if exit_code == lock_busy_exit_code {
        EphemeralCompletion::LockBusy
    } else if exit_code != 0 {
        EphemeralCompletion::Nothing
    } else if publish_failed {
        EphemeralCompletion::PublishFailed
    } else if !raised_observed {
        EphemeralCompletion::PublishOutput
    } else {
        EphemeralCompletion::Nothing
    }
}

/// What is made of a child of an ephemeral event that ended.
pub fn ephemeral_completion(
    exit_code: i32,
    lock_busy_exit_code: i32,
    publish_failed: bool,
    raised_observed: bool,
) -> (r: EphemeralCompletion)
    ensures
        r == ephemeral_leaves(exit_code, lock_busy_exit_code, publish_failed, raised_observed),
{
    if exit_code == lock_busy_exit_code {
        EphemeralCompletion::LockBusy
    } else if exit_code != 0 {
        EphemeralCompletion::Nothing
    } else if publish_failed {
        EphemeralCompletion::PublishFailed
    } else if !raised_observed {
        EphemeralCompletion::PublishOutput
    } else {
        EphemeralCompletion::Nothing
    }
}

/// What is done with a delivery whose run has ended.
pub enum FinishAction {
    /// It is put off.
    Defer { lock: Option<String> },
    /// It is given back as failed.
    Retry { failure: DeliveryFailure },
    /// It failed, and the department wants no further attempts: it is dropped.
    Drop,
    /// It is done.
    Ack,
}

/// Whether this is what is done with a delivery whose run has ended.
pub open spec fn finishes(completion: RunCompletion, has_retry_policy: bool, r: FinishAction) -> bool {
    match completion {
        RunCompletion::LockBusy { lock } => r matches FinishAction::Defer { lock: l } && l
            == lock,
        RunCompletion::Failed { failure } => if has_retry_policy {
            r matches FinishAction::Retry { failure: f } && f == failure
        } else {
            r is Drop
        },
        RunCompletion::PublishOutput => r is Ack,
        RunCompletion::Done => r is Ack,
    }
}

/// What is done with a delivery whose run has ended.
pub fn finish_action(completion: RunCompletion, has_retry_policy: bool) -> (r: FinishAction)
    ensures
        finishes(completion, has_retry_policy, r),
{
    match completion {
        RunCompletion::LockBusy { lock } => FinishAction::Defer { lock },
        RunCompletion::Failed { failure } => if has_retry_policy {
            FinishAction::Retry { failure }
        } else {
            FinishAction::Drop
        },
        RunCompletion::PublishOutput => FinishAction::Ack,
        RunCompletion::Done => FinishAction::Ack,
    }
}

/// The failure of a run that a test made up.
pub fn test_completion_failure(exit_code: i32, error: Option<String>) -> (r: Option<
    DeliveryFailure,
>)
    ensures
        match r {
            None => exit_code == 0,
            Some(failure) => exit_code != 0 && failure@ == (FailureView {
                message: match error {
                    Some(e) => e@,
                    None => "exit="@ + signed_decimal(exit_code as int),
                },
                replayable: exit_code == 124,
            }),
        },
{
    if exit_code == 0 {
        return None;
    }
    let message: String = match error {
        Some(e) => e,
        None => {
            let mut out: String = copy_text("exit=");
            push_signed(&mut out, exit_code as i64);
            out
        },
    };
    Some(
        DeliveryFailure { message, replayable: is_replayable_framework_exit_code(exit_code) },
    )
}

// What is told.

/// A line of the journal about a delivery.
pub struct DeliveryNote {
    pub event: String,
    pub fields: Vec<Field>,
}

pub open spec fn is_note(
    note: DeliveryNote,
    event: Seq<char>,
    dept: Seq<char>,
    delivery_id: Seq<char>,
    reason: Seq<char>,
) -> bool {
    note.event@ == event && fields_view(note.fields@) == seq![
        ("dept"@, dept),
        ("delivery_id"@, delivery_id),
        ("reason"@, reason),
    ]
}

fn delivery_note(event: &str, dept: &str, delivery_id: &str, reason: &str) -> (r: DeliveryNote)
    ensures
        is_note(r, event@, dept@, delivery_id@, reason@),
{
    let fields: Vec<Field> = vec![
        field("dept", dept),
        field("delivery_id", delivery_id),
        field("reason", reason),
    ];
    assert(fields_view(fields@) =~= seq![
        ("dept"@, dept@),
        ("delivery_id"@, delivery_id@),
        ("reason"@, reason@),
    ]);
    DeliveryNote { event: copy_text(event), fields }
}

fn failed_reason(error: &str) -> (r: String)
    ensures
        r@ == "failed:"@ + error@,
{
    let mut out: String = copy_text("failed:");
    out.append(error);
    out
}

/// What is told of a delivery that was taken out.
pub fn ack_note(dept: &str, delivery_id: &str, result: Result<bool, &str>) -> (r: DeliveryNote)
    ensures
        is_note(
            r,
            "acked"@,
            dept@,
            delivery_id@,
            match result {
                Ok(true) => "completed"@,
                Ok(false) => "stale_or_missing"@,
                Err(e) => "failed:"@ + e@,
            },
        ),
{
    match result {
        Ok(true) => delivery_note("acked", dept, delivery_id, "completed"),
        Ok(false) => delivery_note("acked", dept, delivery_id, "stale_or_missing"),
        Err(e) => {
            let reason: String = failed_reason(e);
            delivery_note("acked", dept, delivery_id, reason.as_str())
        },
    }
}

/// What is told of a delivery that was dropped.
pub fn drop_note(dept: &str, delivery_id: &str) -> (r: DeliveryNote)
    ensures
        is_note(r, "acked"@, dept@, delivery_id@, "dropped_no_retry_policy"@),
{
    delivery_note("acked", dept, delivery_id, "dropped_no_retry_policy")
}

/// What is told of a delivery that was given back as failed; nothing of one that is dead for good
/// where what is left of it is not found.
pub fn retry_note(
    dept: &str,
    delivery_id: &str,
    failure: &str,
    result: Result<RetryOutcome, &str>,
    tombstone_found: bool,
) -> (r: Option<DeliveryNote>)
    ensures
        match (result, r) {
            (Ok(RetryOutcome::DeadPendingRedrive), Some(note)) => is_note(
                note,
                "dead_lettered"@,
                dept@,
                delivery_id@,
                "dead_pending_redrive"@,
            ),
            (Ok(RetryOutcome::PermanentDead), Some(note)) => tombstone_found && is_note(
                note,
                "dead_lettered"@,
                dept@,
                delivery_id@,
                "permanent_dead"@,
            ),
            (Ok(RetryOutcome::PermanentDead), None) => !tombstone_found,
            (Ok(RetryOutcome::Scheduled), Some(note)) => is_note(
                note,
                "retried"@,
                dept@,
                delivery_id@,
                failure@,
            ),
            (Ok(RetryOutcome::Stale), Some(note)) => is_note(
                note,
                "retried"@,
                dept@,
                delivery_id@,
                "stale_or_missing"@,
            ),
            (Ok(RetryOutcome::Missing), Some(note)) => is_note(
                note,
                "retried"@,
                dept@,
                delivery_id@,
                "stale_or_missing"@,
            ),
            (Err(e), Some(note)) => is_note(
                note,
                "retried"@,
                dept@,
                delivery_id@,
                "failed:"@ + e@,
            ),
            _ => false,
        },
{
    match result {
        Ok(RetryOutcome::DeadPendingRedrive) => Some(
            delivery_note("dead_lettered", dept, delivery_id, "dead_pending_redrive"),
        ),
        Ok(RetryOutcome::PermanentDead) => if tombstone_found {
            Some(delivery_note("dead_lettered", dept, delivery_id, "permanent_dead"))
        } else {
            None
        },
        Ok(RetryOutcome::Scheduled) => Some(delivery_note("retried", dept, delivery_id, failure)),
        Ok(RetryOutcome::Stale) => Some(
            delivery_note("retried", dept, delivery_id, "stale_or_missing"),
        ),
        Ok(RetryOutcome::Missing) => Some(
            delivery_note("retried", dept, delivery_id, "stale_or_missing"),
        ),
        Err(e) => {
            let reason: String = failed_reason(e);
            Some(delivery_note("retried", dept, delivery_id, reason.as_str()))
        },
    }
}

/// The lock that the first of these words with `lock=` in front names.
pub open spec fn named_lock(words: Seq<Seq<char>>) -> Option<Seq<char>>
    decreases words.len(),
{
    if words.len() == 0 {
        None
    } else if "lock="@.is_prefix_of(words[0]) {
        Some(words[0].skip(5))
    } else {
        named_lock(words.drop_first())
    }
}

/// Which lock a child found busy, where it says so.
pub open spec fn busy_lock(stderr: Seq<char>) -> Option<Seq<char>> {
    if words(stderr).contains("error_class=lock_busy"@) {
        named_lock(words(stderr))
    } else {
        None
    }
}

pub fn lock_busy_key_from_stderr(stderr: &str) -> (r: Option<String>)
    ensures
        text_view(r) == busy_lock(stderr@),
{
    let list: Vec<String> = split_words(stderr);
    let ghost views = texts_view(list@);
    if !list_holds(&list, "error_class=lock_busy") {
        return None;
    }
    proof {
        reveal_strlit("lock=");
        assert("lock="@.len() == 5);
    }
    let mut i: usize = 0;
    assert(views.skip(0) =~= views);
    while i < list.len()
        invariant
            "lock="@.len() == 5,
            views == texts_view(list@),
            views == words(stderr@),
            views.contains("error_class=lock_busy"@),
            i <= list@.len(),
            named_lock(views) == named_lock(views.skip(i as int)),
        decreases list@.len() - i,
    {
        proof {
            assert(views.skip(i as int)[0] == list@[i as int]@);
            assert(views.skip(i as int).drop_first() =~= views.skip(i + 1));
        }
        if starts_with(list[i].as_str(), "lock=") {
            let chars: Vec<char> = to_chars(list[i].as_str());
            let name: String = text_of(&chars, 5, chars.len());
            assert(name@ =~= list@[i as int]@.skip(5));
            return Some(name);
        }
        i = i + 1;
    }
    None
}

/// What is told of a lock that was busy.
pub fn lock_busy_fields(
    dept: &str,
    queue: &str,
    delivery_id: Option<&str>,
    lock: Option<&str>,
    outcome: &str,
) -> (r: Vec<Field>)
    ensures
        fields_view(r@) == seq![
            ("dept"@, dept@),
            (
                "delivery_id"@,
                match delivery_id {
                    Some(id) => id@,
                    None => "ephemeral"@,
                },
            ),
            ("origin_queue"@, queue@),
            ("error_class"@, "lock_busy"@),
            (
                "lock"@,
                match lock {
                    Some(l) => l@,
                    None => "unknown"@,
                },
            ),
            ("outcome"@, outcome@),
        ],
{
    let id: &str = match delivery_id {
        Some(id) => id,
        None => "ephemeral",
    };
    let name: &str = match lock {
        Some(l) => l,
        None => "unknown",
    };
    let out: Vec<Field> = vec![
        field("dept", dept),
        field("delivery_id", id),
        field("origin_queue", queue),
        field("error_class", "lock_busy"),
        field("lock", name),
        field("outcome", outcome),
    ];
    assert(fields_view(out@) =~= seq![
        ("dept"@, dept@),
        ("delivery_id"@, id@),
        ("origin_queue"@, queue@),
        ("error_class"@, "lock_busy"@),
        ("lock"@, name@),
        ("outcome"@, outcome@),
    ]);
    out
}

/// What is told of a child.
pub open spec fn child_fields_of(
    dept: Seq<char>,
    pid: Seq<char>,
    exit_code: Seq<char>,
    elapsed_ms: Seq<char>,
    log_path: Seq<char>,
    reason: Seq<char>,
) -> Seq<(Seq<char>, Seq<char>)> {
    seq![
        ("dept"@, dept),
        ("pid"@, pid),
        ("exit_code"@, exit_code),
        ("elapsed_ms"@, elapsed_ms),
        ("log_path"@, log_path),
        ("reason"@, reason),
    ]
}

fn child_fields(
    dept: &str,
    pid: &str,
    exit_code: &str,
    elapsed_ms: &str,
    log_path: &str,
    reason: &str,
) -> (r: Vec<Field>)
    ensures
        fields_view(r@) == child_fields_of(dept@, pid@, exit_code@, elapsed_ms@, log_path@, reason@),
{
    let out: Vec<Field> = vec![
        field("dept", dept),
        field("pid", pid),
        field("exit_code", exit_code),
        field("elapsed_ms", elapsed_ms),
        field("log_path", log_path),
        field("reason", reason),
    ];
    assert(fields_view(out@) =~= child_fields_of(
        dept@,
        pid@,
        exit_code@,
        elapsed_ms@,
        log_path@,
        reason@,
    ));
    out
}

/// What is told of a child that was started.
pub fn child_spawn_fields(dept: &str, result: &SpawnResult) -> (r: Vec<Field>)
    ensures
        fields_view(r@) == child_fields_of(
            dept@,
            decimal(result.pid as nat),
            "pending"@,
            "0"@,
            optional_path_text(text_view(result.log_path)),
            "spawn_framework_run"@,
        ),
{
    let pid: String = decimal_text(result.pid as u64);
    let path: String = optional_path(&result.log_path);
    child_fields(dept, pid.as_str(), "pending", "0", path.as_str(), "spawn_framework_run")
}

/// What is told of a child that ended.
pub fn child_exit_fields(dept: &str, result: &SpawnResult) -> (r: Vec<Field>)
    ensures
        fields_view(r@) == child_fields_of(
            dept@,
            decimal(result.pid as nat),
            signed_decimal(result.exit_code as int),
            decimal(result.elapsed_ms as nat),
            optional_path_text(text_view(result.log_path)),
            "natural_exit"@,
        ),
{
    let pid: String = decimal_text(result.pid as u64);
    let code: String = signed_text(result.exit_code as i64);
    let mut elapsed: String = String::new();
    push_wide_decimal(&mut elapsed, result.elapsed_ms);
    assert(elapsed@ =~= decimal(result.elapsed_ms as nat));
    let path: String = optional_path(&result.log_path);
    child_fields(
        dept,
        pid.as_str(),
        code.as_str(),
        elapsed.as_str(),
        path.as_str(),
        "natural_exit",
    )
}

/// What is told of a child that could not be started; `step` says at which step.
pub fn child_failed_fields(dept: &str, step: &str, error: &str) -> (r: Vec<Field>)
    ensures
        fields_view(r@) == child_fields_of(
            dept@,
            "none"@,
            "none"@,
            "0"@,
            "none"@,
            step@ + ":"@ + error@,
        ),
{
    let mut reason: String = copy_text(step);
    reason.append(":");
    reason.append(error);
    child_fields(dept, "none", "none", "0", "none", reason.as_str())
}

// What is published.

/// The queue that takes the letter of a dead delivery: that of the namespace of the department, or
/// the common one where it has none. There is none for the letter of a letter.
pub open spec fn letter_queue(dept: Seq<char>, queue: Seq<char>) -> Option<Seq<char>> {
    let letters = match split_once(dept, '.') {
        Some((namespace, _)) => namespace + ".dead_letter"@,
        None => "dead_letter"@,
    };
    if queue == letters {
        None
    } else {
        Some(letters)
    }
}

pub fn dead_letter_queue(dept: &str, queue: &str) -> (r: Option<String>)
    ensures
        text_view(r) == letter_queue(dept@, queue@),
{
    let letters: String = match split_text_once(dept, '.') {
        Some((namespace, _)) => {
            let mut out: String = namespace;
            out.append(".dead_letter");
            out
        },
        None => copy_text("dead_letter"),
    };
    if same_text(queue, letters.as_str()) {
        None
    } else {
        Some(letters)
    }
}

/// Whether this is the letter of a dead delivery.
pub open spec fn is_letter_of(
    dead: DeadView,
    now_ms: u64,
    r: Option<PublishEnvelope>,
) -> bool {
    match (r, letter_queue(dead.dept, dead.queue)) {
        (Some(envelope), Some(queue)) => envelope.event@ == (EventView {
            queue,
            payload: dead_record_of(dead, now_ms),
            ts: now_ms,
        }) && source_view(envelope.source) == Some(
            SourceView {
                kind: SourceKind::External,
                reference: "dead/"@ + dead.delivery_id,
            },
        ) && envelope.cron_payload is None && envelope.derived is None,
        (None, None) => true,
        _ => false,
    }
}

/// The letter of a dead delivery.
pub fn dead_letter_envelope(dead: &DeadRecord, now_ms: u64) -> (r: Option<PublishEnvelope>)
    ensures
        is_letter_of(dead@, now_ms, r),
{
    let queue: String = match dead_letter_queue(dead.dept.as_str(), dead.queue.as_str()) {
        Some(queue) => queue,
        None => return None,
    };
    let mut reference: String = copy_text("dead/");
    reference.append(dead.delivery_id.as_str());
    Some(
        PublishEnvelope {
            event: Event { queue, payload: dead_record_payload(dead, now_ms), ts: now_ms },
            source: Some(SourceRef { kind: SourceKind::External, reference }),
            cron_payload: None,
            derived: None,
        },
    )
}

/// Whether a department may raise events for a queue: for any but the one on which the engine tells
/// of failures.
pub fn is_reserved_raised_queue(queue: &str) -> (r: bool)
    ensures
        r == (queue@ == "fkst.failure_fact"@),
{
    same_text(queue, "fkst.failure_fact")
}

/// What is said of an event that may not be raised.
pub fn reserved_queue_message(queue: &str) -> (r: String)
    ensures
        r@ == "reserved engine queue `"@ + queue@ + "` cannot be raised by department output"@,
{
    let mut out: String = copy_text("reserved engine queue `");
    out.append(queue);
    out.append("` cannot be raised by department output");
    out
}

/// Whether this is what an event that a delivery raised is published as.
pub open spec fn is_raised(
    envelope: PublishEnvelope,
    event: EventView,
    parent: DeliveryView,
    ordinal: nat,
) -> bool {
    &&& envelope.event@ == (EventView { ts: parent.observed_at_ms, ..event })
    &&& source_view(envelope.source) == parent.source
    &&& envelope.cron_payload is None
    &&& derived_view(envelope.derived) == Some(
        DerivedView { parent_delivery_id: parent.delivery_id, ordinal },
    )
}

/// An event that a delivery raised: at the time of the delivery, from its source, and known by its
/// place among all that the delivery raised. There is none for a reserved queue.
pub fn raised_envelope(event: Event, parent: &DeliveryRecord, ordinal: usize) -> (r: Option<
    PublishEnvelope,
>)
    ensures
        match r {
            Some(envelope) => event@.queue != "fkst.failure_fact"@ && is_raised(
                envelope,
                event@,
                parent@,
                ordinal as nat,
            ),
            None => event@.queue == "fkst.failure_fact"@,
        },
{
    if is_reserved_raised_queue(event.queue.as_str()) {
        return None;
    }
    Some(
        PublishEnvelope {
            event: Event {
                queue: event.queue,
                payload: event.payload,
                ts: parent.observed_at_ms,
            },
            source: copy_source(&parent.source),
            cron_payload: None,
            derived: Some(
                DerivedDelivery {
                    parent_delivery_id: copy_text(parent.delivery_id.as_str()),
                    ordinal,
                },
            ),
        },
    )
}

/// What is done with the next of the events that a delivery raised.
pub enum RaisedStep {
    /// There is none left.
    Done,
    /// It is published.
    Publish(PublishEnvelope),
    /// It may not be raised, which ends the publishing.
    Refused { message: String },
}

/// Takes the next of the events that a delivery raised, and the next number for it. An event that
/// may not be raised takes no number.
pub fn next_raised(
    events: &mut Vec<Event>,
    parent: &DeliveryRecord,
    next_ordinal: &mut usize,
) -> (r: RaisedStep)
    ensures
        old(events)@.len() == 0 ==> r is Done && final(events)@ == old(events)@
            && *final(next_ordinal) == *old(next_ordinal),
        old(events)@.len() > 0 ==> {
            let event = old(events)@[0]@;
            &&& final(events)@ == old(events)@.drop_first()
            &&& if event.queue == "fkst.failure_fact"@ {
                &&& r matches RaisedStep::Refused { message } && message@
                    == "reserved engine queue `"@ + event.queue
                    + "` cannot be raised by department output"@
                &&& *final(next_ordinal) == *old(next_ordinal)
            } else {
                &&& r matches RaisedStep::Publish(envelope) && is_raised(
                    envelope,
                    event,
                    parent@,
                    *old(next_ordinal) as nat,
                )
                &&& *final(next_ordinal) == if *old(next_ordinal) < usize::MAX {
                    *old(next_ordinal) + 1
                } else {
                    usize::MAX as int
                }
            }
        },
{
    if events.len() == 0 {
        return RaisedStep::Done;
    }
    let event: Event = events.remove(0);
    assert(events@ =~= old(events)@.drop_first());
    let queue: String = copy_text(event.queue.as_str());
    let ordinal: usize = *next_ordinal;
    match raised_envelope(event, parent, ordinal) {
        Some(envelope) => {
            *next_ordinal = ordinal.saturating_add(1);
            RaisedStep::Publish(envelope)
        },
        None => RaisedStep::Refused { message: reserved_queue_message(queue.as_str()) },
    }
}

/// An event that the child of an ephemeral event raised. There is none for a reserved queue.
pub fn ephemeral_raised_envelope(event: Event) -> (r: Option<PublishEnvelope>)
    ensures
        match r {
            Some(envelope) => event@.queue != "fkst.failure_fact"@ && envelope.event == event
                && envelope.source is None && envelope.cron_payload is None && envelope.derived
                is None,
            None => event@.queue == "fkst.failure_fact"@,
        },
{
    if is_reserved_raised_queue(event.queue.as_str()) {
        return None;
    }
    Some(PublishEnvelope { event, source: None, cron_payload: None, derived: None })
}

/// The event of a delivery.
pub open spec fn event_of(d: DeliveryView) -> EventView {
    EventView { queue: d.queue, payload: d.payload, ts: d.observed_at_ms }
}

/// The event of a delivery.
pub fn event_from_record(record: &DeliveryRecord) -> (r: Event)
    ensures
        r@ == event_of(record@),
{
    Event {
        queue: copy_text(record.queue.as_str()),
        payload: record.payload.copy(),
        ts: record.observed_at_ms,
    }
}

/// Whether a child must not use what an earlier child of the delivery left: where it is not the
/// first lease of the delivery.
pub fn requires_replay_scratch_bypass(record: &DeliveryRecord) -> (r: bool)
    ensures
        r == (record@.lease_generation > 1),
{
    record.lease_generation > 1
}

/// Where the file of a department is.
pub fn department_path(project_root: &str, lua: &str) -> (r: String)
    ensures
        r@ == joined(project_root@, lua@),
{
    join_path(project_root, lua)
}

} // verus!
