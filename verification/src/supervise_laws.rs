//! Laws of the supervisor: what it tells when it starts, what it starts, and how it stops; and of the
//! small rules that it goes by.

use vstd::prelude::*;
use vstd::string::*;
use crate::config::{DepartmentDecl, QueueDecl, RaiserDecl, RaiserKind};
use crate::cutting::join;
use crate::delivery_retry::{jitter_bound, jitter_of_hash};
use crate::delivery_router::{
    any_ephemeral, any_reliable, publish_error_text, reason_of, PublishEnvelope, PublishError,
    SubscriptionView,
};
use crate::delivery_store::{budget, lease_end};
use crate::delivery_types::DeliveryView;
use crate::dispatch::{child_fields_of, number_kind, passes, ErrorNumbers, FaultKind};
use crate::duration::millis;
use crate::event::EventView;
use crate::graph_scan::{mailbox_of, startup_fault};
use crate::journal::optional_path_text;
use crate::numeral::{bytes_hex, decimal, hex, hex_char, upper_hex_char};
use crate::record_text::{
    fields_of, has_name, known_members, read_items, read_part, shape_at, shape_of, Shape,
};
use crate::json_text::RawView;
use crate::retry_state::{buried, low_millis, RetryRecordView};
use crate::runtime_key::chunks;
use crate::source_runner::{duration_secs, file_payload_json};
use crate::store_model::tombstone;
use crate::supervise::{
    bool_word, raiser_fault, runs_as, starts_with, startup_fields_of, teardown, RaiserPlan,
    StartupEnvironment, StartupStep, StopSignal, TeardownStep,
};
use crate::text::texts_view;

verus! {

// Starting and stopping.

/// Whether a list of fields has a value under a name, and no other value under it.
pub open spec fn tells_field(
    fields: Seq<(Seq<char>, Seq<char>)>,
    name: Seq<char>,
    value: Seq<char>,
) -> bool {
    fields.contains((name, value)) && forall|i: int|
        0 <= i < fields.len() && (#[trigger] fields[i]).0 == name ==> fields[i].1 == value
}

/// What is told when the supervisor starts: each part of its environment under its name.
pub proof fn law_what_is_told_at_the_start(env: StartupEnvironment)
    ensures
        tells_field(startup_fields_of(env), "host_root"@, env.host_root@),
        tells_field(
            startup_fields_of(env),
            "package_roots"@,
            join(texts_view(env.package_roots@), seq![';']),
        ),
        tells_field(startup_fields_of(env), "framework_bin"@, env.framework_bin@),
        env.runtime_root matches Some(root) ==> tells_field(
            startup_fields_of(env),
            "runtime_root"@,
            root@,
        ),
        env.runtime_root is None ==> tells_field(
            startup_fields_of(env),
            "runtime_root"@,
            "unset"@,
        ),
        env.durable_root_set ==> tells_field(
            startup_fields_of(env),
            "durable_root_set"@,
            "true"@,
        ),
        !env.durable_root_set ==> tells_field(
            startup_fields_of(env),
            "durable_root_set"@,
            "false"@,
        ),
        tells_field(
            startup_fields_of(env),
            "package_roots_env_set"@,
            bool_word(env.package_roots_env_set),
        ),
        tells_field(
            startup_fields_of(env),
            "package_root_env_set"@,
            bool_word(env.package_root_env_set),
        ),
        bool_word(true) != bool_word(false),
{
    reveal_strlit(";");
    assert(";"@ =~= seq![';']);
    reveal_strlit("host_root");
    reveal_strlit("package_roots");
    reveal_strlit("framework_bin");
    reveal_strlit("runtime_root");
    reveal_strlit("durable_root_set");
    reveal_strlit("package_roots_env_set");
    reveal_strlit("package_root_env_set");
    reveal_strlit("true");
    reveal_strlit("false");
    assert("true"@.len() == 4 && "false"@.len() == 5);
    assert("host_root"@.len() == 9 && "package_roots"@.len() == 13 && "framework_bin"@.len() == 13
        && "runtime_root"@.len() == 12 && "durable_root_set"@.len() == 16
        && "package_roots_env_set"@.len() == 21 && "package_root_env_set"@.len() == 20);
    assert("package_roots"@[0] == 'p' && "framework_bin"@[0] == 'f');
    let f = startup_fields_of(env);
    assert(f.contains(f[0]) && f.contains(f[1]) && f.contains(f[2]) && f.contains(f[3])
        && f.contains(f[4]) && f.contains(f[5]) && f.contains(f[6]));
}

/// A department starts with a mailbox just where it can start and the mailbox has the room that its
/// queues ask for.
pub proof fn law_how_a_department_starts(
    queues: Seq<QueueDecl>,
    d: DepartmentDecl,
    capacity: usize,
    other: usize,
)
    ensures
        starts_with(queues, d, capacity) ==> startup_fault(queues, d) is None,
        starts_with(queues, d, capacity) && starts_with(queues, d, other) ==> capacity == other,
        starts_with(queues, d, capacity) ==> mailbox_of(queues, texts_view(d.consumes@)) == Some(
            Some(capacity),
        ),
{
}

/// A raiser by the clock runs at the interval that it says, and is refused where that is none; one
/// that watches files runs as such.
pub proof fn law_how_a_raiser_runs(raiser: RaiserDecl, plan: RaiserPlan)
    requires
        runs_as(raiser, plan),
    ensures
        raiser.kind is Cron <==> plan is Cron,
        raiser.kind matches RaiserKind::Cron { interval } ==> (plan matches RaiserPlan::Cron(d)
            && duration_secs(interval@) == Ok::<nat, crate::source_runner::DurationFault>(
            d@ / 1_000_000_000,
        ) && d@ % 1_000_000_000 == 0),
        raiser_fault(raiser) is None,
{
}

/// The supervisor ends the children, then its own tasks, and tells at last that it is done.
pub proof fn law_how_the_supervisor_stops()
    ensures
        teardown().len() == 3,
        teardown().first() == TeardownStep::TerminateProcessGroups,
        teardown().last() == TeardownStep::Complete,
        teardown().contains(TeardownStep::AbortRuntimeTasks),
        StopSignal::Interrupt.name() == "SIGINT"@,
        StopSignal::Terminate.name() == "SIGTERM"@,
        StartupStep::GraphScan.name() != StartupStep::SchemaValidation.name(),
{
    reveal_strlit("graph_scan:");
    reveal_strlit("schema_validation:");
    assert("graph_scan:"@.len() == 11 && "schema_validation:"@.len() == 18);
    assert(teardown()[1] == TeardownStep::AbortRuntimeTasks);
}

// Publishing.

/// A store is needed just where some department takes from a queue and does not say that it may lose
/// what it takes from there.
pub proof fn law_when_a_store_is_needed(ds: Seq<DepartmentDecl>, i: int, k: int)
    ensures
        0 <= i < ds.len() && 0 <= k < ds[i].consumes@.len() && !texts_view(
            ds[i].ephemeral@,
        ).contains(ds[i].consumes@[k]@) ==> any_reliable(ds),
        (forall|d: int, j: int|
            0 <= d < ds.len() && 0 <= j < ds[d].consumes@.len() ==> texts_view(
                ds[d].ephemeral@,
            ).contains(#[trigger] ds[d].consumes@[j]@)) ==> !any_reliable(ds),
{
    if 0 <= i < ds.len() && 0 <= k < ds[i].consumes@.len() && !texts_view(
        ds[i].ephemeral@,
    ).contains(ds[i].consumes@[k]@) {
        assert(texts_view(ds[i].consumes@)[k] == ds[i].consumes@[k]@);
    }
    if any_reliable(ds) {
        let (d, j) = choose|d: int, j: int|
            0 <= d < ds.len() && 0 <= j < ds[d].consumes@.len() && !texts_view(
                ds[d].ephemeral@,
            ).contains(#[trigger] texts_view((#[trigger] ds[d]).consumes@)[j]);
        assert(texts_view(ds[d].consumes@)[j] == ds[d].consumes@[j]@);
        assert(!texts_view(ds[d].ephemeral@).contains(ds[d].consumes@[j]@));
    }
}

/// Events may be lost just where some subscription is not reliable.
pub proof fn law_when_events_may_be_lost(s: Seq<SubscriptionView>)
    ensures
        any_ephemeral(s) <==> !(forall|i: int| 0 <= i < s.len() ==> (#[trigger] s[i]).reliable),
{
}

/// Why an event is published: it was raised, the time has come for it, it has a source, or none of
/// these; the four are told by different words.
pub proof fn law_why_an_event_is_published(e: PublishEnvelope)
    ensures
        e.derived is Some ==> reason_of(e) == "raised"@,
        e.derived is None && e.cron_payload is Some ==> reason_of(e) == "cron"@,
        e.derived is None && e.cron_payload is None && e.source is Some ==> reason_of(e)
            == "source"@,
        e.derived is None && e.cron_payload is None && e.source is None ==> reason_of(e)
            == "ephemeral"@,
        "raised"@ != "cron"@ && "raised"@ != "source"@ && "source"@ != "ephemeral"@,
{
    reveal_strlit("raised");
    reveal_strlit("cron");
    reveal_strlit("source");
    reveal_strlit("ephemeral");
    assert("raised"@.len() == 6 && "raised"@[0] == 'r');
    assert("source"@.len() == 6 && "source"@[0] == 's');
    assert("cron"@.len() == 4 && "ephemeral"@.len() == 9);
}

/// What is told of an event that cannot be published names the queue in front of the department, or
/// ends with the length of what is too long.
pub proof fn law_what_is_told_of_an_unpublished_event(queue: String, dept: String, bytes: usize)
    ensures
        ("queue `"@ + queue@).is_prefix_of(
            publish_error_text(PublishError::NoSubscriptions { queue }),
        ),
        ("reliable delivery to queue `"@ + queue@ + "` for dept `"@ + dept@).is_prefix_of(
            publish_error_text(PublishError::MissingSource { queue, dept }),
        ),
        decimal(bytes as nat).is_suffix_of(
            publish_error_text(PublishError::OversizedPayload { bytes }),
        ),
{
    let a = publish_error_text(PublishError::NoSubscriptions { queue });
    let front = "queue `"@ + queue@;
    assert(a.subrange(0, front.len() as int) =~= front);
    let b = publish_error_text(PublishError::MissingSource { queue, dept });
    let first = "reliable delivery to queue `"@ + queue@ + "` for dept `"@ + dept@;
    assert(b.subrange(0, first.len() as int) =~= first);
    let c = publish_error_text(PublishError::OversizedPayload { bytes });
    let last = decimal(bytes as nat);
    assert(c.subrange(c.len() - last.len(), c.len() as int) =~= last);
}

// Leases and retries.

/// A lease runs out when its length has passed, and a batch looks at eight keys for each delivery and
/// at one more for each that is left out.
pub proof fn law_how_long_a_lease_runs(now_ms: u64, lease: nat, limit: nat, excluded: nat)
    ensures
        now_ms + lease / 1_000_000 <= u64::MAX ==> lease_end(now_ms, lease) == now_ms + lease
            / 1_000_000,
        now_ms + lease / 1_000_000 > u64::MAX ==> lease_end(now_ms, lease) == u64::MAX,
        8 * limit + excluded <= usize::MAX ==> budget(limit, excluded) == 8 * limit + excluded,
        budget(limit, excluded) <= usize::MAX,
{
}

/// A delay is stretched by a quarter of it at most, and by nothing where the hash says nothing; every
/// stretch up to that can come.
pub proof fn law_a_delay_is_stretched_by_a_quarter(hash: u64, base: nat)
    ensures
        4 * jitter_of_hash(hash, base) <= base,
        jitter_of_hash(0, base) == 0,
        4 * (hash as nat) <= base ==> jitter_of_hash(hash, base) == hash,
{
    let bound = jitter_bound(base);
    assert(0 <= (hash as nat) % (bound + 1) < bound + 1) by (nonlinear_arith)
        requires
            bound >= 0,
    ;
    assert(0nat % (bound + 1) == 0) by (nonlinear_arith)
        requires
            bound >= 0,
    ;
    if 4 * (hash as nat) <= base {
        assert((hash as nat) <= bound);
        assert((hash as nat) % (bound + 1) == hash as nat) by (nonlinear_arith)
            requires
                0 <= hash as nat,
                (hash as nat) < bound + 1,
        ;
    }
}

/// What is left of a delivery that died is that delivery: one that can be sent again holds it whole,
/// and one that cannot is dead for good.
pub proof fn law_what_is_left_of_the_dead(d: DeliveryView, replayable: bool, now_ms: u64)
    ensures
        ({
            let t = tombstone(d, replayable, now_ms);
            &&& t.delivery_id == d.delivery_id && t.queue == d.queue && t.dept == d.dept
            &&& t.source == d.source
            &&& t.observed_at_ms == d.observed_at_ms && t.not_before_ms == d.not_before_ms
            &&& t.dead_at_ms == now_ms
            &&& t.attempts == d.attempt && t.redrive_count == d.redrive_count
            &&& t.error_excerpt == d.last_error_excerpt
            &&& t.replayable == replayable && t.permanent == !replayable
            &&& replayable ==> t.record == Some(d)
            &&& !replayable ==> t.record is None
        }),
{
}

/// What is left of a run that was tried too often tells what it ran on, for whom, and how it failed
/// last; the last attempt counts.
pub proof fn law_what_is_left_of_a_run(
    event: EventView,
    dept: Seq<char>,
    key: Seq<char>,
    current: RetryRecordView,
    error: Seq<char>,
    failed_at: Seq<char>,
)
    requires
        current.attempt < u64::MAX,
    ensures
        ({
            let b = buried(event, dept, key, current, error, failed_at);
            &&& b.original_queue == event.queue
            &&& b.payload == event.payload
            &&& b.dept == dept
            &&& b.dedup_key == key
            &&& b.attempts == current.attempt + 1
            &&& b.failed_at == failed_at
            &&& b.last_error_excerpt.is_prefix_of(crate::delivery_retry::one_line(error))
        }),
{
    crate::text_laws::law_an_excerpt_is_as_much_as_fits(
        error,
        crate::retry_state::RETRY_EXCERPT_LIMIT as nat,
    );
}

/// The milliseconds of a span are whole ones, as long as they fit.
pub proof fn law_whole_milliseconds(span: nat)
    requires
        span / 1_000_000 <= u64::MAX,
    ensures
        1_000_000 * low_millis(span) <= span < 1_000_000 * (low_millis(span) + 1),
        low_millis(span) == millis(span),
{
}

// What is told of children and faults.

/// What is told of a child stands under the name of each part.
pub proof fn law_what_is_told_of_a_child(
    dept: Seq<char>,
    pid: Seq<char>,
    exit_code: Seq<char>,
    elapsed_ms: Seq<char>,
    log_path: Seq<char>,
    reason: Seq<char>,
)
    ensures
        ({
            let f = child_fields_of(dept, pid, exit_code, elapsed_ms, log_path, reason);
            &&& tells_field(f, "dept"@, dept)
            &&& tells_field(f, "pid"@, pid)
            &&& tells_field(f, "exit_code"@, exit_code)
            &&& tells_field(f, "elapsed_ms"@, elapsed_ms)
            &&& tells_field(f, "log_path"@, log_path)
            &&& tells_field(f, "reason"@, reason)
        }),
{
    reveal_strlit("dept");
    reveal_strlit("pid");
    reveal_strlit("exit_code");
    reveal_strlit("elapsed_ms");
    reveal_strlit("log_path");
    reveal_strlit("reason");
    assert("dept"@.len() == 4 && "pid"@.len() == 3 && "exit_code"@.len() == 9 && "elapsed_ms"@.len()
        == 10 && "log_path"@.len() == 8 && "reason"@.len() == 6);
    let f = child_fields_of(dept, pid, exit_code, elapsed_ms, log_path, reason);
    assert(f.contains(f[0]) && f.contains(f[1]) && f.contains(f[2]) && f.contains(f[3])
        && f.contains(f[4]) && f.contains(f[5]));
}

/// The four numbers for what is short for now are known, and such a fault passes; any other does not.
pub proof fn law_which_numbers_pass(numbers: ErrorNumbers, n: i32)
    ensures
        passes(number_kind(Some(n), numbers)) <==> n == numbers.too_many_files || n
            == numbers.file_table_full || n == numbers.try_again || n == numbers.no_memory,
        !passes(number_kind(None, numbers)),
        number_kind(Some(numbers.too_many_files), numbers) == FaultKind::TooManyFiles,
{
}

/// A path is told as it is, and where there is none that is told.
pub proof fn law_how_a_path_is_told(path: Seq<char>)
    ensures
        optional_path_text(Some(path)) == path,
        optional_path_text(None) == "none"@,
{
}

/// A watched file is told by its path.
pub proof fn law_how_a_file_is_told(path: Seq<char>)
    ensures
        file_payload_json(path).text_at("path"@) == Some(path),
{
}

// Pieces and digits.

/// The pieces of a text are that text again, and none of them is longer than it may be; each but the
/// last is as long.
pub proof fn law_the_pieces_of_a_text(s: Seq<char>, size: nat, i: int)
    requires
        size > 0,
    ensures
        chunks(s, size).flatten() == s,
        0 <= i < chunks(s, size).len() ==> 0 < chunks(s, size)[i].len() <= size,
        0 <= i < chunks(s, size).len() - 1 ==> chunks(s, size)[i].len() == size,
        s.len() == 0 ==> chunks(s, size).len() == 0,
    decreases s.len(),
{
    let all = chunks(s, size);
    if s.len() == 0 {
        assert(all.flatten() =~= s);
    } else if s.len() <= size {
        assert(all.drop_first() =~= Seq::<Seq<char>>::empty());
        assert(all.first() == s);
        assert(Seq::<Seq<char>>::empty().flatten() =~= Seq::<char>::empty());
        assert(all.flatten() =~= s);
    } else {
        let rest = s.skip(size as int);
        law_the_pieces_of_a_text(rest, size, i - 1);
        assert(all.drop_first() =~= chunks(rest, size));
        assert(all.first() == s.take(size as int));
        assert(all.flatten() =~= s.take(size as int) + rest);
        assert(s.take(size as int) + rest =~= s);
        assert(chunks(rest, size).len() > 0);
        if i > 0 && i < all.len() {
            assert(all[i] == chunks(rest, size)[i - 1]);
        }
    }
}

proof fn lemma_hex_chars(a: int, b: int)
    requires
        0 <= a < 16,
        0 <= b < 16,
        hex_char(a) == hex_char(b),
    ensures
        a == b,
{
}

/// The sixteen digits are `0` to `9` and behind them `a` to `f`, or `A` to `F` in upper case.
pub proof fn law_the_hexadecimal_digits(d: int)
    requires
        0 <= d < 16,
    ensures
        d <= 9 ==> hex_char(d) as int == '0' as int + d && upper_hex_char(d) == hex_char(d),
        d >= 10 ==> hex_char(d) as int == 'a' as int + (d - 10) && upper_hex_char(d) as int
            == 'A' as int + (d - 10),
{
}

/// Bytes are written with two digits each, and different bytes differently.
pub proof fn law_bytes_are_told_apart(a: Seq<u8>, b: Seq<u8>)
    ensures
        bytes_hex(a).len() == 2 * a.len(),
        bytes_hex(a) == bytes_hex(b) ==> a == b,
    decreases a.len(),
{
    if a.len() > 0 {
        law_bytes_are_told_apart(a.drop_last(), a.drop_last());
    }
    lemma_hex_len(b);
    if bytes_hex(a) == bytes_hex(b) {
        if a.len() == 0 {
            assert(a =~= b);
        } else {
            let s = bytes_hex(a);
            let t = bytes_hex(b);
            assert(a.len() == b.len());
            law_bytes_are_told_apart(a.drop_last(), b.drop_last());
            assert(s.take(s.len() - 2) =~= bytes_hex(a.drop_last()));
            assert(t.take(t.len() - 2) =~= bytes_hex(b.drop_last()));
            let x = a.last() as int;
            let y = b.last() as int;
            assert(s[s.len() - 2] == hex_char(x / 16) && s[s.len() - 1] == hex_char(x % 16));
            assert(t[t.len() - 2] == hex_char(y / 16) && t[t.len() - 1] == hex_char(y % 16));
            lemma_hex_chars(x / 16, y / 16);
            lemma_hex_chars(x % 16, y % 16);
            assert(x == y);
            assert(a =~= a.drop_last().push(a.last()));
            assert(b =~= b.drop_last().push(b.last()));
        }
    }
}

proof fn lemma_hex_len(a: Seq<u8>)
    ensures
        bytes_hex(a).len() == 2 * a.len(),
    decreases a.len(),
{
    if a.len() > 0 {
        lemma_hex_len(a.drop_last());
    }
}

/// The hexadecimal numerals of different numbers differ.
pub proof fn law_hex_numerals_differ(a: nat, b: nat)
    ensures
        hex(a).len() >= 1,
        hex(a) == hex(b) ==> a == b,
    decreases a,
{
    if a >= 16 {
        law_hex_numerals_differ(a / 16, a / 16);
    }
    lemma_hex_some(b);
    if hex(a) == hex(b) {
        let s = hex(a);
        let t = hex(b);
        assert(s.last() == hex_char((a % 16) as int));
        assert(t.last() == hex_char((b % 16) as int));
        lemma_hex_chars((a % 16) as int, (b % 16) as int);
        if a >= 16 && b >= 16 {
            assert(s.drop_last() =~= hex(a / 16));
            assert(t.drop_last() =~= hex(b / 16));
            law_hex_numerals_differ(a / 16, b / 16);
        } else if a >= 16 {
            assert(t.len() == 1);
        } else if b >= 16 {
            lemma_hex_some(b / 16);
            assert(s.len() == 1);
        }
    }
}

proof fn lemma_hex_some(a: nat)
    ensures
        hex(a).len() >= 1,
    decreases a,
{
    if a >= 16 {
        lemma_hex_some(a / 16);
    }
}

// What is read of a record.

/// A member that a record does not know is passed over, and one that it knows may not come twice.
pub proof fn law_which_members_are_read(ms: Seq<RawView>, m: RawView, shape: Shape)
    requires
        shape != Shape::Any,
        shape != Shape::Kind,
    ensures
        !fields_of(shape).contains(m.name) ==> known_members(ms.push(m), shape) == known_members(
            ms,
            shape,
        ),
        known_members(ms, shape) matches Some(front) && fields_of(shape).contains(m.name) && has_name(
            front,
            m.name,
        ) ==> known_members(ms.push(m), shape) is None,
        fields_of(Shape::Delivery).contains("payload"@),
        fields_of(Shape::Dead).contains("record"@),
        shape_of(Shape::Dead, "record"@) == Shape::Delivery,
        shape_of(Shape::Delivery, "source"@) == Shape::Source,
        shape_of(Shape::Dead, "source"@) == Shape::Source,
{
    assert(ms.push(m).drop_last() =~= ms);
    assert(fields_of(Shape::Delivery)[3] == "payload"@);
    assert(fields_of(Shape::Dead)[12] == "record"@);
    reveal_strlit("record");
    reveal_strlit("source");
    assert("record"@[0] == 'r' && "source"@[0] == 's');
    reveal_with_fuel(known_members, 2);
}

/// Each item of a list is read by itself, in their order, or the list is not read.
pub proof fn law_each_item_is_read(items: Seq<Seq<u8>>, shape: Shape, i: int)
    requires
        shape != Shape::Any,
    ensures
        read_items(items, shape) matches Some(read) ==> read.len() == items.len() && (0 <= i
            < items.len() ==> Some(read[i]) == read_part(items[i], shape_at(shape, i))),
        0 <= i < items.len() && read_part(items[i], shape_at(shape, i)) is None ==> read_items(
            items,
            shape,
        ) is None,
    decreases items.len(),
{
    if items.len() > 0 {
        law_each_item_is_read(items.drop_last(), shape, i);
        if 0 <= i < items.len() - 1 {
            assert(items.drop_last()[i] == items[i]);
        }
        reveal_with_fuel(read_items, 2);
    }
}

} // verus!
