//! Firing a raiser in a test: what it emits, where that goes, and what is told of it.

use vstd::prelude::*;
use vstd::string::*;
use crate::config::{department_names, DepartmentDecl, RaiserDecl, RaiserKind};
use crate::delivery_router::{
    law_routes_are_the_subscriptions, subscription_views, subscriptions_of, DeliveryRouter,
    SubscriptionView,
};
use crate::json::{Json, JsonView};
use crate::source_runner::{
    cron_emission, cron_payload_json, cron_reference, EmissionView, SourceEmission,
};
use crate::delivery_types::{SourceKind, SourceView};
use crate::tables::ascending;
use crate::text::{copy_optional_text, copy_text, text_view, texts_view};

verus! {

pub const TEST_CRON_SLOT_MS: u64 = 0;

pub const TEST_OBSERVED_AT_MS: u64 = 0;

/// What is done to fire a raiser.
pub enum FireAction {
    /// This is emitted.
    Emit(SourceEmission),
    /// What a file watch emits for this file.
    Watch { fixture: String },
}

/// Why a raiser cannot be fired.
#[derive(Clone, Copy, Debug, PartialEq, Eq, Structural)]
pub enum FireError {
    FixtureForCron,
    FixtureMissing,
}

impl FireError {
    pub fn message(self) -> (r: &'static str)
        ensures
            r@ == match self {
                FireError::FixtureForCron => "cron fire_raiser does not accept a fixture"@,
                FireError::FixtureMissing => "file_watch fire_raiser requires opts.fixture"@,
            },
    {
        match self {
            FireError::FixtureForCron => "cron fire_raiser does not accept a fixture",
            FireError::FixtureMissing => "file_watch fire_raiser requires opts.fixture",
        }
    }
}

/// What a cron raiser emits in a test.
pub open spec fn test_emission(name: Seq<char>, produces: Seq<char>) -> EmissionView {
    EmissionView {
        queue: produces,
        payload: cron_payload_json(name),
        observed_at_ms: TEST_OBSERVED_AT_MS,
        source: SourceView {
            kind: SourceKind::Cron,
            reference: cron_reference(name, TEST_CRON_SLOT_MS),
        },
        cron_payload: Some(cron_payload_json(name)),
    }
}

/// What is done to fire a raiser: a cron raiser takes no fixture, and a file watch needs one.
pub fn source_emission(raiser: &RaiserDecl, fixture: &Option<String>) -> (r: Result<
    FireAction,
    FireError,
>)
    ensures
        match (raiser.kind, *fixture) {
            (RaiserKind::Cron { .. }, None) => r matches Ok(FireAction::Emit(e)) && e@
                == test_emission(raiser.name@, raiser.produces@),
            (RaiserKind::Cron { .. }, Some(_)) => r matches Err(FireError::FixtureForCron),
            (RaiserKind::FileWatch { .. }, Some(path)) => r matches Ok(
                FireAction::Watch { fixture },
            ) && fixture@ == path@,
            (RaiserKind::FileWatch { .. }, None) => r matches Err(FireError::FixtureMissing),
        },
{
    match (&raiser.kind, fixture) {
        (RaiserKind::Cron { .. }, None) => Ok(
            FireAction::Emit(
                cron_emission(
                    raiser.name.as_str(),
                    raiser.produces.as_str(),
                    TEST_CRON_SLOT_MS,
                    TEST_OBSERVED_AT_MS,
                ),
            ),
        ),
        (RaiserKind::Cron { .. }, Some(_)) => Err(FireError::FixtureForCron),
        (RaiserKind::FileWatch { .. }, Some(path)) => Ok(
            FireAction::Watch { fixture: copy_text(path.as_str()) },
        ),
        (RaiserKind::FileWatch { .. }, None) => Err(FireError::FixtureMissing),
    }
}

/// The departments of subscriptions.
pub open spec fn subscribed(s: Seq<SubscriptionView>) -> Seq<Seq<char>> {
    Seq::new(s.len(), |i: int| s[i].dept)
}

/// The departments that an event of a queue goes to.
pub fn routed_departments(departments: &Vec<DepartmentDecl>, queue: &str) -> (r: Vec<String>)
    requires
        ascending(department_names(departments@)),
    ensures
        texts_view(r@) == subscribed(subscriptions_of(departments@, queue@)),
{
    let router: DeliveryRouter = DeliveryRouter::new(departments);
    proof {
        law_routes_are_the_subscriptions(router.routes@, departments@, queue@);
    }
    let mut out: Vec<String> = Vec::new();
    match router.subscribers(queue) {
        Some(subs) => {
            let mut i: usize = 0;
            while i < subs.len()
                invariant
                    i <= subs@.len(),
                    out@.len() == i,
                    forall|j: int| 0 <= j < i ==> #[trigger] out@[j]@ == subs@[j].dept@,
                decreases subs@.len() - i,
            {
                out.push(copy_text(subs[i].dept.as_str()));
                i = i + 1;
            }
            proof {
                let views = subscription_views(subs@);
                assert(texts_view(out@) =~= subscribed(views));
            }
        },
        None => {
            assert(texts_view(out@) =~= Seq::<Seq<char>>::empty());
        },
    }
    out
}

/// What is told where nothing takes what a raiser emits.
pub fn no_consumer_message(raiser: &str, queue: &str) -> (r: String)
    ensures
        r@ == "raiser `"@ + raiser@ + "` produced queue `"@ + queue@ + "` with no consumer"@,
{
    let mut out: String = copy_text("raiser `");
    out.append(raiser);
    out.append("` produced queue `");
    out.append(queue);
    out.append("` with no consumer");
    out
}

/// What a department put into a queue.
pub struct Raised {
    pub queue: String,
    pub payload: Json,
}

/// How the run of one department ended.
pub struct ConsumerRun {
    pub consumer: String,
    pub exit_code: i32,
    pub error: Option<String>,
    pub raises: Vec<Raised>,
}

pub open spec fn status_word(accepted: bool) -> Seq<char> {
    if accepted {
        "accepted"@
    } else {
        "error"@
    }
}

/// How the run of a department is called.
pub fn consumer_status(exit_code: i32) -> (r: &'static str)
    ensures
        r@ == status_word(exit_code == 0),
{
    if exit_code == 0 {
        "accepted"
    } else {
        "error"
    }
}

pub open spec fn all_accepted(runs: Seq<ConsumerRun>) -> bool {
    forall|i: int| 0 <= i < runs.len() ==> (#[trigger] runs[i]).exit_code == 0
}

/// The first error of a row of runs.
pub open spec fn first_error(runs: Seq<ConsumerRun>) -> Option<Seq<char>>
    decreases runs.len(),
{
    if runs.len() == 0 {
        None
    } else if runs[0].error is Some {
        text_view(runs[0].error)
    } else {
        first_error(runs.drop_first())
    }
}

/// What is told of all runs together.
pub struct TraceStatus {
    pub status: &'static str,
    pub message: Option<String>,
}

/// All runs together are accepted where each of them is; the message is that of the first run that
/// has one.
pub fn aggregate_status(runs: &Vec<ConsumerRun>) -> (r: TraceStatus)
    ensures
        r.status@ == status_word(all_accepted(runs@)),
        text_view(r.message) == first_error(runs@),
{
    let mut accepted: bool = true;
    let mut message: Option<String> = None;
    let mut i: usize = 0;
    assert(runs@.skip(0) =~= runs@);
    while i < runs.len()
        invariant
            i <= runs@.len(),
            accepted == forall|j: int| 0 <= j < i ==> (#[trigger] runs@[j]).exit_code == 0,
            match message {
                Some(text) => first_error(runs@) == Some(text@),
                None => first_error(runs@) == first_error(runs@.skip(i as int)),
            },
        decreases runs@.len() - i,
    {
        proof {
            assert(runs@.skip(i as int)[0] == runs@[i as int]);
            assert(runs@.skip(i as int).drop_first() =~= runs@.skip(i + 1));
        }
        if runs[i].exit_code != 0 {
            accepted = false;
        }
        if message.is_none() {
            message = copy_optional_text(&runs[i].error);
        }
        i = i + 1;
    }
    let status: &'static str = if accepted {
        "accepted"
    } else {
        "error"
    };
    TraceStatus { status, message }
}

/// What one department put into one queue.
pub struct TraceRaised {
    pub consumer: String,
    pub queue: String,
    pub payload: Json,
}

pub open spec fn traces_view(v: Seq<TraceRaised>) -> Seq<(Seq<char>, Seq<char>, JsonView)> {
    Seq::new(v.len(), |i: int| (v[i].consumer@, v[i].queue@, v[i].payload@))
}

pub open spec fn raises_of(run: ConsumerRun) -> Seq<(Seq<char>, Seq<char>, JsonView)> {
    Seq::new(
        run.raises@.len(),
        |i: int| (run.consumer@, run.raises@[i].queue@, run.raises@[i].payload@),
    )
}

/// What the departments put into queues, run after run.
pub open spec fn all_raised(runs: Seq<ConsumerRun>) -> Seq<(Seq<char>, Seq<char>, JsonView)>
    decreases runs.len(),
{
    if runs.len() == 0 {
        Seq::empty()
    } else {
        all_raised(runs.drop_last()) + raises_of(runs.last())
    }
}

pub fn trace_raised(runs: &Vec<ConsumerRun>) -> (r: Vec<TraceRaised>)
    ensures
        traces_view(r@) == all_raised(runs@),
{
    let mut out: Vec<TraceRaised> = Vec::new();
    let mut i: usize = 0;
    assert(traces_view(out@) =~= all_raised(runs@.take(0)));
    while i < runs.len()
        invariant
            i <= runs@.len(),
            traces_view(out@) == all_raised(runs@.take(i as int)),
        decreases runs@.len() - i,
    {
        let run: &ConsumerRun = &runs[i];
        let ghost front = traces_view(out@);
        let ghost whole = raises_of(*run);
        let mut j: usize = 0;
        assert(front + whole.take(0) =~= front);
        while j < run.raises.len()
            invariant
                j <= run.raises@.len(),
                whole == raises_of(*run),
                traces_view(out@) == front + whole.take(j as int),
            decreases run.raises@.len() - j,
        {
            let ghost before = traces_view(out@);
            out.push(
                TraceRaised {
                    consumer: copy_text(run.consumer.as_str()),
                    queue: copy_text(run.raises[j].queue.as_str()),
                    payload: run.raises[j].payload.copy(),
                },
            );
            proof {
                assert(traces_view(out@) =~= before.push(whole[j as int]));
                assert(front + whole.take(j + 1) =~= (front + whole.take(j as int)).push(
                    whole[j as int],
                ));
            }
            j = j + 1;
        }
        proof {
            assert(whole.take(whole.len() as int) =~= whole);
            assert(runs@.take(i + 1).drop_last() =~= runs@.take(i as int));
            assert(runs@.take(i + 1).last() == *run);
        }
        i = i + 1;
    }
    assert(runs@.take(runs@.len() as int) =~= runs@);
    out
}

pub open spec fn source_word(kind: SourceKind) -> Seq<char> {
    match kind {
        SourceKind::Cron => "cron"@,
        SourceKind::File => "file_watch"@,
        SourceKind::Git => "git"@,
        SourceKind::External => "external"@,
    }
}

/// How the kind of a source is called in a trace.
pub fn source_kind_name(kind: SourceKind) -> (r: &'static str)
    ensures
        r@ == source_word(kind),
{
    match kind {
        SourceKind::Cron => "cron",
        SourceKind::File => "file_watch",
        SourceKind::Git => "git",
        SourceKind::External => "external",
    }
}

} // verus!
