//! What the supervisor does when it starts and when it stops.

use vstd::prelude::*;
use vstd::string::*;
use crate::config::{Config, DepartmentDecl, QueueDecl, RaiserDecl, RaiserKind};
use crate::cutting::join;
use crate::delivery_router::{any_reliable, has_reliable_subscriptions};
use crate::duration::Duration;
use crate::graph_scan::{
    department_capacity, mailbox_of, startup_fault, StartupError,
};
use crate::journal::{field, fields_view, Field};
use crate::paths::path_list;
use crate::source_runner::{
    duration_in_range, duration_secs, parse_duration, DurationError, DurationFault,
};
use crate::text::{copy_text, texts_view};

verus! {

// Starting.

/// What the journal says when the supervisor starts.
pub struct StartupEnvironment {
    pub host_root: String,
    pub package_roots: Vec<String>,
    pub framework_bin: String,
    pub runtime_root: Option<String>,
    pub durable_root_set: bool,
    pub package_roots_env_set: bool,
    pub package_root_env_set: bool,
}

pub open spec fn bool_word(b: bool) -> Seq<char> {
    if b {
        "true"@
    } else {
        "false"@
    }
}

fn bool_text(b: bool) -> (r: &'static str)
    ensures
        r@ == bool_word(b),
{
    if b {
        "true"
    } else {
        "false"
    }
}

pub open spec fn startup_fields_of(env: StartupEnvironment) -> Seq<(Seq<char>, Seq<char>)> {
    seq![
        ("host_root"@, env.host_root@),
        ("package_roots"@, join(texts_view(env.package_roots@), ";"@)),
        ("framework_bin"@, env.framework_bin@),
        (
            "runtime_root"@,
            match env.runtime_root {
                Some(root) => root@,
                None => "unset"@,
            },
        ),
        ("durable_root_set"@, bool_word(env.durable_root_set)),
        ("package_roots_env_set"@, bool_word(env.package_roots_env_set)),
        ("package_root_env_set"@, bool_word(env.package_root_env_set)),
    ]
}

pub fn startup_fields(env: &StartupEnvironment) -> (r: Vec<Field>)
    ensures
        fields_view(r@) == startup_fields_of(*env),
{
    let roots: String = path_list(&env.package_roots);
    let runtime_root: &str = match &env.runtime_root {
        Some(root) => root.as_str(),
        None => "unset",
    };
    let fields: Vec<Field> = vec![
        field("host_root", env.host_root.as_str()),
        field("package_roots", roots.as_str()),
        field("framework_bin", env.framework_bin.as_str()),
        field("runtime_root", runtime_root),
        field("durable_root_set", bool_text(env.durable_root_set)),
        field("package_roots_env_set", bool_text(env.package_roots_env_set)),
        field("package_root_env_set", bool_text(env.package_root_env_set)),
    ];
    assert(fields_view(fields@) =~= startup_fields_of(*env));
    fields
}

/// At which step the supervisor could not start.
#[derive(Clone, Copy, Debug, PartialEq, Eq, Structural)]
pub enum StartupStep {
    GraphScan,
    SchemaValidation,
}

impl StartupStep {
    pub open spec fn name(self) -> Seq<char> {
        match self {
            StartupStep::GraphScan => "graph_scan:"@,
            StartupStep::SchemaValidation => "schema_validation:"@,
        }
    }
}

/// What the journal says of a start that failed.
pub fn startup_failed_fields(step: StartupStep, message: &str) -> (r: Vec<Field>)
    ensures
        fields_view(r@) == seq![("reason"@, step.name() + message@)],
{
    let mut reason: String = copy_text(
        match step {
            StartupStep::GraphScan => "graph_scan:",
            StartupStep::SchemaValidation => "schema_validation:",
        },
    );
    reason.append(message);
    let fields: Vec<Field> = vec![field("reason", reason.as_str())];
    assert(fields_view(fields@) =~= seq![("reason"@, step.name() + message@)]);
    fields
}

/// What is said where deliveries must be kept and there is no place to keep them.
pub const DURABLE_ROOT_MISSING: &'static str = "FKST_DURABLE_ROOT must be set";

/// Where deliveries are kept: nowhere, where no subscription is reliable, else below the durable
/// root, which must then be given.
pub fn delivery_store_for_config(departments: &Vec<DepartmentDecl>, durable_root: Option<String>)
    -> (r: Result<Option<String>, &'static str>)
    ensures
        !any_reliable(departments@) ==> r matches Ok(None),
        any_reliable(departments@) ==> match durable_root {
            Some(root) => r matches Ok(Some(kept)) && kept == root,
            None => r matches Err(text) && text@ == DURABLE_ROOT_MISSING@,
        },
{
    if !has_reliable_subscriptions(departments) {
        return Ok(None);
    }
    match durable_root {
        Some(root) => Ok(Some(root)),
        None => Err(DURABLE_ROOT_MISSING),
    }
}

/// Whether a department can start, with room for this many events.
pub open spec fn starts_with(queues: Seq<QueueDecl>, d: DepartmentDecl, capacity: usize) -> bool {
    &&& startup_fault(queues, d) is None
    &&& mailbox_of(queues, texts_view(d.consumes@)) == Some(Some(capacity))
}

/// How many events wait for each department at the most, or why the first department that cannot
/// start cannot.
pub fn plan_departments(cfg: &Config) -> (r: Result<Vec<usize>, StartupError>)
    ensures
        match r {
            Ok(capacities) => {
                &&& capacities@.len() == cfg.department@.len()
                &&& forall|i: int|
                    0 <= i < capacities@.len() ==> starts_with(
                        cfg.queue@,
                        cfg.department@[i],
                        #[trigger] capacities@[i],
                    )
            },
            Err(e) => exists|i: int|
                0 <= i < cfg.department@.len() && #[trigger] startup_fault(
                    cfg.queue@,
                    cfg.department@[i],
                ) == Some(e@) && forall|j: int|
                    0 <= j < i ==> startup_fault(cfg.queue@, #[trigger] cfg.department@[j]) is None,
        },
{
    let mut capacities: Vec<usize> = Vec::new();
    let mut i: usize = 0;
    while i < cfg.department.len()
        invariant
            i <= cfg.department@.len(),
            capacities@.len() == i,
            forall|j: int|
                0 <= j < i ==> starts_with(
                    cfg.queue@,
                    cfg.department@[j],
                    #[trigger] capacities@[j],
                ),
        decreases cfg.department@.len() - i,
    {
        match department_capacity(&cfg.queue, &cfg.department[i]) {
            Ok(n) => {
                capacities.push(n);
            },
            Err(e) => {
                proof {
                    assert forall|j: int| 0 <= j < i implies startup_fault(
                        cfg.queue@,
                        #[trigger] cfg.department@[j],
                    ) is None by {
                        assert(starts_with(cfg.queue@, cfg.department@[j], capacities@[j]));
                    }
                    assert(startup_fault(cfg.queue@, cfg.department@[i as int]) == Some(e@));
                }
                return Err(e);
            },
        }
        i = i + 1;
    }
    Ok(capacities)
}

/// How a raiser is run.
#[derive(Clone, Copy)]
pub enum RaiserPlan {
    Cron(Duration),
    FileWatch,
}

/// Whether the interval of a raiser, where it has one, is a text that can be read.
pub open spec fn raiser_in_range(raiser: RaiserDecl) -> bool {
    raiser.kind matches RaiserKind::Cron { interval } ==> duration_in_range(interval@)
}

/// Why a raiser cannot run, if it cannot.
pub open spec fn raiser_fault(raiser: RaiserDecl) -> Option<DurationFault> {
    match raiser.kind {
        RaiserKind::Cron { interval } => match duration_secs(interval@) {
            Ok(_) => None,
            Err(fault) => Some(fault),
        },
        RaiserKind::FileWatch { .. } => None,
    }
}

pub open spec fn runs_as(raiser: RaiserDecl, plan: RaiserPlan) -> bool {
    match (raiser.kind, plan) {
        (RaiserKind::Cron { interval }, RaiserPlan::Cron(d)) => duration_secs(interval@) matches Ok(
            secs,
        ) && d@ == secs * 1_000_000_000,
        (RaiserKind::FileWatch { .. }, RaiserPlan::FileWatch) => true,
        _ => false,
    }
}

/// How each raiser is run, or why the first that cannot run cannot.
pub fn plan_raisers(raisers: &Vec<RaiserDecl>) -> (r: Result<Vec<RaiserPlan>, DurationError>)
    requires
        forall|i: int| 0 <= i < raisers@.len() ==> raiser_in_range(#[trigger] raisers@[i]),
    ensures
        match r {
            Ok(plans) => plans@.len() == raisers@.len() && forall|i: int|
                0 <= i < plans@.len() ==> runs_as(raisers@[i], #[trigger] plans@[i]),
            Err(e) => exists|i: int|
                0 <= i < raisers@.len() && raiser_fault(#[trigger] raisers@[i]) == Some(e@)
                    && forall|j: int| 0 <= j < i ==> raiser_fault(#[trigger] raisers@[j]) is None,
        },
{
    let mut plans: Vec<RaiserPlan> = Vec::new();
    let mut i: usize = 0;
    while i < raisers.len()
        invariant
            i <= raisers@.len(),
            forall|i: int| 0 <= i < raisers@.len() ==> raiser_in_range(#[trigger] raisers@[i]),
            plans@.len() == i,
            forall|j: int| 0 <= j < i ==> runs_as(raisers@[j], #[trigger] plans@[j]),
            forall|j: int| 0 <= j < i ==> raiser_fault(#[trigger] raisers@[j]) is None,
        decreases raisers@.len() - i,
    {
        assert(raiser_in_range(raisers@[i as int]));
        match &raisers[i].kind {
            RaiserKind::Cron { interval } => match parse_duration(interval.as_str()) {
                Ok(d) => {
                    plans.push(RaiserPlan::Cron(d));
                },
                Err(e) => {
                    assert(raiser_fault(raisers@[i as int]) == Some(e@));
                    return Err(e);
                },
            },
            RaiserKind::FileWatch { .. } => {
                plans.push(RaiserPlan::FileWatch);
            },
        }
        i = i + 1;
    }
    Ok(plans)
}

// Stopping.

/// A signal that stops the supervisor.
#[derive(Clone, Copy, Debug, PartialEq, Eq, Structural)]
pub enum StopSignal {
    Interrupt,
    Terminate,
}

impl StopSignal {
    pub open spec fn name(self) -> Seq<char> {
        match self {
            StopSignal::Interrupt => "SIGINT"@,
            StopSignal::Terminate => "SIGTERM"@,
        }
    }

    pub fn as_str(self) -> (r: &'static str)
        ensures
            r@ == self.name(),
    {
        match self {
            StopSignal::Interrupt => "SIGINT",
            StopSignal::Terminate => "SIGTERM",
        }
    }
}

/// What the journal says of a signal that came.
pub fn signal_fields(signal: StopSignal) -> (r: Vec<Field>)
    ensures
        fields_view(r@) == seq![("signal"@, signal.name())],
{
    let fields: Vec<Field> = vec![field("signal", signal.as_str())];
    assert(fields_view(fields@) =~= seq![("signal"@, signal.name())]);
    fields
}

/// What the journal says of the stop that a signal brings about.
pub fn shutdown_fields(signal: StopSignal) -> (r: Vec<Field>)
    ensures
        fields_view(r@) == seq![("reason"@, "signal:"@ + signal.name())],
{
    let mut reason: String = copy_text("signal:");
    reason.append(signal.as_str());
    let fields: Vec<Field> = vec![field("reason", reason.as_str())];
    assert(fields_view(fields@) =~= seq![("reason"@, "signal:"@ + signal.name())]);
    fields
}

/// A step of the stop.
#[derive(Clone, Copy, Debug, PartialEq, Eq, Structural)]
pub enum TeardownStep {
    TerminateProcessGroups,
    AbortRuntimeTasks,
    Complete,
}

impl TeardownStep {
    pub open spec fn name(self) -> Seq<char> {
        match self {
            TeardownStep::TerminateProcessGroups => "terminate_process_groups"@,
            TeardownStep::AbortRuntimeTasks => "abort_runtime_tasks"@,
            TeardownStep::Complete => "complete"@,
        }
    }

    pub fn as_str(self) -> (r: &'static str)
        ensures
            r@ == self.name(),
    {
        match self {
            TeardownStep::TerminateProcessGroups => "terminate_process_groups",
            TeardownStep::AbortRuntimeTasks => "abort_runtime_tasks",
            TeardownStep::Complete => "complete",
        }
    }

    /// What the journal says of a step, before it is done.
    pub fn fields(self) -> (r: Vec<Field>)
        ensures
            fields_view(r@) == seq![("step"@, self.name())],
    {
        let fields: Vec<Field> = vec![field("step", self.as_str())];
        assert(fields_view(fields@) =~= seq![("step"@, self.name())]);
        fields
    }
}

pub open spec fn teardown() -> Seq<TeardownStep> {
    seq![
        TeardownStep::TerminateProcessGroups,
        TeardownStep::AbortRuntimeTasks,
        TeardownStep::Complete,
    ]
}

/// The steps of the stop, in their order: children are ended while the tasks that own them are
/// still there.
pub fn teardown_steps() -> (r: Vec<TeardownStep>)
    ensures
        r@ == teardown(),
{
    let steps: Vec<TeardownStep> = vec![
        TeardownStep::TerminateProcessGroups,
        TeardownStep::AbortRuntimeTasks,
        TeardownStep::Complete,
    ];
    assert(steps@ =~= teardown());
    steps
}

} // verus!
