//! Declaring departments and raisers one by one, and making a graph of them.

use vstd::prelude::*;
use vstd::string::*;
use crate::config::{
    department_names, queue_names, raiser_names, retry_view, Config, DepartmentDecl, QueueDecl,
    RaiserDecl, RetryDecl, RetryView,
};
use crate::graph_scan::{
    capacity_of, derive_queues, engine_error, engine_owns_none, fanout_error, fanouts_fit,
    first_undeclared, has_removed_glob, insert_department_decl, insert_raiser_decl, is_referenced,
    materialize_retry, produces_fit, queues_of, reject_engine_dead_letter_produces,
    reject_runtime_file_watch_glob, retry_of, seam_fault, seam_fits, sibling_error, stall_window,
    startup_fault, touches, validate_cross_package_produces, validate_published_seam, window_of,
    DeptRetrySetting, GraphError, StartupFault,
};
use crate::tables::ascending;
use crate::text::{copy_text, texts_view};

verus! {

/// What a department says of itself, with the names of its queues resolved. `providers` names, for
/// every queue that it puts events into, the provider in the engine that owns it, if any;
/// `dead_letters` says, for every queue that it takes from, whether that is one of dead letters.
pub struct DepartmentSpec {
    pub consumes: Vec<String>,
    pub produces: Vec<String>,
    pub fanout: Vec<String>,
    pub published_seam: Vec<String>,
    pub ephemeral: Vec<String>,
    pub graph_json: bool,
    pub stall_window: String,
    pub retry: DeptRetrySetting,
    pub providers: Vec<Option<String>>,
    pub dead_letters: Vec<bool>,
}

/// Where a department is declared: under which name of its own, as what in the graph, and by which
/// file of which package.
pub struct DepartmentPlace {
    pub own_name: String,
    pub name: String,
    pub lua: String,
    pub owner_root: String,
    pub owner_namespace: String,
}

/// What holds where a department says nothing.
pub struct DepartmentDefaults {
    pub stall_window: String,
    pub retry: RetryDecl,
}

/// The retries that a department says it wants.
pub open spec fn retry_said(spec: DepartmentSpec, defaults: DepartmentDefaults) -> Option<
    Option<RetryView>,
> {
    retry_of(
        spec.retry,
        defaults.retry@,
        spec.dead_letters@.contains(true),
        spec.dead_letters@.contains(false),
    )
}

/// Whether what a department says of itself can stand.
pub open spec fn spec_fits(
    spec: DepartmentSpec,
    place: DepartmentPlace,
    defaults: DepartmentDefaults,
) -> bool {
    &&& engine_owns_none(spec.providers@)
    &&& seam_fits(
        texts_view(spec.published_seam@),
        texts_view(spec.consumes@),
        place.owner_namespace@,
    )
    &&& retry_said(spec, defaults) is Some
}

/// What is said of a department that cannot stand.
pub open spec fn spec_error(
    spec: DepartmentSpec,
    place: DepartmentPlace,
    defaults: DepartmentDefaults,
    e: GraphError,
) -> bool {
    if !engine_owns_none(spec.providers@) {
        engine_error(spec.produces@, spec.providers@, place.own_name@, e)
    } else if !seam_fits(
        texts_view(spec.published_seam@),
        texts_view(spec.consumes@),
        place.owner_namespace@,
    ) {
        seam_fault(
            texts_view(spec.published_seam@),
            texts_view(spec.consumes@),
            place.owner_namespace@,
            place.own_name@,
            e,
        )
    } else {
        retry_said(spec, defaults) is None && e is MixedDeadLetter
    }
}

/// Whether a declaration is what a department says of itself.
pub open spec fn declares(
    d: DepartmentDecl,
    spec: DepartmentSpec,
    place: DepartmentPlace,
    defaults: DepartmentDefaults,
) -> bool {
    &&& d.name == place.name
    &&& d.lua == place.lua
    &&& d.owner_root == place.owner_root
    &&& d.owner_namespace == place.owner_namespace
    &&& d.consumes == spec.consumes
    &&& d.produces == spec.produces
    &&& d.fanout == spec.fanout
    &&& d.published_seam == spec.published_seam
    &&& d.ephemeral == spec.ephemeral
    &&& d.graph_json == spec.graph_json
    &&& d.stall_window@ == window_of(spec.stall_window@, defaults.stall_window@)
    &&& retry_said(spec, defaults) == Some(retry_view(d.retry))
}

/// The declaration of a department.
pub fn department_decl(
    spec: DepartmentSpec,
    place: DepartmentPlace,
    defaults: &DepartmentDefaults,
) -> (r: Result<DepartmentDecl, GraphError>)
    requires
        spec.produces@.len() == spec.providers@.len(),
    ensures
        match r {
            Ok(d) => spec_fits(spec, place, *defaults) && declares(d, spec, place, *defaults),
            Err(e) => !spec_fits(spec, place, *defaults) && spec_error(spec, place, *defaults, e),
        },
{
    match reject_engine_dead_letter_produces(
        &spec.produces,
        &spec.providers,
        place.own_name.as_str(),
    ) {
        Ok(_) => {},
        Err(e) => return Err(e),
    }
    match validate_published_seam(
        &spec.published_seam,
        &spec.consumes,
        place.owner_namespace.as_str(),
        place.own_name.as_str(),
    ) {
        Ok(_) => {},
        Err(e) => {
            proof {
                lemma_seam_fault(
                    texts_view(spec.published_seam@),
                    texts_view(spec.consumes@),
                    place.owner_namespace@,
                    place.own_name@,
                    e,
                );
            }
            return Err(e);
        },
    }
    let retry: Option<RetryDecl> = match materialize_retry(
        &spec.retry,
        &defaults.retry,
        &spec.dead_letters,
    ) {
        Ok(retry) => retry,
        Err(e) => return Err(e),
    };
    let window: String = stall_window(spec.stall_window.as_str(), defaults.stall_window.as_str());
    Ok(
        DepartmentDecl {
            name: place.name,
            lua: place.lua,
            owner_root: place.owner_root,
            owner_namespace: place.owner_namespace,
            consumes: spec.consumes,
            produces: spec.produces,
            fanout: spec.fanout,
            published_seam: spec.published_seam,
            ephemeral: spec.ephemeral,
            stall_window: window,
            graph_json: spec.graph_json,
            retry,
        },
    )
}

proof fn lemma_seam_fault(
    seam: Seq<Seq<char>>,
    consumes: Seq<Seq<char>>,
    namespace: Seq<char>,
    department: Seq<char>,
    e: GraphError,
)
    requires
        seam_fault(seam, consumes, namespace, department, e),
    ensures
        !seam_fits(seam, consumes, namespace),
{
}

/// Declares a department among others that stand in the order of their names.
pub fn declare_department(
    departments: &mut Vec<DepartmentDecl>,
    spec: DepartmentSpec,
    place: DepartmentPlace,
    defaults: &DepartmentDefaults,
) -> (r: Result<(), GraphError>)
    requires
        ascending(department_names(old(departments)@)),
        spec.produces@.len() == spec.providers@.len(),
    ensures
        ascending(department_names(final(departments)@)),
        match r {
            Ok(_) => {
                &&& spec_fits(spec, place, *defaults)
                &&& !department_names(old(departments)@).contains(place.name@)
                &&& exists|at: int, d: DepartmentDecl|
                    {
                        &&& 0 <= at <= old(departments)@.len()
                        &&& declares(d, spec, place, *defaults)
                        &&& final(departments)@ == #[trigger] old(departments)@.insert(at, d)
                    }
            },
            Err(e) => {
                &&& final(departments)@ == old(departments)@
                &&& if spec_fits(spec, place, *defaults) {
                    &&& department_names(old(departments)@).contains(place.name@)
                    &&& e matches GraphError::DuplicateDepartment { name, path } && name@
                        == place.name@ && path@ == place.lua@
                } else {
                    spec_error(spec, place, *defaults, e)
                }
            },
        },
{
    let path: String = copy_text(place.lua.as_str());
    let d: DepartmentDecl = match department_decl(spec, place, defaults) {
        Ok(d) => d,
        Err(e) => return Err(e),
    };
    insert_department_decl(departments, d, path.as_str())
}

/// Declares a raiser among others that stand in the order of their names.
pub fn declare_raiser(
    raisers: &mut Vec<RaiserDecl>,
    decl: RaiserDecl,
    config_path: &str,
) -> (r: Result<(), GraphError>)
    requires
        ascending(raiser_names(old(raisers)@)),
    ensures
        ascending(raiser_names(final(raisers)@)),
        match r {
            Ok(_) => {
                &&& !has_removed_glob(decl.kind)
                &&& !raiser_names(old(raisers)@).contains(decl.name@)
                &&& exists|at: int|
                    0 <= at <= old(raisers)@.len() && final(raisers)@ == #[trigger] old(
                        raisers,
                    )@.insert(at, decl)
            },
            Err(e) => {
                &&& final(raisers)@ == old(raisers)@
                &&& if has_removed_glob(decl.kind) {
                    e is RemovedGlob
                } else {
                    &&& raiser_names(old(raisers)@).contains(decl.name@)
                    &&& e matches GraphError::DuplicateRaiser { name, path } && name@ == decl.name@
                        && path@ == config_path@
                }
            },
        },
{
    match reject_runtime_file_watch_glob(&decl.kind) {
        Ok(_) => {},
        Err(e) => return Err(e),
    }
    insert_raiser_decl(raisers, decl, config_path)
}

/// Whether a graph is made of departments and raisers that fit together.
pub open spec fn is_graph(cfg: Config, capacity: usize) -> bool {
    &&& produces_fit(cfg.department@, cfg.raiser@)
    &&& fanouts_fit(cfg.department@)
    &&& queues_of(cfg.department@, cfg.raiser@, capacity, cfg.queue@)
}

/// The graph of departments and raisers, where they fit together. Whoever puts events into a queue
/// that is not open to it is refused before fanout is looked at.
pub fn assemble_graph(
    departments: Vec<DepartmentDecl>,
    raisers: Vec<RaiserDecl>,
    queue_capacity: usize,
    global_codex_processes: usize,
) -> (r: Result<Config, GraphError>)
    ensures
        match r {
            Ok(cfg) => {
                &&& cfg.department == departments
                &&& cfg.raiser == raisers
                &&& cfg.global_codex_processes == global_codex_processes
                &&& is_graph(cfg, queue_capacity)
            },
            Err(e) => sibling_error(departments@, raisers@, e) || produces_fit(
                departments@,
                raisers@,
            ) && fanout_error(departments@, e),
        },
{
    match validate_cross_package_produces(&departments, &raisers) {
        Ok(_) => {},
        Err(e) => return Err(e),
    }
    let queue: Vec<QueueDecl> = match derive_queues(&departments, &raisers, queue_capacity) {
        Ok(queue) => queue,
        Err(e) => return Err(e),
    };
    Ok(Config { queue, raiser: raisers, department: departments, global_codex_processes })
}

proof fn lemma_declared(queues: Seq<QueueDecl>, queue: Seq<char>)
    requires
        queue_names(queues).contains(queue),
    ensures
        capacity_of(queues, queue) is Some,
    decreases queues.len(),
{
    let names = queue_names(queues);
    let i = choose|i: int| 0 <= i < names.len() && names[i] == queue;
    if queues[0].name@ != queue {
        let rest = queues.drop_first();
        assert(queue_names(rest)[i - 1] == queue);
        lemma_declared(rest, queue);
    }
}

proof fn lemma_none_undeclared(queues: Seq<QueueDecl>, consumes: Seq<Seq<char>>)
    requires
        forall|i: int|
            0 <= i < consumes.len() ==> queue_names(queues).contains(#[trigger] consumes[i]),
    ensures
        first_undeclared(queues, consumes) is None,
    decreases consumes.len(),
{
    if consumes.len() > 0 {
        assert(queue_names(queues).contains(consumes[0]));
        lemma_declared(queues, consumes[0]);
        let rest = consumes.drop_first();
        assert forall|i: int| 0 <= i < rest.len() implies queue_names(queues).contains(
            #[trigger] rest[i],
        ) by {
            assert(rest[i] == consumes[i + 1]);
        }
        lemma_none_undeclared(queues, rest);
    }
}

/// Every department of a graph can start, but for one that takes from no queue: a graph declares
/// whatever its departments take from.
pub proof fn law_a_graph_declares_its_queues(cfg: Config, capacity: usize, i: int)
    requires
        is_graph(cfg, capacity),
        0 <= i < cfg.department@.len(),
    ensures
        startup_fault(cfg.queue@, cfg.department@[i]) == (if cfg.department@[i].consumes@.len()
            == 0 {
            Some(StartupFault::NoQueue { department: cfg.department@[i].name@ })
        } else {
            None
        }),
{
    let d = cfg.department@[i];
    let consumes = texts_view(d.consumes@);
    assert forall|k: int| 0 <= k < consumes.len() implies queue_names(cfg.queue@).contains(
        #[trigger] consumes[k],
    ) by {
        assert(touches(d, consumes[k]));
        assert(is_referenced(cfg.department@, cfg.raiser@, consumes[k]));
    }
    lemma_none_undeclared(cfg.queue@, consumes);
}

} // verus!
