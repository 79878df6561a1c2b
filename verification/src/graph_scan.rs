//! Putting the graph of queues, departments and raisers together, and refusing what does not fit.

use vstd::prelude::*;
use vstd::string::*;
use crate::config::{
    department_names, insert_name, lemma_insert_in_order, lemma_not_in_order, queue_names,
    raiser_names, retry_view, DepartmentDecl, QueueDecl, RaiserDecl, RaiserKind, RetryDecl,
    RetryView,
};
use crate::cutting::{split_once, split_text_once, starts_with, trim_text, trimmed};
use crate::numeral::{parse_wide, wide_value};
use crate::order::{lemma_less_total, less_text, text_less};
use crate::tables::ascending;
use crate::text::{copy_text, list_holds, same_text, text_of, texts_view, to_chars};

verus! {

/// Why a graph is refused.
#[derive(Debug)]
pub enum GraphError {
    DuplicateDepartment { name: String, path: String },
    DuplicateRaiser { name: String, path: String },
    /// A department puts events into a queue that the engine owns.
    RuntimeOwnedQueue { department: String, queue: String, provider: String },
    /// A department publishes a queue that it does not take from.
    SeamNotConsumed { department: String, queue: String },
    /// A department publishes a queue of another namespace.
    SeamNotOwned { department: String, queue: String, namespace: String },
    /// A department puts events into a queue of another package that does not publish it.
    DepartmentSibling { department: String, queue: String },
    /// A raiser puts events into a queue of another package that does not publish it.
    RaiserSibling { raiser: String, queue: String },
    /// A department declares fanout for a queue that it has nothing to do with.
    FanoutUnused { department: String, queue: String },
    /// A department takes from dead letters and from another queue, and says nothing of retries.
    MixedDeadLetter,
    /// The default wait between attempts cannot be read.
    BadRetryBase,
    /// The default longest wait between attempts cannot be read.
    BadRetryCap,
    /// The longest wait is shorter than the first.
    CapBelowBase,
    /// A glob of a kind that was removed.
    RemovedGlob,
}

pub open spec fn graph_error_text(e: GraphError) -> Seq<char> {
    match e {
        GraphError::DuplicateDepartment { name, path } => "duplicate department `"@ + name@
            + "` at "@ + path@,
        GraphError::DuplicateRaiser { name, path } => "duplicate raiser `"@ + name@ + "` at "@
            + path@,
        GraphError::RuntimeOwnedQueue { department, queue, provider } => "department `"@
            + department@ + "` must not produce runtime-owned queue `"@ + queue@
            + "` from built-in provider `"@ + provider@ + "`"@,
        GraphError::SeamNotConsumed { department, queue } => "department `"@ + department@
            + "` publishes queue `"@ + queue@
            + "` in M.spec.published_seam but does not consume it"@,
        GraphError::SeamNotOwned { department, queue, namespace } => "department `"@ + department@
            + "` publishes queue `"@ + queue@
            + "` in M.spec.published_seam but the queue is not owned by namespace `"@ + namespace@
            + "`"@,
        GraphError::DepartmentSibling { department, queue } => "department `"@ + department@
            + "` produces sibling queue `"@ + queue@
            + "` which is not published by that package in M.spec.published_seam"@,
        GraphError::RaiserSibling { raiser, queue } => "raiser `"@ + raiser@
            + "` produces sibling queue `"@ + queue@
            + "` which is not published by that package in M.spec.published_seam"@,
        GraphError::FanoutUnused { department, queue } => "department `"@ + department@
            + "` declares fanout queue `"@ + queue@ + "` which it does not consume or produce"@,
        GraphError::MixedDeadLetter =>
            "department consumes `dead_letter` and another queue with retry unset; set M.spec.retry to a table or false"@,
        GraphError::BadRetryBase =>
            "FKST_RETRY_DEFAULT_BASE must be a positive s/m/h duration"@,
        GraphError::BadRetryCap => "FKST_RETRY_DEFAULT_CAP must be a positive s/m/h duration"@,
        GraphError::CapBelowBase =>
            "FKST_RETRY_DEFAULT_CAP must be >= FKST_RETRY_DEFAULT_BASE"@,
        GraphError::RemovedGlob =>
            "runtime:// file_watch glob is a removed surface; use a host-root relative or absolute glob"@,
    }
}

impl GraphError {
    pub fn message(&self) -> (r: String)
        ensures
            r@ == graph_error_text(*self),
    {
        match self {
            GraphError::DuplicateDepartment { name, path } => {
                let mut out: String = copy_text("duplicate department `");
                out.append(name.as_str());
                out.append("` at ");
                out.append(path.as_str());
                out
            },
            GraphError::DuplicateRaiser { name, path } => {
                let mut out: String = copy_text("duplicate raiser `");
                out.append(name.as_str());
                out.append("` at ");
                out.append(path.as_str());
                out
            },
            GraphError::RuntimeOwnedQueue { department, queue, provider } => {
                let mut out: String = copy_text("department `");
                out.append(department.as_str());
                out.append("` must not produce runtime-owned queue `");
                out.append(queue.as_str());
                out.append("` from built-in provider `");
                out.append(provider.as_str());
                out.append("`");
                out
            },
            GraphError::SeamNotConsumed { department, queue } => {
                let mut out: String = copy_text("department `");
                out.append(department.as_str());
                out.append("` publishes queue `");
                out.append(queue.as_str());
                out.append("` in M.spec.published_seam but does not consume it");
                out
            },
            GraphError::SeamNotOwned { department, queue, namespace } => {
                let mut out: String = copy_text("department `");
                out.append(department.as_str());
                out.append("` publishes queue `");
                out.append(queue.as_str());
                out.append("` in M.spec.published_seam but the queue is not owned by namespace `");
                out.append(namespace.as_str());
                out.append("`");
                out
            },
            GraphError::DepartmentSibling { department, queue } => {
                let mut out: String = copy_text("department `");
                out.append(department.as_str());
                out.append("` produces sibling queue `");
                out.append(queue.as_str());
                out.append("` which is not published by that package in M.spec.published_seam");
                out
            },
            GraphError::RaiserSibling { raiser, queue } => {
                let mut out: String = copy_text("raiser `");
                out.append(raiser.as_str());
                out.append("` produces sibling queue `");
                out.append(queue.as_str());
                out.append("` which is not published by that package in M.spec.published_seam");
                out
            },
            GraphError::FanoutUnused { department, queue } => {
                let mut out: String = copy_text("department `");
                out.append(department.as_str());
                out.append("` declares fanout queue `");
                out.append(queue.as_str());
                out.append("` which it does not consume or produce");
                out
            },
            GraphError::MixedDeadLetter => copy_text(
                "department consumes `dead_letter` and another queue with retry unset; set M.spec.retry to a table or false",
            ),
            GraphError::BadRetryBase => copy_text(
                "FKST_RETRY_DEFAULT_BASE must be a positive s/m/h duration",
            ),
            GraphError::BadRetryCap => copy_text(
                "FKST_RETRY_DEFAULT_CAP must be a positive s/m/h duration",
            ),
            GraphError::CapBelowBase => copy_text(
                "FKST_RETRY_DEFAULT_CAP must be >= FKST_RETRY_DEFAULT_BASE",
            ),
            GraphError::RemovedGlob => copy_text(
                "runtime:// file_watch glob is a removed surface; use a host-root relative or absolute glob",
            ),
        }
    }
}

// Namespaces.

/// Whether a queue belongs to a namespace: by the name before its first dot, or to every namespace
/// where it has none.
pub open spec fn owned_by(queue: Seq<char>, namespace: Seq<char>) -> bool {
    match split_once(queue, '.') {
        Some((front, _)) => front == namespace,
        None => true,
    }
}

pub fn queue_owned_by_namespace(queue: &str, owner_namespace: &str) -> (r: bool)
    ensures
        r == owned_by(queue@, owner_namespace@),
{
    match split_text_once(queue, '.') {
        Some((front, _)) => same_text(front.as_str(), owner_namespace),
        None => true,
    }
}

/// The namespace of a declaration: the name before its first dot, or none.
pub open spec fn namespace_of(name: Seq<char>) -> Seq<char> {
    match split_once(name, '.') {
        Some((front, _)) => front,
        None => Seq::empty(),
    }
}

pub fn declaration_namespace(name: &str) -> (r: String)
    ensures
        r@ == namespace_of(name@),
{
    match split_text_once(name, '.') {
        Some((front, _)) => front,
        None => {
            let out: String = String::new();
            assert(out@ =~= Seq::<char>::empty());
            out
        },
    }
}

// Declarations.

/// Puts a department among others that stand in the order of their names, where its name is new.
pub fn insert_department_decl(
    departments: &mut Vec<DepartmentDecl>,
    decl: DepartmentDecl,
    config_path: &str,
) -> (r: Result<(), GraphError>)
    requires
        ascending(department_names(old(departments)@)),
    ensures
        ascending(department_names(final(departments)@)),
        match r {
            Ok(_) => !department_names(old(departments)@).contains(decl.name@) && exists|at: int|
                0 <= at <= old(departments)@.len() && final(departments)@
                    == #[trigger] old(departments)@.insert(at, decl),
            Err(e) => department_names(old(departments)@).contains(decl.name@)
                && final(departments)@ == old(departments)@ && (
            e matches GraphError::DuplicateDepartment { name, path } && name@ == decl.name@ && path@
                == config_path@),
        },
{
    let ghost had = departments@;
    let ghost names = department_names(had);
    let mut at: usize = 0;
    while at < departments.len() && less_text(departments[at].name.as_str(), decl.name.as_str())
        invariant
            departments@ == had,
            names == department_names(had),
            at <= had.len(),
            forall|j: int| 0 <= j < at ==> text_less(#[trigger] names[j], decl.name@),
        decreases had.len() - at,
    {
        assert(names[at as int] == had[at as int].name@);
        at = at + 1;
    }
    if at < departments.len() && same_text(departments[at].name.as_str(), decl.name.as_str()) {
        assert(names[at as int] == decl.name@);
        return Err(
            GraphError::DuplicateDepartment { name: decl.name, path: copy_text(config_path) },
        );
    }
    proof {
        if at < had.len() {
            assert(names[at as int] == had[at as int].name@);
            lemma_less_total(names[at as int], decl.name@);
        }
        lemma_insert_in_order(names, at as int, decl.name@);
        lemma_not_in_order(names, at as int, decl.name@);
        assert(department_names(had.insert(at as int, decl)) =~= names.insert(
            at as int,
            decl.name@,
        ));
    }
    departments.insert(at, decl);
    Ok(())
}

/// Puts a raiser among others that stand in the order of their names, where its name is new.
pub fn insert_raiser_decl(raisers: &mut Vec<RaiserDecl>, decl: RaiserDecl, config_path: &str) -> (r:
    Result<(), GraphError>)
    requires
        ascending(raiser_names(old(raisers)@)),
    ensures
        ascending(raiser_names(final(raisers)@)),
        match r {
            Ok(_) => !raiser_names(old(raisers)@).contains(decl.name@) && exists|at: int|
                0 <= at <= old(raisers)@.len() && final(raisers)@
                    == #[trigger] old(raisers)@.insert(at, decl),
            Err(e) => raiser_names(old(raisers)@).contains(decl.name@) && final(raisers)@
                == old(raisers)@ && (e matches GraphError::DuplicateRaiser { name, path } && name@
                == decl.name@ && path@ == config_path@),
        },
{
    let ghost had = raisers@;
    let ghost names = raiser_names(had);
    let mut at: usize = 0;
    while at < raisers.len() && less_text(raisers[at].name.as_str(), decl.name.as_str())
        invariant
            raisers@ == had,
            names == raiser_names(had),
            at <= had.len(),
            forall|j: int| 0 <= j < at ==> text_less(#[trigger] names[j], decl.name@),
        decreases had.len() - at,
    {
        assert(names[at as int] == had[at as int].name@);
        at = at + 1;
    }
    if at < raisers.len() && same_text(raisers[at].name.as_str(), decl.name.as_str()) {
        assert(names[at as int] == decl.name@);
        return Err(
            GraphError::DuplicateRaiser { name: decl.name, path: copy_text(config_path) },
        );
    }
    proof {
        if at < had.len() {
            assert(names[at as int] == had[at as int].name@);
            lemma_less_total(names[at as int], decl.name@);
        }
        lemma_insert_in_order(names, at as int, decl.name@);
        lemma_not_in_order(names, at as int, decl.name@);
        assert(raiser_names(had.insert(at as int, decl)) =~= names.insert(at as int, decl.name@));
    }
    raisers.insert(at, decl);
    Ok(())
}

/// The stall window of a department: its own, or the default where it says nothing.
pub open spec fn window_of(declared: Seq<char>, default: Seq<char>) -> Seq<char> {
    if trimmed(declared).len() == 0 {
        default
    } else {
        declared
    }
}

pub fn stall_window(declared: &str, default: &str) -> (r: String)
    ensures
        r@ == window_of(declared@, default@),
{
    if trim_text(declared).as_str().is_empty() {
        copy_text(default)
    } else {
        copy_text(declared)
    }
}

/// Whether a raiser watches files by a glob of a kind that was removed.
pub open spec fn has_removed_glob(kind: RaiserKind) -> bool {
    kind matches RaiserKind::FileWatch { glob } && "runtime://"@.is_prefix_of(glob@)
}

/// Refuses a glob of a kind that was removed.
pub fn reject_runtime_file_watch_glob(kind: &RaiserKind) -> (r: Result<(), GraphError>)
    ensures
        r == (if has_removed_glob(*kind) {
            Err::<(), GraphError>(GraphError::RemovedGlob)
        } else {
            Ok::<(), GraphError>(())
        }),
{
    match kind {
        RaiserKind::FileWatch { glob } => {
            if starts_with(glob.as_str(), "runtime://") {
                Err(GraphError::RemovedGlob)
            } else {
                Ok(())
            }
        },
        RaiserKind::Cron { .. } => Ok(()),
    }
}

/// Whether the engine owns none of the queues.
pub open spec fn engine_owns_none(providers: Seq<Option<String>>) -> bool {
    forall|i: int| 0 <= i < providers.len() ==> (#[trigger] providers[i]) is None
}

/// What is said of a department that puts events into queues of the engine: of the first of them.
pub open spec fn engine_error(
    produces: Seq<String>,
    providers: Seq<Option<String>>,
    department: Seq<char>,
    e: GraphError,
) -> bool {
    exists|i: int|
        {
            &&& 0 <= i < providers.len()
            &&& (#[trigger] providers[i]) is Some
            &&& forall|j: int| 0 <= j < i ==> (#[trigger] providers[j]) is None
            &&& e matches GraphError::RuntimeOwnedQueue { department: d, queue, provider } && d@
                == department && queue@ == produces[i]@ && provider@ == providers[i]->0@
        }
}

/// Refuses a department that puts events into a queue that the engine owns. `providers` names, for
/// every queue that it puts events into, the provider in the engine that owns it, if any.
pub fn reject_engine_dead_letter_produces(
    produces: &Vec<String>,
    providers: &Vec<Option<String>>,
    department: &str,
) -> (r: Result<(), GraphError>)
    requires
        produces@.len() == providers@.len(),
    ensures
        match r {
            Ok(_) => engine_owns_none(providers@),
            Err(e) => engine_error(produces@, providers@, department@, e),
        },
{
    let mut i: usize = 0;
    while i < providers.len()
        invariant
            produces@.len() == providers@.len(),
            i <= providers@.len(),
            forall|j: int| 0 <= j < i ==> (#[trigger] providers@[j]) is None,
        decreases providers@.len() - i,
    {
        match &providers[i] {
            Some(provider) => {
                assert(providers@[i as int] is Some);
                return Err(
                    GraphError::RuntimeOwnedQueue {
                        department: copy_text(department),
                        queue: copy_text(produces[i].as_str()),
                        provider: copy_text(provider.as_str()),
                    },
                );
            },
            None => {},
        }
        i = i + 1;
    }
    Ok(())
}

// Published queues.

/// Whether a department may publish a queue.
pub open spec fn may_publish(
    queue: Seq<char>,
    consumes: Seq<Seq<char>>,
    namespace: Seq<char>,
) -> bool {
    consumes.contains(queue) && owned_by(queue, namespace)
}

/// Whether a department may publish all of the queues.
pub open spec fn seam_fits(
    seam: Seq<Seq<char>>,
    consumes: Seq<Seq<char>>,
    namespace: Seq<char>,
) -> bool {
    forall|i: int| 0 <= i < seam.len() ==> may_publish(#[trigger] seam[i], consumes, namespace)
}

/// What is said of a department that publishes queues that it may not: of the first of them.
pub open spec fn seam_fault(
    seam: Seq<Seq<char>>,
    consumes: Seq<Seq<char>>,
    namespace: Seq<char>,
    department: Seq<char>,
    e: GraphError,
) -> bool {
    exists|i: int|
        0 <= i < seam.len() && seam_error(e, #[trigger] seam[i], consumes, namespace, department)
            && forall|j: int| 0 <= j < i ==> may_publish(#[trigger] seam[j], consumes, namespace)
}

/// Refuses a department that publishes a queue that it does not take from, or that is not its
/// own.
pub fn validate_published_seam(
    published_seam: &Vec<String>,
    consumes: &Vec<String>,
    owner_namespace: &str,
    department: &str,
) -> (r: Result<(), GraphError>)
    ensures
        match r {
            Ok(_) => seam_fits(texts_view(published_seam@), texts_view(consumes@), owner_namespace@),
            Err(e) => seam_fault(
                texts_view(published_seam@),
                texts_view(consumes@),
                owner_namespace@,
                department@,
                e,
            ),
        },
{
    let ghost seam = texts_view(published_seam@);
    let ghost taken = texts_view(consumes@);
    let mut i: usize = 0;
    while i < published_seam.len()
        invariant
            seam == texts_view(published_seam@),
            taken == texts_view(consumes@),
            i <= published_seam@.len(),
            forall|j: int|
                0 <= j < i ==> may_publish(#[trigger] seam[j], taken, owner_namespace@),
        decreases published_seam@.len() - i,
    {
        let queue: &str = published_seam[i].as_str();
        assert(seam[i as int] == queue@);
        if !list_holds(consumes, queue) {
            let e: GraphError = GraphError::SeamNotConsumed {
                department: copy_text(department),
                queue: copy_text(queue),
            };
            assert(seam_error(e, seam[i as int], taken, owner_namespace@, department@));
            return Err(e);
        }
        if !queue_owned_by_namespace(queue, owner_namespace) {
            let e: GraphError = GraphError::SeamNotOwned {
                department: copy_text(department),
                queue: copy_text(queue),
                namespace: copy_text(owner_namespace),
            };
            assert(seam_error(e, seam[i as int], taken, owner_namespace@, department@));
            return Err(e);
        }
        i = i + 1;
    }
    Ok(())
}

pub open spec fn seam_error(
    e: GraphError,
    queue: Seq<char>,
    consumes: Seq<Seq<char>>,
    namespace: Seq<char>,
    department: Seq<char>,
) -> bool {
    if !consumes.contains(queue) {
        e matches GraphError::SeamNotConsumed { department: d, queue: q } && d@ == department && q@
            == queue
    } else if !owned_by(queue, namespace) {
        e matches GraphError::SeamNotOwned { department: d, queue: q, namespace: n } && d@
            == department && q@ == queue && n@ == namespace
    } else {
        false
    }
}

/// Whether any department publishes a queue.
pub open spec fn is_published(ds: Seq<DepartmentDecl>, queue: Seq<char>) -> bool {
    exists|i: int|
        0 <= i < ds.len() && texts_view((#[trigger] ds[i]).published_seam@).contains(queue)
}

fn any_publishes(ds: &Vec<DepartmentDecl>, queue: &str) -> (r: bool)
    ensures
        r == is_published(ds@, queue@),
{
    let mut i: usize = 0;
    while i < ds.len()
        invariant
            i <= ds@.len(),
            forall|j: int|
                0 <= j < i ==> !texts_view((#[trigger] ds@[j]).published_seam@).contains(queue@),
        decreases ds@.len() - i,
    {
        if list_holds(&ds[i].published_seam, queue) {
            assert(texts_view(ds@[i as int].published_seam@).contains(queue@));
            return true;
        }
        i = i + 1;
    }
    false
}

/// Whether events may be put into a queue from a namespace.
pub open spec fn may_produce(
    ds: Seq<DepartmentDecl>,
    queue: Seq<char>,
    namespace: Seq<char>,
) -> bool {
    owned_by(queue, namespace) || is_published(ds, queue)
}

/// Whether everything that a department puts events into is open to it.
pub open spec fn department_fits(ds: Seq<DepartmentDecl>, d: DepartmentDecl) -> bool {
    forall|i: int|
        0 <= i < d.produces@.len() ==> may_produce(
            ds,
            #[trigger] texts_view(d.produces@)[i],
            d.owner_namespace@,
        )
}

pub open spec fn raiser_fits(ds: Seq<DepartmentDecl>, r: RaiserDecl) -> bool {
    may_produce(ds, r.produces@, namespace_of(r.name@))
}

/// Whether nothing puts events into a queue that is not open to it.
pub open spec fn produces_fit(ds: Seq<DepartmentDecl>, rs: Seq<RaiserDecl>) -> bool {
    &&& forall|i: int| 0 <= i < ds.len() ==> department_fits(ds, #[trigger] ds[i])
    &&& forall|i: int| 0 <= i < rs.len() ==> raiser_fits(ds, #[trigger] rs[i])
}

/// Whether a department's queue is the first of its queues that is not open to it.
pub open spec fn first_closed(ds: Seq<DepartmentDecl>, d: DepartmentDecl, k: int) -> bool {
    let produces = texts_view(d.produces@);
    &&& 0 <= k < produces.len()
    &&& !may_produce(ds, produces[k], d.owner_namespace@)
    &&& forall|j: int| 0 <= j < k ==> may_produce(ds, #[trigger] produces[j], d.owner_namespace@)
}

/// What is said of a graph in which something puts events into a queue that is not open to it: of
/// the first department and its first such queue, and else of the first raiser.
pub open spec fn sibling_error(
    ds: Seq<DepartmentDecl>,
    rs: Seq<RaiserDecl>,
    e: GraphError,
) -> bool {
    match e {
        GraphError::DepartmentSibling { department, queue } => exists|i: int, k: int|
            {
                &&& 0 <= i < ds.len()
                &&& #[trigger] first_closed(ds, ds[i], k)
                &&& department@ == ds[i].name@
                &&& queue@ == ds[i].produces@[k]@
                &&& forall|j: int| 0 <= j < i ==> department_fits(ds, #[trigger] ds[j])
            },
        GraphError::RaiserSibling { raiser, queue } => {
            &&& forall|i: int| 0 <= i < ds.len() ==> department_fits(ds, #[trigger] ds[i])
            &&& exists|i: int|
                {
                    &&& 0 <= i < rs.len()
                    &&& !raiser_fits(ds, #[trigger] rs[i])
                    &&& raiser@ == rs[i].name@
                    &&& queue@ == rs[i].produces@
                    &&& forall|j: int| 0 <= j < i ==> raiser_fits(ds, #[trigger] rs[j])
                }
        },
        _ => false,
    }
}

/// Refuses a graph in which anything puts events into a queue of another package that does not
/// publish it.
pub fn validate_cross_package_produces(
    departments: &Vec<DepartmentDecl>,
    raisers: &Vec<RaiserDecl>,
) -> (r: Result<(), GraphError>)
    ensures
        match r {
            Ok(_) => produces_fit(departments@, raisers@),
            Err(e) => sibling_error(departments@, raisers@, e),
        },
{
    let mut i: usize = 0;
    while i < departments.len()
        invariant
            i <= departments@.len(),
            forall|j: int|
                0 <= j < i ==> department_fits(departments@, #[trigger] departments@[j]),
        decreases departments@.len() - i,
    {
        let d: &DepartmentDecl = &departments[i];
        let ghost produces = texts_view(d.produces@);
        let mut k: usize = 0;
        while k < d.produces.len()
            invariant
                i < departments@.len(),
                d == departments@[i as int],
                produces == texts_view(d.produces@),
                k <= d.produces@.len(),
                forall|j: int|
                    0 <= j < i ==> department_fits(departments@, #[trigger] departments@[j]),
                forall|j: int|
                    0 <= j < k ==> may_produce(
                        departments@,
                        #[trigger] produces[j],
                        d.owner_namespace@,
                    ),
            decreases d.produces@.len() - k,
        {
            let queue: &str = d.produces[k].as_str();
            assert(produces[k as int] == queue@);
            if !queue_owned_by_namespace(queue, d.owner_namespace.as_str()) && !any_publishes(
                departments,
                queue,
            ) {
                assert(first_closed(departments@, departments@[i as int], k as int));
                return Err(
                    GraphError::DepartmentSibling {
                        department: copy_text(d.name.as_str()),
                        queue: copy_text(queue),
                    },
                );
            }
            k = k + 1;
        }
        assert(department_fits(departments@, departments@[i as int]));
        i = i + 1;
    }
    let mut i: usize = 0;
    while i < raisers.len()
        invariant
            i <= raisers@.len(),
            forall|j: int|
                0 <= j < departments@.len() ==> department_fits(
                    departments@,
                    #[trigger] departments@[j],
                ),
            forall|j: int| 0 <= j < i ==> raiser_fits(departments@, #[trigger] raisers@[j]),
        decreases raisers@.len() - i,
    {
        let r: &RaiserDecl = &raisers[i];
        let namespace: String = declaration_namespace(r.name.as_str());
        if !queue_owned_by_namespace(r.produces.as_str(), namespace.as_str()) && !any_publishes(
            departments,
            r.produces.as_str(),
        ) {
            assert(!raiser_fits(departments@, raisers@[i as int]));
            return Err(
                GraphError::RaiserSibling {
                    raiser: copy_text(r.name.as_str()),
                    queue: copy_text(r.produces.as_str()),
                },
            );
        }
        i = i + 1;
    }
    Ok(())
}

// Queues.

/// Whether anything takes from a queue or puts events into it.
pub open spec fn is_referenced(
    ds: Seq<DepartmentDecl>,
    rs: Seq<RaiserDecl>,
    queue: Seq<char>,
) -> bool {
    ||| exists|i: int| 0 <= i < ds.len() && touches(#[trigger] ds[i], queue)
    ||| exists|i: int| 0 <= i < rs.len() && (#[trigger] rs[i]).produces@ == queue
}

/// Whether a department takes from a queue or puts events into it.
pub open spec fn touches(d: DepartmentDecl, queue: Seq<char>) -> bool {
    texts_view(d.consumes@).contains(queue) || texts_view(d.produces@).contains(queue)
}

/// Whether any department declares fanout for a queue.
pub open spec fn has_fanout(ds: Seq<DepartmentDecl>, queue: Seq<char>) -> bool {
    exists|i: int| 0 <= i < ds.len() && texts_view((#[trigger] ds[i]).fanout@).contains(queue)
}

/// Whether a department declares fanout for queues alone that it has to do with.
pub open spec fn fanout_fits(d: DepartmentDecl) -> bool {
    forall|i: int| 0 <= i < d.fanout@.len() ==> touches(d, #[trigger] texts_view(d.fanout@)[i])
}

/// Whether all departments declare fanout for queues alone that they have to do with.
pub open spec fn fanouts_fit(ds: Seq<DepartmentDecl>) -> bool {
    forall|i: int| 0 <= i < ds.len() ==> fanout_fits(#[trigger] ds[i])
}

/// Whether a department's fanout is the first for a queue that it has nothing to do with.
pub open spec fn first_unused(d: DepartmentDecl, k: int) -> bool {
    let fanout = texts_view(d.fanout@);
    &&& 0 <= k < fanout.len()
    &&& !touches(d, fanout[k])
    &&& forall|j: int| 0 <= j < k ==> touches(d, #[trigger] fanout[j])
}

/// What is said of a graph with fanout that does not fit: of the first department that declares
/// any, and the first such queue.
pub open spec fn fanout_error(ds: Seq<DepartmentDecl>, e: GraphError) -> bool {
    e matches GraphError::FanoutUnused { department, queue } && exists|i: int, k: int|
        {
            &&& 0 <= i < ds.len()
            &&& #[trigger] first_unused(ds[i], k)
            &&& department@ == ds[i].name@
            &&& queue@ == ds[i].fanout@[k]@
            &&& forall|j: int| 0 <= j < i ==> fanout_fits(#[trigger] ds[j])
        }
}

/// Refuses fanout for a queue that the department has nothing to do with.
pub fn resolve_department_fanout(departments: &Vec<DepartmentDecl>) -> (r: Result<(), GraphError>)
    ensures
        match r {
            Ok(_) => fanouts_fit(departments@),
            Err(e) => fanout_error(departments@, e),
        },
{
    let mut i: usize = 0;
    while i < departments.len()
        invariant
            i <= departments@.len(),
            forall|j: int| 0 <= j < i ==> fanout_fits(#[trigger] departments@[j]),
        decreases departments@.len() - i,
    {
        let d: &DepartmentDecl = &departments[i];
        let ghost fanout = texts_view(d.fanout@);
        let mut k: usize = 0;
        while k < d.fanout.len()
            invariant
                i < departments@.len(),
                d == departments@[i as int],
                fanout == texts_view(d.fanout@),
                k <= d.fanout@.len(),
                forall|j: int| 0 <= j < i ==> fanout_fits(#[trigger] departments@[j]),
                forall|j: int| 0 <= j < k ==> touches(*d, #[trigger] fanout[j]),
            decreases d.fanout@.len() - k,
        {
            let queue: &str = d.fanout[k].as_str();
            assert(fanout[k as int] == queue@);
            if !list_holds(&d.consumes, queue) && !list_holds(&d.produces, queue) {
                assert(first_unused(departments@[i as int], k as int));
                return Err(
                    GraphError::FanoutUnused {
                        department: copy_text(d.name.as_str()),
                        queue: copy_text(queue),
                    },
                );
            }
            k = k + 1;
        }
        assert(fanout_fits(departments@[i as int]));
        i = i + 1;
    }
    Ok(())
}

fn insert_names(names: &mut Vec<String>, more: &Vec<String>)
    requires
        ascending(texts_view(old(names)@)),
    ensures
        ascending(texts_view(final(names)@)),
        forall|x: Seq<char>| #[trigger]
            texts_view(final(names)@).contains(x) <==> texts_view(old(names)@).contains(x)
                || texts_view(more@).contains(x),
{
    let ghost had = texts_view(names@);
    let ghost added = texts_view(more@);
    let mut i: usize = 0;
    while i < more.len()
        invariant
            added == texts_view(more@),
            i <= more@.len(),
            ascending(texts_view(names@)),
            forall|x: Seq<char>| #[trigger]
                texts_view(names@).contains(x) <==> had.contains(x) || added.take(
                    i as int,
                ).contains(x),
        decreases more@.len() - i,
    {
        let ghost before = texts_view(names@);
        insert_name(names, more[i].as_str());
        proof {
            let name = more@[i as int]@;
            let now = added.take(i + 1);
            assert(now =~= added.take(i as int).push(name));
            assert forall|x: Seq<char>| #[trigger]
                texts_view(names@).contains(x) <==> had.contains(x) || now.contains(x) by {
                assert(before.contains(x) <==> had.contains(x) || added.take(i as int).contains(x));
                if added.take(i as int).contains(x) {
                    let j = choose|j: int|
                        0 <= j < added.take(i as int).len() && added.take(i as int)[j] == x;
                    assert(now[j] == x);
                }
                if x == name {
                    assert(now[i as int] == x);
                }
                if now.contains(x) && x != name {
                    let j = choose|j: int| 0 <= j < now.len() && now[j] == x;
                    assert(added.take(i as int)[j] == x);
                }
            }
        }
        i = i + 1;
    }
    assert(added.take(added.len() as int) =~= added);
}

fn referenced_queues(departments: &Vec<DepartmentDecl>, raisers: &Vec<RaiserDecl>) -> (r: Vec<
    String,
>)
    ensures
        ascending(texts_view(r@)),
        forall|x: Seq<char>| #[trigger]
            texts_view(r@).contains(x) <==> is_referenced(departments@, raisers@, x),
{
    let mut names: Vec<String> = Vec::new();
    let mut i: usize = 0;
    assert(texts_view(names@) =~= Seq::<Seq<char>>::empty());
    while i < departments.len()
        invariant
            i <= departments@.len(),
            ascending(texts_view(names@)),
            forall|x: Seq<char>| #[trigger]
                texts_view(names@).contains(x) <==> exists|j: int|
                    0 <= j < i && touches(#[trigger] departments@[j], x),
        decreases departments@.len() - i,
    {
        let ghost before = texts_view(names@);
        insert_names(&mut names, &departments[i].consumes);
        insert_names(&mut names, &departments[i].produces);
        proof {
            assert forall|x: Seq<char>| #[trigger]
                texts_view(names@).contains(x) <==> exists|j: int|
                    0 <= j < i + 1 && touches(#[trigger] departments@[j], x) by {
                assert(before.contains(x) <==> exists|j: int|
                    0 <= j < i && touches(#[trigger] departments@[j], x));
                assert(texts_view(names@).contains(x) <==> before.contains(x) || touches(
                    departments@[i as int],
                    x,
                ));
                if exists|j: int| 0 <= j < i + 1 && touches(#[trigger] departments@[j], x) {
                    let j = choose|j: int|
                        0 <= j < i + 1 && touches(#[trigger] departments@[j], x);
                    if j < i {
                        assert(0 <= j < i && touches(departments@[j], x));
                    }
                }
            }
        }
        i = i + 1;
    }
    let ghost of_departments = texts_view(names@);
    let mut i: usize = 0;
    while i < raisers.len()
        invariant
            i <= raisers@.len(),
            ascending(texts_view(names@)),
            forall|x: Seq<char>| #[trigger]
                texts_view(names@).contains(x) <==> of_departments.contains(x) || exists|j: int|
                    0 <= j < i && (#[trigger] raisers@[j]).produces@ == x,
        decreases raisers@.len() - i,
    {
        let ghost before = texts_view(names@);
        insert_name(&mut names, raisers[i].produces.as_str());
        proof {
            assert forall|x: Seq<char>| #[trigger]
                texts_view(names@).contains(x) <==> of_departments.contains(x) || exists|j: int|
                    0 <= j < i + 1 && (#[trigger] raisers@[j]).produces@ == x by {
                assert(before.contains(x) <==> of_departments.contains(x) || exists|j: int|
                    0 <= j < i && (#[trigger] raisers@[j]).produces@ == x);
                if exists|j: int| 0 <= j < i + 1 && (#[trigger] raisers@[j]).produces@ == x {
                    let j = choose|j: int|
                        0 <= j < i + 1 && (#[trigger] raisers@[j]).produces@ == x;
                    if j < i {
                        assert(0 <= j < i && raisers@[j].produces@ == x);
                    }
                }
            }
        }
        i = i + 1;
    }
    names
}

fn any_fanout(ds: &Vec<DepartmentDecl>, queue: &str) -> (r: bool)
    ensures
        r == has_fanout(ds@, queue@),
{
    let mut i: usize = 0;
    while i < ds.len()
        invariant
            i <= ds@.len(),
            forall|j: int|
                0 <= j < i ==> !texts_view((#[trigger] ds@[j]).fanout@).contains(queue@),
        decreases ds@.len() - i,
    {
        if list_holds(&ds[i].fanout, queue) {
            assert(texts_view(ds@[i as int].fanout@).contains(queue@));
            return true;
        }
        i = i + 1;
    }
    false
}

/// Whether these are the queues of a graph: every queue that anything takes from or puts events
/// into, in the order of their names, with a capacity, and with fanout where a department declares
/// it.
pub open spec fn queues_of(
    ds: Seq<DepartmentDecl>,
    rs: Seq<RaiserDecl>,
    capacity: usize,
    queues: Seq<QueueDecl>,
) -> bool {
    &&& ascending(queue_names(queues))
    &&& forall|x: Seq<char>| #[trigger]
        queue_names(queues).contains(x) <==> is_referenced(ds, rs, x)
    &&& forall|i: int|
        0 <= i < queues.len() ==> (#[trigger] queues[i]).capacity == capacity && queues[i].fanout
            == has_fanout(ds, queues[i].name@)
}

/// The queues of a graph, where the fanout that is declared fits.
pub fn derive_queues(
    departments: &Vec<DepartmentDecl>,
    raisers: &Vec<RaiserDecl>,
    capacity: usize,
) -> (r: Result<Vec<QueueDecl>, GraphError>)
    ensures
        match r {
            Ok(queues) => fanouts_fit(departments@) && queues_of(
                departments@,
                raisers@,
                capacity,
                queues@,
            ),
            Err(e) => fanout_error(departments@, e),
        },
{
    let names: Vec<String> = referenced_queues(departments, raisers);
    match resolve_department_fanout(departments) {
        Ok(_) => {},
        Err(e) => return Err(e),
    }
    let ghost views = texts_view(names@);
    let mut queues: Vec<QueueDecl> = Vec::new();
    let mut i: usize = 0;
    while i < names.len()
        invariant
            views == texts_view(names@),
            i <= names@.len(),
            queues@.len() == i,
            forall|k: int|
                0 <= k < i ==> (#[trigger] queues@[k]).name@ == views[k] && queues@[k].capacity
                    == capacity && queues@[k].fanout == has_fanout(departments@, views[k]),
        decreases names@.len() - i,
    {
        let fanout: bool = any_fanout(departments, names[i].as_str());
        queues.push(QueueDecl { name: copy_text(names[i].as_str()), capacity, fanout });
        i = i + 1;
    }
    assert(queue_names(queues@) =~= views);
    Ok(queues)
}

// Retries.

/// What a department says of retries.
pub enum DeptRetrySetting {
    Default,
    Custom { max_attempts: Option<u64>, base: Option<String>, cap: Option<String> },
    Disabled,
}

/// The retries of a department: its own where it names them, with the defaults for what it leaves
/// open; none where it wants none, and none for dead letters; else the defaults. A department that
/// takes from dead letters and from another queue must say.
pub open spec fn retry_of(
    setting: DeptRetrySetting,
    defaults: RetryView,
    takes_dead_letters: bool,
    takes_others: bool,
) -> Option<Option<RetryView>> {
    match setting {
        DeptRetrySetting::Disabled => Some(None),
        DeptRetrySetting::Default => if takes_dead_letters {
            if takes_others {
                None
            } else {
                Some(None)
            }
        } else {
            Some(Some(defaults))
        },
        DeptRetrySetting::Custom { max_attempts, base, cap } => Some(
            Some(
                RetryView {
                    max_attempts: match max_attempts {
                        Some(n) => n,
                        None => defaults.max_attempts,
                    },
                    base: match base {
                        Some(s) => s@,
                        None => defaults.base,
                    },
                    cap: match cap {
                        Some(s) => s@,
                        None => defaults.cap,
                    },
                },
            ),
        ),
    }
}

/// The retries of a department. `dead_letters` says, for every queue that it takes from, whether
/// that is one of dead letters.
pub fn materialize_retry(
    setting: &DeptRetrySetting,
    defaults: &RetryDecl,
    dead_letters: &Vec<bool>,
) -> (r: Result<Option<RetryDecl>, GraphError>)
    ensures
        match r {
            Ok(retry) => retry_of(
                *setting,
                defaults@,
                dead_letters@.contains(true),
                dead_letters@.contains(false),
            ) == Some(retry_view(retry)),
            Err(e) => e is MixedDeadLetter && retry_of(
                *setting,
                defaults@,
                dead_letters@.contains(true),
                dead_letters@.contains(false),
            ) is None,
        },
{
    match setting {
        DeptRetrySetting::Disabled => Ok(None),
        DeptRetrySetting::Default => {
            let mut some_dead: bool = false;
            let mut some_other: bool = false;
            let mut i: usize = 0;
            while i < dead_letters.len()
                invariant
                    i <= dead_letters@.len(),
                    some_dead == dead_letters@.take(i as int).contains(true),
                    some_other == dead_letters@.take(i as int).contains(false),
                decreases dead_letters@.len() - i,
            {
                proof {
                    let front = dead_letters@.take(i as int);
                    let now = dead_letters@.take(i + 1);
                    assert(now =~= front.push(dead_letters@[i as int]));
                    assert(now[i as int] == dead_letters@[i as int]);
                    if front.contains(true) {
                        let k = choose|k: int| 0 <= k < front.len() && front[k] == true;
                        assert(now[k] == true);
                    }
                    if front.contains(false) {
                        let k = choose|k: int| 0 <= k < front.len() && front[k] == false;
                        assert(now[k] == false);
                    }
                    if now.contains(true) && !dead_letters@[i as int] {
                        let k = choose|k: int| 0 <= k < now.len() && now[k] == true;
                        assert(front[k] == true);
                    }
                    if now.contains(false) && dead_letters@[i as int] {
                        let k = choose|k: int| 0 <= k < now.len() && now[k] == false;
                        assert(front[k] == false);
                    }
                }
                if dead_letters[i] {
                    some_dead = true;
                } else {
                    some_other = true;
                }
                i = i + 1;
            }
            assert(dead_letters@.take(dead_letters@.len() as int) =~= dead_letters@);
            if some_dead {
                if some_other {
                    Err(GraphError::MixedDeadLetter)
                } else {
                    Ok(None)
                }
            } else {
                Ok(Some(defaults.copy()))
            }
        },
        DeptRetrySetting::Custom { max_attempts, base, cap } => {
            let attempts: u64 = match max_attempts {
                Some(n) => *n,
                None => defaults.max_attempts,
            };
            let base_text: String = match base {
                Some(s) => copy_text(s.as_str()),
                None => copy_text(defaults.base.as_str()),
            };
            let cap_text: String = match cap {
                Some(s) => copy_text(s.as_str()),
                None => copy_text(defaults.cap.as_str()),
            };
            Ok(Some(RetryDecl { max_attempts: attempts, base: base_text, cap: cap_text }))
        },
    }
}

/// The milliseconds of a unit.
pub open spec fn unit_millis(unit: char) -> Option<nat> {
    if unit == 's' {
        Some(1_000)
    } else if unit == 'm' {
        Some(60_000)
    } else if unit == 'h' {
        Some(3_600_000)
    } else {
        None
    }
}

/// The milliseconds of a positive number of seconds, minutes or hours, as far as a hundred and
/// twenty-eight bits hold them.
pub open spec fn duration_millis(raw: Seq<char>) -> Option<nat> {
    if raw.len() == 0 {
        None
    } else {
        match (wide_value(raw.drop_last()), unit_millis(raw.last())) {
            (Some(n), Some(unit)) => if n == 0 {
                None
            } else if n * unit <= u128::MAX {
                Some(n * unit)
            } else {
                Some(u128::MAX as nat)
            },
            _ => None,
        }
    }
}

pub fn parse_duration_millis(raw: &str) -> (r: Option<u128>)
    ensures
        (match r {
            Some(n) => Some(n as nat),
            None => None,
        }) == duration_millis(raw@),
{
    let chars: Vec<char> = to_chars(raw);
    if chars.len() == 0 {
        return None;
    }
    let last: usize = chars.len() - 1;
    let unit: char = chars[last];
    let number: String = text_of(&chars, 0, last);
    assert(number@ =~= raw@.drop_last());
    let value: u128 = match parse_wide(number.as_str()) {
        Some(n) => n,
        None => return None,
    };
    if value == 0 {
        return None;
    }
    let factor: u128 = if unit == 's' {
        1_000
    } else if unit == 'm' {
        60_000
    } else if unit == 'h' {
        3_600_000
    } else {
        return None;
    };
    match value.checked_mul(factor) {
        Some(n) => Some(n),
        None => Some(u128::MAX),
    }
}

/// Refuses defaults of retries whose waits cannot be read, or whose longest wait is shorter than
/// the first.
pub fn validate_retry_default(retry: &RetryDecl) -> (r: Result<(), GraphError>)
    ensures
        r == (match (duration_millis(retry@.base), duration_millis(retry@.cap)) {
            (None, _) => Err::<(), GraphError>(GraphError::BadRetryBase),
            (Some(_), None) => Err::<(), GraphError>(GraphError::BadRetryCap),
            (Some(base), Some(cap)) => if cap < base {
                Err::<(), GraphError>(GraphError::CapBelowBase)
            } else {
                Ok::<(), GraphError>(())
            },
        }),
{
    let base: u128 = match parse_duration_millis(retry.base.as_str()) {
        Some(base) => base,
        None => return Err(GraphError::BadRetryBase),
    };
    let cap: u128 = match parse_duration_millis(retry.cap.as_str()) {
        Some(cap) => cap,
        None => return Err(GraphError::BadRetryCap),
    };
    if cap < base {
        return Err(GraphError::CapBelowBase);
    }
    Ok(())
}

// Startup.

/// Why a department cannot start.
#[derive(Debug)]
pub enum StartupError {
    /// It takes from a queue that is not declared.
    UndeclaredQueue { department: String, queue: String },
    /// It takes from no queue.
    NoQueue { department: String },
}

pub enum StartupFault {
    UndeclaredQueue { department: Seq<char>, queue: Seq<char> },
    NoQueue { department: Seq<char> },
}

impl View for StartupError {
    type V = StartupFault;

    open spec fn view(&self) -> StartupFault {
        match self {
            StartupError::UndeclaredQueue { department, queue } => StartupFault::UndeclaredQueue {
                department: department@,
                queue: queue@,
            },
            StartupError::NoQueue { department } => StartupFault::NoQueue {
                department: department@,
            },
        }
    }
}

pub open spec fn startup_text(fault: StartupFault) -> Seq<char> {
    match fault {
        StartupFault::UndeclaredQueue { department, queue } => "department `"@ + department
            + "` consumes undeclared queue `"@ + queue + "`"@,
        StartupFault::NoQueue { department } => "department `"@ + department
            + "` has no consumed queue"@,
    }
}

impl StartupError {
    pub fn message(&self) -> (r: String)
        ensures
            r@ == startup_text(self@),
    {
        let mut out: String = copy_text("department `");
        match self {
            StartupError::UndeclaredQueue { department, queue } => {
                out.append(department.as_str());
                out.append("` consumes undeclared queue `");
                out.append(queue.as_str());
                out.append("`");
            },
            StartupError::NoQueue { department } => {
                out.append(department.as_str());
                out.append("` has no consumed queue");
            },
        }
        out
    }
}

/// The capacity of a queue.
pub open spec fn capacity_of(queues: Seq<QueueDecl>, queue: Seq<char>) -> Option<usize>
    decreases queues.len(),
{
    if queues.len() == 0 {
        None
    } else if queues[0].name@ == queue {
        Some(queues[0].capacity)
    } else {
        capacity_of(queues.drop_first(), queue)
    }
}

/// The largest capacity of the queues that a department takes from, where every one is declared.
pub open spec fn mailbox_of(queues: Seq<QueueDecl>, consumes: Seq<Seq<char>>) -> Option<
    Option<usize>,
>
    decreases consumes.len(),
{
    if consumes.len() == 0 {
        Some(None)
    } else {
        match (mailbox_of(queues, consumes.drop_last()), capacity_of(queues, consumes.last())) {
            (Some(Some(front)), Some(last)) => Some(
                Some(
                    if front >= last {
                        front
                    } else {
                        last
                    },
                ),
            ),
            (Some(None), Some(last)) => Some(Some(last)),
            _ => None,
        }
    }
}

fn queue_capacity(queues: &Vec<QueueDecl>, queue: &str) -> (r: Option<usize>)
    ensures
        r == capacity_of(queues@, queue@),
{
    let mut i: usize = 0;
    assert(queues@.skip(0) =~= queues@);
    while i < queues.len()
        invariant
            i <= queues@.len(),
            capacity_of(queues@, queue@) == capacity_of(queues@.skip(i as int), queue@),
        decreases queues@.len() - i,
    {
        proof {
            assert(queues@.skip(i as int)[0] == queues@[i as int]);
            assert(queues@.skip(i as int).drop_first() =~= queues@.skip(i + 1));
        }
        if same_text(queues[i].name.as_str(), queue) {
            return Some(queues[i].capacity);
        }
        i = i + 1;
    }
    None
}

/// The first of the queues that is not declared.
pub open spec fn first_undeclared(queues: Seq<QueueDecl>, consumes: Seq<Seq<char>>) -> Option<
    Seq<char>,
>
    decreases consumes.len(),
{
    if consumes.len() == 0 {
        None
    } else if capacity_of(queues, consumes[0]) is None {
        Some(consumes[0])
    } else {
        first_undeclared(queues, consumes.drop_first())
    }
}

/// Why a department cannot start, if it cannot.
pub open spec fn startup_fault(queues: Seq<QueueDecl>, d: DepartmentDecl) -> Option<StartupFault> {
    match first_undeclared(queues, texts_view(d.consumes@)) {
        Some(queue) => Some(
            StartupFault::UndeclaredQueue { department: d.name@, queue },
        ),
        None => if d.consumes@.len() == 0 {
            Some(StartupFault::NoQueue { department: d.name@ })
        } else {
            None
        },
    }
}

/// How many events wait for a department at the most: as many as in the largest queue that it takes
/// from.
pub fn department_capacity(queues: &Vec<QueueDecl>, d: &DepartmentDecl) -> (r: Result<
    usize,
    StartupError,
>)
    ensures
        match r {
            Ok(n) => startup_fault(queues@, *d) is None && mailbox_of(
                queues@,
                texts_view(d.consumes@),
            ) == Some(Some(n)),
            Err(e) => startup_fault(queues@, *d) == Some(e@),
        },
{
    let ghost consumes = texts_view(d.consumes@);
    let mut largest: Option<usize> = None;
    let mut i: usize = 0;
    assert(consumes.skip(0) =~= consumes);
    while i < d.consumes.len()
        invariant
            consumes == texts_view(d.consumes@),
            i <= d.consumes@.len(),
            mailbox_of(queues@, consumes.take(i as int)) == Some(largest),
            first_undeclared(queues@, consumes) == first_undeclared(
                queues@,
                consumes.skip(i as int),
            ),
            i > 0 ==> largest is Some,
        decreases d.consumes@.len() - i,
    {
        let queue: &str = d.consumes[i].as_str();
        proof {
            assert(consumes.take(i + 1).drop_last() =~= consumes.take(i as int));
            assert(consumes.take(i + 1).last() == queue@);
            assert(consumes.skip(i as int)[0] == queue@);
            assert(consumes.skip(i as int).drop_first() =~= consumes.skip(i + 1));
        }
        match queue_capacity(queues, queue) {
            Some(n) => {
                largest = match largest {
                    Some(m) => if m >= n {
                        Some(m)
                    } else {
                        Some(n)
                    },
                    None => Some(n),
                };
            },
            None => {
                return Err(
                    StartupError::UndeclaredQueue {
                        department: copy_text(d.name.as_str()),
                        queue: copy_text(queue),
                    },
                );
            },
        }
        i = i + 1;
    }
    assert(consumes.take(consumes.len() as int) =~= consumes);
    match largest {
        Some(n) => Ok(n),
        None => Err(StartupError::NoQueue { department: copy_text(d.name.as_str()) }),
    }
}

} // verus!
