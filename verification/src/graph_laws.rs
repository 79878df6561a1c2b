//! Laws of the graph: who owns a queue, who may put events into it, and which queues there are.

use vstd::prelude::*;
use vstd::string::*;
use crate::config::{
    queue_names, retry_view, DepartmentDecl, QueueDecl, RaiserDecl, RaiserKind, RetryView,
};
use crate::cutting::{is_whitespace, trimmed};
use crate::graph_build::{
    declares, spec_error, spec_fits, DepartmentDefaults, DepartmentPlace, DepartmentSpec,
};
use crate::graph_scan::{
    capacity_of, department_fits, duration_millis, engine_owns_none, fanout_error, fanout_fits,
    fanouts_fit, first_closed, first_undeclared, first_unused, graph_error_text, has_removed_glob,
    is_published, is_referenced, mailbox_of, may_produce, may_publish, namespace_of, owned_by,
    produces_fit, queues_of, raiser_fits, retry_of, seam_error, seam_fault, seam_fits,
    sibling_error, startup_fault, touches, window_of, DeptRetrySetting, GraphError, StartupFault,
};
use crate::numeral::{decimal, lemma_decimal};
use crate::text::texts_view;
use crate::text_laws::{
    is_blank, law_a_text_is_split_at_the_first_separator, law_nothing_is_left_of_whitespace,
    law_what_is_trimmed,
};

verus! {

// Who owns a queue.

/// A queue belongs to the namespace that stands in front of its first dot; one without a dot belongs
/// to everybody.
pub proof fn law_who_owns_a_queue(owner: Seq<char>, name: Seq<char>, namespace: Seq<char>)
    requires
        forall|i: int| 0 <= i < owner.len() ==> #[trigger] owner[i] != '.',
    ensures
        owned_by(owner + seq!['.'] + name, namespace) <==> owner == namespace,
        owned_by(owner, namespace),
        namespace_of(owner + seq!['.'] + name) == owner,
        namespace_of(owner) == Seq::<char>::empty(),
{
    law_a_text_is_split_at_the_first_separator(owner, name, '.');
}

// What a department says of itself.

/// A window that a department does not say, or says with nothing but whitespace, is the usual one;
/// any other stays as it is.
pub proof fn law_which_window_counts(
    a: Seq<char>,
    t: Seq<char>,
    b: Seq<char>,
    default: Seq<char>,
)
    requires
        is_blank(a),
        is_blank(b),
        t.len() > 0,
        !is_whitespace(t[0]),
        !is_whitespace(t.last()),
    ensures
        window_of(a, default) == default,
        window_of(a + t + b, default) == a + t + b,
{
    law_nothing_is_left_of_whitespace(a);
    law_what_is_trimmed(a, t, b);
}

/// Files of the runtime cannot be watched; any others can.
pub proof fn law_which_globs_were_removed(interval: String, glob: String, rest: Seq<char>)
    ensures
        !has_removed_glob(RaiserKind::Cron { interval }),
        glob@ == "runtime://"@ + rest ==> has_removed_glob(RaiserKind::FileWatch { glob }),
        has_removed_glob(RaiserKind::FileWatch { glob }) ==> exists|behind: Seq<char>|
            glob@ == #[trigger] ("runtime://"@ + behind),
{
    if glob@ == "runtime://"@ + rest {
        assert(glob@.subrange(0, "runtime://"@.len() as int) =~= "runtime://"@);
    }
    if has_removed_glob(RaiserKind::FileWatch { glob }) {
        let n = "runtime://"@.len() as int;
        assert(glob@ =~= "runtime://"@ + glob@.skip(n));
    }
}

/// A department is tried again as it says, and by default as usual; what it leaves out is as usual.
/// One that takes nothing but dead letters is not tried again by default, and one that takes other
/// queues too has to say.
pub proof fn law_how_a_department_is_tried_again(
    defaults: RetryView,
    letters: bool,
    others: bool,
    max_attempts: Option<u64>,
    base: Option<String>,
    cap: Option<String>,
)
    ensures
        retry_of(DeptRetrySetting::Disabled, defaults, letters, others) == Some(
            None::<RetryView>,
        ),
        retry_of(DeptRetrySetting::Default, defaults, false, others) == Some(Some(defaults)),
        retry_of(DeptRetrySetting::Default, defaults, true, false) == Some(None::<RetryView>),
        retry_of(DeptRetrySetting::Default, defaults, true, true) is None,
        retry_of(DeptRetrySetting::Custom { max_attempts, base, cap }, defaults, letters, others)
            matches Some(Some(r)) && {
            &&& max_attempts matches Some(n) ==> r.max_attempts == n
            &&& max_attempts is None ==> r.max_attempts == defaults.max_attempts
            &&& base matches Some(s) ==> r.base == s@
            &&& base is None ==> r.base == defaults.base
            &&& cap matches Some(s) ==> r.cap == s@
            &&& cap is None ==> r.cap == defaults.cap
        },
{
}

/// `s`, `m` and `h` behind a number say seconds, minutes and hours; a nought and any other letter
/// say nothing.
pub proof fn law_how_long_to_wait(n: nat, c: char)
    requires
        3_600_000 * n <= u128::MAX,
    ensures
        n > 0 ==> duration_millis(decimal(n) + seq!['s']) == Some(1_000 * n),
        n > 0 ==> duration_millis(decimal(n) + seq!['m']) == Some(60_000 * n),
        n > 0 ==> duration_millis(decimal(n) + seq!['h']) == Some(3_600_000 * n),
        n == 0 ==> duration_millis(decimal(n) + seq![c]) is None,
        c != 's' && c != 'm' && c != 'h' ==> duration_millis(decimal(n) + seq![c]) is None,
        duration_millis(seq![c]) is None,
        duration_millis(Seq::empty()) is None,
{
    lemma_decimal(n);
    crate::text_laws::law_a_number_is_read_from_its_numeral(n);
    assert((decimal(n) + seq!['s']).drop_last() =~= decimal(n));
    assert((decimal(n) + seq!['m']).drop_last() =~= decimal(n));
    assert((decimal(n) + seq!['h']).drop_last() =~= decimal(n));
    assert((decimal(n) + seq![c]).drop_last() =~= decimal(n));
    assert(seq![c].drop_last() =~= Seq::<char>::empty());
    crate::text_laws::law_what_is_no_number(Seq::empty(), 0);
}

/// A declaration says of a department what its specification says, where it lies, and how it is
/// tried again.
pub proof fn law_a_declaration_says_what_was_specified(
    d: DepartmentDecl,
    spec: DepartmentSpec,
    place: DepartmentPlace,
    defaults: DepartmentDefaults,
)
    requires
        declares(d, spec, place, defaults),
    ensures
        d.name@ == place.name@,
        d.lua@ == place.lua@,
        d.owner_root@ == place.owner_root@,
        d.owner_namespace@ == place.owner_namespace@,
        texts_view(d.consumes@) == texts_view(spec.consumes@),
        texts_view(d.produces@) == texts_view(spec.produces@),
        texts_view(d.fanout@) == texts_view(spec.fanout@),
        texts_view(d.published_seam@) == texts_view(spec.published_seam@),
        texts_view(d.ephemeral@) == texts_view(spec.ephemeral@),
        d.graph_json == spec.graph_json,
        trimmed(spec.stall_window@).len() > 0 ==> d.stall_window@ == spec.stall_window@,
        trimmed(spec.stall_window@).len() == 0 ==> d.stall_window@ == defaults.stall_window@,
        spec.retry is Disabled ==> d.retry is None,
        spec.retry is Default && !spec.dead_letters@.contains(true) ==> retry_view(d.retry) == Some(
            defaults.retry@,
        ),
{
}

/// A specification is refused where it puts events into a queue of the engine, where it publishes a
/// queue that it may not publish, or where it does not say how it is tried again although it has to,
/// and in no other case; the first of these is what it is refused for.
pub proof fn law_why_a_specification_is_refused(
    spec: DepartmentSpec,
    place: DepartmentPlace,
    defaults: DepartmentDefaults,
    e: GraphError,
)
    ensures
        spec_fits(spec, place, defaults) <==> {
            &&& forall|i: int|
                0 <= i < spec.providers@.len() ==> (#[trigger] spec.providers@[i]) is None
            &&& seam_fits(
                texts_view(spec.published_seam@),
                texts_view(spec.consumes@),
                place.owner_namespace@,
            )
            &&& !(spec.retry is Default && spec.dead_letters@.contains(true)
                && spec.dead_letters@.contains(false))
        },
        !spec_fits(spec, place, defaults) && spec_error(spec, place, defaults, e) ==> (e
            is RuntimeOwnedQueue <==> exists|i: int|
            0 <= i < spec.providers@.len() && (#[trigger] spec.providers@[i]) is Some),
        !spec_fits(spec, place, defaults) && spec_error(spec, place, defaults, e) ==> e
            is RuntimeOwnedQueue || e is SeamNotConsumed || e is SeamNotOwned || e
            is MixedDeadLetter,
{
    if !spec_fits(spec, place, defaults) && spec_error(spec, place, defaults, e) {
        if engine_owns_none(spec.providers@) {
            if seam_fits(
                texts_view(spec.published_seam@),
                texts_view(spec.consumes@),
                place.owner_namespace@,
            ) {
            } else {
                let seam = texts_view(spec.published_seam@);
                let i = choose|i: int|
                    0 <= i < seam.len() && seam_error(
                        e,
                        #[trigger] seam[i],
                        texts_view(spec.consumes@),
                        place.owner_namespace@,
                        place.own_name@,
                    ) && forall|j: int|
                        0 <= j < i ==> may_publish(
                            #[trigger] seam[j],
                            texts_view(spec.consumes@),
                            place.owner_namespace@,
                        );
                assert(seam_error(
                    e,
                    seam[i],
                    texts_view(spec.consumes@),
                    place.owner_namespace@,
                    place.own_name@,
                ));
            }
        }
    }
}

// Who may put events into a queue.

/// A department publishes queues that it takes from and that its namespace owns, and no others.
pub proof fn law_what_may_be_published(
    seam: Seq<Seq<char>>,
    consumes: Seq<Seq<char>>,
    namespace: Seq<char>,
    i: int,
)
    ensures
        0 <= i < seam.len() && !consumes.contains(seam[i]) ==> !seam_fits(
            seam,
            consumes,
            namespace,
        ),
        0 <= i < seam.len() && !owned_by(seam[i], namespace) ==> !seam_fits(
            seam,
            consumes,
            namespace,
        ),
        (forall|k: int|
            0 <= k < seam.len() ==> consumes.contains(#[trigger] seam[k]) && owned_by(
                seam[k],
                namespace,
            )) ==> seam_fits(seam, consumes, namespace),
{
    if 0 <= i < seam.len() && seam_fits(seam, consumes, namespace) {
        assert(may_publish(seam[i], consumes, namespace));
    }
}

/// A refused publication names the department and the first queue that it may not publish.
pub proof fn law_which_publication_is_refused(
    seam: Seq<Seq<char>>,
    consumes: Seq<Seq<char>>,
    namespace: Seq<char>,
    department: Seq<char>,
    e: GraphError,
    i: int,
)
    requires
        seam_fault(seam, consumes, namespace, department, e),
        0 <= i < seam.len(),
        !consumes.contains(seam[i]) || !owned_by(seam[i], namespace),
        forall|k: int|
            0 <= k < i ==> consumes.contains(#[trigger] seam[k]) && owned_by(seam[k], namespace),
    ensures
        !consumes.contains(seam[i]) ==> (e matches GraphError::SeamNotConsumed {
            department: d,
            queue: q,
        } && d@ == department && q@ == seam[i]),
        consumes.contains(seam[i]) ==> (e matches GraphError::SeamNotOwned {
            department: d,
            queue: q,
            namespace: n,
        } && d@ == department && q@ == seam[i] && n@ == namespace),
{
    let k = choose|k: int|
        0 <= k < seam.len() && seam_error(e, #[trigger] seam[k], consumes, namespace, department)
            && forall|j: int| 0 <= j < k ==> may_publish(#[trigger] seam[j], consumes, namespace);
    if k < i {
        assert(consumes.contains(seam[k]) && owned_by(seam[k], namespace));
    } else if i < k {
        assert(may_publish(seam[i], consumes, namespace));
    }
}

/// A department puts events into the queues of its own namespace and into those that somebody
/// publishes, and into no others; so does a raiser.
pub proof fn law_what_may_be_produced(
    ds: Seq<DepartmentDecl>,
    rs: Seq<RaiserDecl>,
    i: int,
    k: int,
    p: int,
)
    ensures
        0 <= i < ds.len() && 0 <= k < ds[i].produces@.len() && !owned_by(
            ds[i].produces@[k]@,
            ds[i].owner_namespace@,
        ) && !is_published(ds, ds[i].produces@[k]@) ==> !produces_fit(ds, rs),
        0 <= i < rs.len() && !owned_by(rs[i].produces@, namespace_of(rs[i].name@)) && !is_published(
            ds,
            rs[i].produces@,
        ) ==> !produces_fit(ds, rs),
        0 <= p < ds.len() && 0 <= k < ds[p].published_seam@.len() ==> is_published(
            ds,
            ds[p].published_seam@[k]@,
        ),
        forall|q: Seq<char>| #[trigger]
            is_published(ds, q) ==> exists|d: int, j: int|
                0 <= d < ds.len() && 0 <= j < ds[d].published_seam@.len()
                    && #[trigger] ds[d].published_seam@[j]@ == q,
{
    if 0 <= i < ds.len() && 0 <= k < ds[i].produces@.len() && produces_fit(ds, rs) {
        assert(department_fits(ds, ds[i]));
        assert(may_produce(ds, texts_view(ds[i].produces@)[k], ds[i].owner_namespace@));
    }
    if 0 <= i < rs.len() && produces_fit(ds, rs) {
        assert(raiser_fits(ds, rs[i]));
    }
    if 0 <= p < ds.len() && 0 <= k < ds[p].published_seam@.len() {
        assert(texts_view(ds[p].published_seam@)[k] == ds[p].published_seam@[k]@);
        assert(texts_view(ds[p].published_seam@).contains(ds[p].published_seam@[k]@));
    }
    assert forall|q: Seq<char>| #[trigger] is_published(ds, q) implies exists|d: int, j: int|
        0 <= d < ds.len() && 0 <= j < ds[d].published_seam@.len()
            && #[trigger] ds[d].published_seam@[j]@ == q by {
        let d = choose|d: int|
            0 <= d < ds.len() && texts_view((#[trigger] ds[d]).published_seam@).contains(q);
        let j = choose|j: int|
            0 <= j < texts_view(ds[d].published_seam@).len() && texts_view(
                ds[d].published_seam@,
            )[j] == q;
        assert(ds[d].published_seam@[j]@ == q);
    }
}

/// Departments and raisers that keep to their own namespaces fit.
pub proof fn law_own_queues_may_be_produced(ds: Seq<DepartmentDecl>, rs: Seq<RaiserDecl>)
    requires
        forall|i: int, k: int|
            0 <= i < ds.len() && 0 <= k < ds[i].produces@.len() ==> owned_by(
                #[trigger] ds[i].produces@[k]@,
                ds[i].owner_namespace@,
            ),
        forall|i: int|
            0 <= i < rs.len() ==> owned_by((#[trigger] rs[i]).produces@, namespace_of(rs[i].name@)),
    ensures
        produces_fit(ds, rs),
{
    assert forall|i: int| 0 <= i < ds.len() implies department_fits(ds, #[trigger] ds[i]) by {
        assert forall|k: int| 0 <= k < ds[i].produces@.len() implies may_produce(
            ds,
            #[trigger] texts_view(ds[i].produces@)[k],
            ds[i].owner_namespace@,
        ) by {
            assert(owned_by(ds[i].produces@[k]@, ds[i].owner_namespace@));
        }
    }
}

/// A department declares fanout for queues that it takes from or puts events into, and for no others.
pub proof fn law_what_may_have_fanout(ds: Seq<DepartmentDecl>, i: int, k: int)
    ensures
        0 <= i < ds.len() && 0 <= k < ds[i].fanout@.len() && !texts_view(ds[i].consumes@).contains(
            ds[i].fanout@[k]@,
        ) && !texts_view(ds[i].produces@).contains(ds[i].fanout@[k]@) ==> !fanouts_fit(ds),
        (forall|d: int, j: int|
            0 <= d < ds.len() && 0 <= j < ds[d].fanout@.len() ==> texts_view(
                ds[d].consumes@,
            ).contains(#[trigger] ds[d].fanout@[j]@) || texts_view(ds[d].produces@).contains(
                ds[d].fanout@[j]@,
            )) ==> fanouts_fit(ds),
{
    if 0 <= i < ds.len() && 0 <= k < ds[i].fanout@.len() && fanouts_fit(ds) {
        assert(fanout_fits(ds[i]));
        assert(touches(ds[i], texts_view(ds[i].fanout@)[k]));
    }
    if forall|d: int, j: int|
        0 <= d < ds.len() && 0 <= j < ds[d].fanout@.len() ==> texts_view(ds[d].consumes@).contains(
            #[trigger] ds[d].fanout@[j]@,
        ) || texts_view(ds[d].produces@).contains(ds[d].fanout@[j]@) {
        assert forall|d: int| 0 <= d < ds.len() implies fanout_fits(#[trigger] ds[d]) by {
            assert forall|j: int| 0 <= j < ds[d].fanout@.len() implies touches(
                ds[d],
                #[trigger] texts_view(ds[d].fanout@)[j],
            ) by {
                assert(texts_view(ds[d].consumes@).contains(ds[d].fanout@[j]@) || texts_view(
                    ds[d].produces@,
                ).contains(ds[d].fanout@[j]@));
            }
        }
    }
}

// Which queues there are.

/// There is a queue for each that a department takes from or puts events into and for each that a
/// raiser puts events into, each with the same room; its events go to everybody just where a
/// department says so.
pub proof fn law_which_queues_there_are(
    ds: Seq<DepartmentDecl>,
    rs: Seq<RaiserDecl>,
    capacity: usize,
    queues: Seq<QueueDecl>,
    i: int,
    k: int,
    q: int,
)
    requires
        queues_of(ds, rs, capacity, queues),
    ensures
        0 <= i < ds.len() && 0 <= k < ds[i].consumes@.len() ==> queue_names(queues).contains(
            ds[i].consumes@[k]@,
        ),
        0 <= i < ds.len() && 0 <= k < ds[i].produces@.len() ==> queue_names(queues).contains(
            ds[i].produces@[k]@,
        ),
        0 <= i < rs.len() ==> queue_names(queues).contains(rs[i].produces@),
        0 <= q < queues.len() ==> queues[q].capacity == capacity,
        0 <= q < queues.len() ==> (queues[q].fanout <==> exists|d: int|
            0 <= d < ds.len() && texts_view((#[trigger] ds[d]).fanout@).contains(queues[q].name@)),
        0 <= q < queues.len() ==> (exists|d: int|
            0 <= d < ds.len() && (texts_view((#[trigger] ds[d]).consumes@).contains(queues[q].name@)
                || texts_view(ds[d].produces@).contains(queues[q].name@))) || exists|r: int|
            0 <= r < rs.len() && (#[trigger] rs[r]).produces@ == queues[q].name@,
{
    if 0 <= i < ds.len() && 0 <= k < ds[i].consumes@.len() {
        assert(texts_view(ds[i].consumes@)[k] == ds[i].consumes@[k]@);
        assert(touches(ds[i], ds[i].consumes@[k]@));
        assert(is_referenced(ds, rs, ds[i].consumes@[k]@));
    }
    if 0 <= i < ds.len() && 0 <= k < ds[i].produces@.len() {
        assert(texts_view(ds[i].produces@)[k] == ds[i].produces@[k]@);
        assert(touches(ds[i], ds[i].produces@[k]@));
        assert(is_referenced(ds, rs, ds[i].produces@[k]@));
    }
    if 0 <= i < rs.len() {
        assert(is_referenced(ds, rs, rs[i].produces@));
    }
    if 0 <= q < queues.len() {
        assert(queue_names(queues)[q] == queues[q].name@);
        assert(queue_names(queues).contains(queues[q].name@));
        assert(is_referenced(ds, rs, queues[q].name@));
        if exists|d: int| 0 <= d < ds.len() && touches(#[trigger] ds[d], queues[q].name@) {
            let d = choose|d: int| 0 <= d < ds.len() && touches(#[trigger] ds[d], queues[q].name@);
            assert(texts_view(ds[d].consumes@).contains(queues[q].name@) || texts_view(
                ds[d].produces@,
            ).contains(queues[q].name@));
        }
    }
}

/// A queue has the room that its declaration says.
pub proof fn law_the_room_of_a_queue(queues: Seq<QueueDecl>, queue: Seq<char>, i: int)
    ensures
        capacity_of(queues, queue) is Some <==> queue_names(queues).contains(queue),
        0 <= i < queues.len() && queues[i].name@ == queue && (forall|k: int|
            0 <= k < i ==> (#[trigger] queues[k]).name@ != queue) ==> capacity_of(queues, queue)
            == Some(queues[i].capacity),
    decreases queues.len(),
{
    let names = queue_names(queues);
    if queues.len() > 0 {
        let rest = queues.drop_first();
        law_the_room_of_a_queue(rest, queue, i - 1);
        let fewer = queue_names(rest);
        if names.contains(queue) {
            let k = choose|k: int| 0 <= k < names.len() && names[k] == queue;
            if k > 0 {
                assert(fewer[k - 1] == queue);
            }
        }
        if fewer.contains(queue) {
            let k = choose|k: int| 0 <= k < fewer.len() && fewer[k] == queue;
            assert(names[k + 1] == queue);
        }
        if queues[0].name@ == queue {
            assert(names[0] == queue);
        }
        if 0 < i < queues.len() && (forall|k: int|
            0 <= k < i ==> (#[trigger] queues[k]).name@ != queue) {
            assert(queues[0].name@ != queue);
            assert(rest[i - 1] == queues[i]);
            assert forall|k: int| 0 <= k < i - 1 implies (#[trigger] rest[k]).name@ != queue by {
                assert(rest[k] == queues[k + 1]);
            }
        }
    }
}

/// The mailbox of a department has as much room as the largest of the queues that it takes from.
pub proof fn law_the_room_of_a_mailbox(queues: Seq<QueueDecl>, consumes: Seq<Seq<char>>, i: int)
    ensures
        consumes.len() == 0 ==> mailbox_of(queues, consumes) == Some(None::<usize>),
        mailbox_of(queues, consumes) is None <==> exists|k: int|
            0 <= k < consumes.len() && capacity_of(queues, #[trigger] consumes[k]) is None,
        mailbox_of(queues, consumes) matches Some(Some(n)) ==> (0 <= i < consumes.len()
            ==> (capacity_of(queues, consumes[i]) matches Some(m) && m <= n)) && exists|k: int|
            0 <= k < consumes.len() && capacity_of(queues, #[trigger] consumes[k]) == Some(n),
        consumes.len() > 0 && mailbox_of(queues, consumes) is Some ==> mailbox_of(queues, consumes)->0
            is Some,
    decreases consumes.len(),
{
    if consumes.len() > 0 {
        let front = consumes.drop_last();
        law_the_room_of_a_mailbox(queues, front, i);
        let last = consumes.len() - 1;
        assert(forall|k: int| 0 <= k < front.len() ==> #[trigger] front[k] == consumes[k]);
        if mailbox_of(queues, front) is None {
            let k = choose|k: int|
                0 <= k < front.len() && capacity_of(queues, #[trigger] front[k]) is None;
            assert(capacity_of(queues, consumes[k]) is None);
        }
        if capacity_of(queues, consumes.last()) is None {
            assert(capacity_of(queues, consumes[last]) is None);
        }
        if exists|k: int| 0 <= k < consumes.len() && capacity_of(queues, #[trigger] consumes[k])
            is None {
            let k = choose|k: int|
                0 <= k < consumes.len() && capacity_of(queues, #[trigger] consumes[k]) is None;
            if k < front.len() {
                assert(capacity_of(queues, front[k]) is None);
            }
        }
        if let Some(Some(n)) = mailbox_of(queues, consumes) {
            if front.len() > 0 && mailbox_of(queues, front) == Some(Some(n)) {
                let k = choose|k: int|
                    0 <= k < front.len() && capacity_of(queues, #[trigger] front[k]) == Some(n);
                assert(capacity_of(queues, consumes[k]) == Some(n));
            } else {
                assert(capacity_of(queues, consumes[last]) == Some(n));
            }
        }
    }
}

/// A department cannot start where it takes from no queue, or from one that is not declared; the
/// first such queue is named. Any other can.
pub proof fn law_which_departments_start(queues: Seq<QueueDecl>, d: DepartmentDecl, i: int)
    ensures
        d.consumes@.len() == 0 ==> startup_fault(queues, d) == Some(
            StartupFault::NoQueue { department: d.name@ },
        ),
        0 <= i < d.consumes@.len() && !queue_names(queues).contains(d.consumes@[i]@) && (forall|
            k: int,
        |
            0 <= k < i ==> queue_names(queues).contains((#[trigger] d.consumes@[k])@))
            ==> startup_fault(queues, d) == Some(
            StartupFault::UndeclaredQueue { department: d.name@, queue: d.consumes@[i]@ },
        ),
        d.consumes@.len() > 0 && (forall|k: int|
            0 <= k < d.consumes@.len() ==> queue_names(queues).contains(
                (#[trigger] d.consumes@[k])@,
            )) ==> startup_fault(queues, d) is None,
{
    let consumes = texts_view(d.consumes@);
    lemma_first_undeclared(queues, consumes, i);
    assert(forall|k: int| 0 <= k < consumes.len() ==> #[trigger] consumes[k] == d.consumes@[k]@);
    if 0 <= i < d.consumes@.len() && !queue_names(queues).contains(d.consumes@[i]@) && (forall|
        k: int,
    |
        0 <= k < i ==> queue_names(queues).contains((#[trigger] d.consumes@[k])@)) {
        law_the_room_of_a_queue(queues, consumes[i], 0);
        assert forall|k: int| 0 <= k < i implies capacity_of(queues, #[trigger] consumes[k])
            is Some by {
            assert(queue_names(queues).contains(d.consumes@[k]@));
            law_the_room_of_a_queue(queues, consumes[k], 0);
        }
    }
    if forall|k: int|
        0 <= k < d.consumes@.len() ==> queue_names(queues).contains((#[trigger] d.consumes@[k])@) {
        assert forall|k: int| 0 <= k < consumes.len() implies capacity_of(
            queues,
            #[trigger] consumes[k],
        ) is Some by {
            assert(queue_names(queues).contains(d.consumes@[k]@));
            law_the_room_of_a_queue(queues, consumes[k], 0);
        }
    }
}

proof fn lemma_first_undeclared(queues: Seq<QueueDecl>, consumes: Seq<Seq<char>>, i: int)
    ensures
        0 <= i < consumes.len() && capacity_of(queues, consumes[i]) is None && (forall|k: int|
            0 <= k < i ==> capacity_of(queues, #[trigger] consumes[k]) is Some) ==> first_undeclared(
            queues,
            consumes,
        ) == Some(consumes[i]),
        (forall|k: int|
            0 <= k < consumes.len() ==> capacity_of(queues, #[trigger] consumes[k]) is Some)
            ==> first_undeclared(queues, consumes) is None,
    decreases consumes.len(),
{
    if consumes.len() > 0 {
        let rest = consumes.drop_first();
        lemma_first_undeclared(queues, rest, i - 1);
        assert(forall|k: int| 0 <= k < rest.len() ==> #[trigger] rest[k] == consumes[k + 1]);
        if forall|k: int|
            0 <= k < consumes.len() ==> capacity_of(queues, #[trigger] consumes[k]) is Some {
            assert(capacity_of(queues, consumes[0]) is Some);
            assert forall|k: int| 0 <= k < rest.len() implies capacity_of(queues, #[trigger] rest[k])
                is Some by {
                assert(capacity_of(queues, consumes[k + 1]) is Some);
            }
        }
        if 0 < i < consumes.len() && (forall|k: int|
            0 <= k < i ==> capacity_of(queues, #[trigger] consumes[k]) is Some) {
            assert(capacity_of(queues, consumes[0]) is Some);
            assert forall|k: int| 0 <= k < i - 1 implies capacity_of(queues, #[trigger] rest[k])
                is Some by {
                assert(capacity_of(queues, consumes[k + 1]) is Some);
            }
        }
    }
}

// What is told of a refused graph.

/// Which fault was found first names the right department or raiser and its queue.
pub proof fn law_which_product_is_refused(
    ds: Seq<DepartmentDecl>,
    rs: Seq<RaiserDecl>,
    e: GraphError,
)
    requires
        sibling_error(ds, rs, e),
    ensures
        !produces_fit(ds, rs),
        e matches GraphError::DepartmentSibling { department, queue } ==> exists|i: int|
            0 <= i < ds.len() && (#[trigger] ds[i]).name@ == department@ && texts_view(
                ds[i].produces@,
            ).contains(queue@) && !owned_by(queue@, ds[i].owner_namespace@) && !is_published(
                ds,
                queue@,
            ),
        e matches GraphError::RaiserSibling { raiser, queue } ==> exists|i: int|
            0 <= i < rs.len() && (#[trigger] rs[i]).name@ == raiser@ && rs[i].produces@ == queue@
                && !owned_by(queue@, namespace_of(raiser@)) && !is_published(ds, queue@),
{
    match e {
        GraphError::DepartmentSibling { department, queue } => {
            let (i, k) = choose|i: int, k: int|
                {
                    &&& 0 <= i < ds.len()
                    &&& #[trigger] first_closed(ds, ds[i], k)
                    &&& department@ == ds[i].name@
                    &&& queue@ == ds[i].produces@[k]@
                    &&& forall|j: int| 0 <= j < i ==> department_fits(ds, #[trigger] ds[j])
                };
            assert(first_closed(ds, ds[i], k));
            assert(texts_view(ds[i].produces@)[k] == queue@);
            assert(!may_produce(ds, texts_view(ds[i].produces@)[k], ds[i].owner_namespace@));
            assert(!department_fits(ds, ds[i]));
        },
        GraphError::RaiserSibling { raiser, queue } => {},
        _ => {},
    }
}

/// A refused fanout names a department and a queue that it has nothing to do with.
pub proof fn law_which_fanout_is_refused(ds: Seq<DepartmentDecl>, e: GraphError)
    requires
        fanout_error(ds, e),
    ensures
        !fanouts_fit(ds),
        e matches GraphError::FanoutUnused { department, queue } && exists|i: int|
            0 <= i < ds.len() && (#[trigger] ds[i]).name@ == department@ && texts_view(
                ds[i].fanout@,
            ).contains(queue@) && !texts_view(ds[i].consumes@).contains(queue@) && !texts_view(
                ds[i].produces@,
            ).contains(queue@),
{
    if let GraphError::FanoutUnused { department, queue } = e {
        let (i, k) = choose|i: int, k: int|
            {
                &&& 0 <= i < ds.len()
                &&& #[trigger] first_unused(ds[i], k)
                &&& department@ == ds[i].name@
                &&& queue@ == ds[i].fanout@[k]@
                &&& forall|j: int| 0 <= j < i ==> fanout_fits(#[trigger] ds[j])
            };
        assert(first_unused(ds[i], k));
        assert(texts_view(ds[i].fanout@)[k] == queue@);
        assert(!touches(ds[i], texts_view(ds[i].fanout@)[k]));
        assert(!fanout_fits(ds[i]));
    }
}

/// A message about a refused graph starts with who is refused, and names the queue behind that.
pub proof fn law_messages_name_who_is_refused(department: String, queue: String, other: String)
    ensures
        ("duplicate department `"@ + department@ + "`"@).is_prefix_of(
            graph_error_text(GraphError::DuplicateDepartment { name: department, path: queue }),
        ),
        queue@.is_suffix_of(
            graph_error_text(GraphError::DuplicateDepartment { name: department, path: queue }),
        ),
        ("duplicate raiser `"@ + department@ + "`"@).is_prefix_of(
            graph_error_text(GraphError::DuplicateRaiser { name: department, path: queue }),
        ),
        ("department `"@ + department@ + "` produces sibling queue `"@ + queue@ + "`"@).is_prefix_of(
            graph_error_text(GraphError::DepartmentSibling { department, queue }),
        ),
        ("raiser `"@ + department@ + "` produces sibling queue `"@ + queue@ + "`"@).is_prefix_of(
            graph_error_text(GraphError::RaiserSibling { raiser: department, queue }),
        ),
        ("department `"@ + department@ + "` declares fanout queue `"@ + queue@ + "`"@).is_prefix_of(
            graph_error_text(GraphError::FanoutUnused { department, queue }),
        ),
        ("department `"@ + department@ + "` publishes queue `"@ + queue@ + "`"@).is_prefix_of(
            graph_error_text(GraphError::SeamNotConsumed { department, queue }),
        ),
        ("department `"@ + department@ + "` publishes queue `"@ + queue@ + "`"@).is_prefix_of(
            graph_error_text(GraphError::SeamNotOwned { department, queue, namespace: other }),
        ),
        (other@ + "`"@).is_suffix_of(
            graph_error_text(GraphError::SeamNotOwned { department, queue, namespace: other }),
        ),
        (other@ + "`"@).is_suffix_of(
            graph_error_text(
                GraphError::RuntimeOwnedQueue { department, queue, provider: other },
            ),
        ),
{
    reveal_strlit("`");
    reveal_strlit("` at ");
    reveal_strlit("` which is not published by that package in M.spec.published_seam");
    reveal_strlit("` which it does not consume or produce");
    reveal_strlit("` in M.spec.published_seam but does not consume it");
    reveal_strlit(
        "` in M.spec.published_seam but the queue is not owned by namespace `",
    );
    lemma_front(
        "duplicate department `"@ + department@ + "`"@,
        graph_error_text(GraphError::DuplicateDepartment { name: department, path: queue }),
    );
    lemma_back(
        queue@,
        graph_error_text(GraphError::DuplicateDepartment { name: department, path: queue }),
    );
    lemma_front(
        "duplicate raiser `"@ + department@ + "`"@,
        graph_error_text(GraphError::DuplicateRaiser { name: department, path: queue }),
    );
    lemma_front(
        "department `"@ + department@ + "` produces sibling queue `"@ + queue@ + "`"@,
        graph_error_text(GraphError::DepartmentSibling { department, queue }),
    );
    lemma_front(
        "raiser `"@ + department@ + "` produces sibling queue `"@ + queue@ + "`"@,
        graph_error_text(GraphError::RaiserSibling { raiser: department, queue }),
    );
    lemma_front(
        "department `"@ + department@ + "` declares fanout queue `"@ + queue@ + "`"@,
        graph_error_text(GraphError::FanoutUnused { department, queue }),
    );
    lemma_front(
        "department `"@ + department@ + "` publishes queue `"@ + queue@ + "`"@,
        graph_error_text(GraphError::SeamNotConsumed { department, queue }),
    );
    lemma_front(
        "department `"@ + department@ + "` publishes queue `"@ + queue@ + "`"@,
        graph_error_text(GraphError::SeamNotOwned { department, queue, namespace: other }),
    );
    lemma_back(
        other@ + "`"@,
        graph_error_text(GraphError::SeamNotOwned { department, queue, namespace: other }),
    );
    lemma_back(
        other@ + "`"@,
        graph_error_text(GraphError::RuntimeOwnedQueue { department, queue, provider: other }),
    );
}

proof fn lemma_front(front: Seq<char>, s: Seq<char>)
    requires
        front.len() <= s.len(),
        forall|i: int| 0 <= i < front.len() ==> #[trigger] front[i] == s[i],
    ensures
        front.is_prefix_of(s),
{
    assert(s.subrange(0, front.len() as int) =~= front);
}

proof fn lemma_back(back: Seq<char>, s: Seq<char>)
    requires
        back.len() <= s.len(),
        forall|i: int|
            0 <= i < back.len() ==> #[trigger] back[i] == s[s.len() - back.len() + i],
    ensures
        back.is_suffix_of(s),
{
    assert(s.subrange(s.len() - back.len(), s.len() as int) =~= back);
}

} // verus!
