//! What an event says of a queue whose head waits for too long.

use vstd::prelude::*;
use vstd::string::*;
use crate::cutting::{split, split_text};
use crate::delivery_types::{put, SourceRef};
use crate::event::{Event, EventView};
use crate::json::{members_view, Json, JsonView, Member};
use crate::text::{copy_text, same_text, texts_view};

verus! {

/// Where an item waits: the pull request, and the issue that it belongs to.
pub struct QueueStarvationSource {
    pub repo_owner: String,
    pub repo_name: String,
    pub state: String,
    pub pr_number: String,
    pub owner: String,
    pub issue_repo_owner: String,
    pub issue_repo_name: String,
    pub issue_number: String,
}

pub struct StarvationView {
    pub repo_owner: Seq<char>,
    pub repo_name: Seq<char>,
    pub state: Seq<char>,
    pub pr_number: Seq<char>,
    pub owner: Seq<char>,
    pub issue_repo_owner: Seq<char>,
    pub issue_repo_name: Seq<char>,
    pub issue_number: Seq<char>,
}

impl View for QueueStarvationSource {
    type V = StarvationView;

    open spec fn view(&self) -> StarvationView {
        StarvationView {
            repo_owner: self.repo_owner@,
            repo_name: self.repo_name@,
            state: self.state@,
            pr_number: self.pr_number@,
            owner: self.owner@,
            issue_repo_owner: self.issue_repo_owner@,
            issue_repo_name: self.issue_repo_name@,
            issue_number: self.issue_number@,
        }
    }
}

/// What stands behind the first piece that is a word.
pub open spec fn behind_word(pieces: Seq<Seq<char>>, word: Seq<char>) -> Option<Seq<Seq<char>>>
    decreases pieces.len(),
{
    if pieces.len() == 0 {
        None
    } else if pieces[0] == word {
        Some(pieces.drop_first())
    } else {
        behind_word(pieces.drop_first(), word)
    }
}

/// Whether pieces say where an item waits: eleven or more, with three words in their places and
/// nothing empty in the others.
pub open spec fn says_where(rest: Seq<Seq<char>>) -> bool {
    &&& rest.len() >= 11
    &&& rest[3] == "pr"@
    &&& rest[5] == "proposal"@
    &&& rest[7] == "issue"@
    &&& rest[0].len() > 0
    &&& rest[1].len() > 0
    &&& rest[2].len() > 0
    &&& rest[4].len() > 0
    &&& rest[6].len() > 0
    &&& rest[8].len() > 0
    &&& rest[9].len() > 0
    &&& rest[10].len() > 0
}

/// Where the item of a reference waits.
pub open spec fn starvation_of(reference: Seq<char>) -> Option<StarvationView> {
    match behind_word(split(reference, '/'), "queue-starvation"@) {
        None => None,
        Some(rest) => if says_where(rest) {
            Some(
                StarvationView {
                    repo_owner: rest[0],
                    repo_name: rest[1],
                    state: rest[2],
                    pr_number: rest[4],
                    owner: rest[6],
                    issue_repo_owner: rest[8],
                    issue_repo_name: rest[9],
                    issue_number: rest[10],
                },
            )
        } else {
            None
        },
    }
}

pub open spec fn item_of(s: StarvationView) -> Seq<char> {
    s.owner + "/issue/"@ + s.issue_repo_owner + "/"@ + s.issue_repo_name + "/"@ + s.issue_number
}

pub open spec fn linked_item_of(s: StarvationView) -> Seq<char> {
    s.owner + "/pr/"@ + s.repo_owner + "/"@ + s.repo_name + "/"@ + s.pr_number
}

pub open spec fn starvation_view(s: Option<QueueStarvationSource>) -> Option<StarvationView> {
    match s {
        Some(v) => Some(v@),
        None => None,
    }
}

/// Reads where the item of a source waits.
pub fn queue_starvation_source(reference: &str) -> (r: Option<QueueStarvationSource>)
    ensures
        starvation_view(r) == starvation_of(reference@),
{
    let pieces: Vec<String> = split_text(reference, '/');
    let ghost views = texts_view(pieces@);
    let len: usize = pieces.len();
    let mut at: usize = 0;
    assert(views.skip(0) =~= views);
    while at < len && !same_text(pieces[at].as_str(), "queue-starvation")
        invariant
            len == pieces@.len(),
            views == texts_view(pieces@),
            at <= len,
            behind_word(views, "queue-starvation"@) == behind_word(
                views.skip(at as int),
                "queue-starvation"@,
            ),
        decreases len - at,
    {
        proof {
            assert(views.skip(at as int)[0] == pieces@[at as int]@);
            assert(views.skip(at as int).drop_first() =~= views.skip(at + 1));
        }
        at = at + 1;
    }
    if at == len {
        return None;
    }
    let ghost rest = views.skip(at + 1);
    proof {
        assert(views.skip(at as int)[0] == pieces@[at as int]@);
        assert(views.skip(at as int).drop_first() =~= rest);
        assert forall|i: int| 0 <= i < rest.len() implies #[trigger] rest[i] == pieces@[at + 1
            + i]@ by {}
    }
    if len - at < 12 {
        return None;
    }
    let base: usize = at + 1;
    if !same_text(pieces[base + 3].as_str(), "pr") || !same_text(
        pieces[base + 5].as_str(),
        "proposal",
    ) || !same_text(pieces[base + 7].as_str(), "issue") {
        return None;
    }
    if pieces[base].as_str().unicode_len() == 0 || pieces[base + 1].as_str().unicode_len() == 0
        || pieces[base + 2].as_str().unicode_len() == 0 || pieces[base + 4].as_str().unicode_len()
        == 0 || pieces[base + 6].as_str().unicode_len() == 0 || pieces[base
        + 8].as_str().unicode_len() == 0 || pieces[base + 9].as_str().unicode_len() == 0
        || pieces[base + 10].as_str().unicode_len() == 0 {
        return None;
    }
    Some(
        QueueStarvationSource {
            repo_owner: copy_text(pieces[base].as_str()),
            repo_name: copy_text(pieces[base + 1].as_str()),
            state: copy_text(pieces[base + 2].as_str()),
            pr_number: copy_text(pieces[base + 4].as_str()),
            owner: copy_text(pieces[base + 6].as_str()),
            issue_repo_owner: copy_text(pieces[base + 8].as_str()),
            issue_repo_name: copy_text(pieces[base + 9].as_str()),
            issue_number: copy_text(pieces[base + 10].as_str()),
        },
    )
}

impl QueueStarvationSource {
    pub fn item_id(&self) -> (r: String)
        ensures
            r@ == item_of(self@),
    {
        let mut out: String = copy_text(self.owner.as_str());
        out.append("/issue/");
        out.append(self.issue_repo_owner.as_str());
        out.append("/");
        out.append(self.issue_repo_name.as_str());
        out.append("/");
        out.append(self.issue_number.as_str());
        out
    }

    pub fn linked_item_id(&self) -> (r: String)
        ensures
            r@ == linked_item_of(self@),
    {
        let mut out: String = copy_text(self.owner.as_str());
        out.append("/pr/");
        out.append(self.repo_owner.as_str());
        out.append("/");
        out.append(self.repo_name.as_str());
        out.append("/");
        out.append(self.pr_number.as_str());
        out
    }
}

/// The number under a key of a payload, or under that key of its watchdog.
pub open spec fn number_at(payload: JsonView, key: Seq<char>) -> Option<nat> {
    match payload.get(key) {
        Some(v) => v.as_unsigned(),
        None => match payload.get("watchdog"@) {
            Some(w) => match w.get(key) {
                Some(v) => v.as_unsigned(),
                None => None,
            },
            None => None,
        },
    }
}

/// The number under the first of two keys that has one.
pub open spec fn number_at_either(payload: JsonView, first: Seq<char>, second: Seq<char>) -> Option<
    nat,
> {
    match number_at(payload, first) {
        Some(n) => Some(n),
        None => number_at(payload, second),
    }
}

/// Seconds, or minutes in seconds.
pub open spec fn seconds_of(seconds: Option<nat>, minutes: Option<nat>) -> Option<nat> {
    match (seconds, minutes) {
        (Some(n), _) => Some(n),
        (None, Some(n)) => Some(
            if n * 60 <= u64::MAX {
                n * 60
            } else {
                u64::MAX as nat
            },
        ),
        (None, None) => None,
    }
}

pub open spec fn age_of(payload: JsonView) -> Option<nat> {
    seconds_of(
        number_at_either(payload, "queue_head_age_seconds"@, "age_seconds"@),
        number_at_either(payload, "queue_head_age_minutes"@, "age_minutes"@),
    )
}

pub open spec fn threshold_of(payload: JsonView) -> Option<nat> {
    seconds_of(
        number_at_either(payload, "threshold_seconds"@, "slo_seconds"@),
        number_at_either(payload, "threshold_minutes"@, "slo_minutes"@),
    )
}

pub open spec fn order_of(payload: JsonView) -> nat {
    match number_at_either(payload, "queue_order"@, "order"@) {
        Some(n) => n,
        None => 1,
    }
}

/// What an event says of a queue: nothing where its source says nothing of where the item waits,
/// or its payload nothing of how long and how long it may.
pub open spec fn liveness_of(event: EventView, reference: Option<Seq<char>>) -> Option<JsonView> {
    match reference {
        None => None,
        Some(text) => match (
            starvation_of(text),
            age_of(event.payload),
            threshold_of(event.payload),
        ) {
            (Some(s), Some(age), Some(slo)) => Some(liveness_json(s, event, age, slo)),
            _ => None,
        },
    }
}

pub open spec fn liveness_json(s: StarvationView, event: EventView, age: nat, slo: nat) -> JsonView {
    JsonView::Object(
        Map::<Seq<char>, JsonView>::empty().insert(
            "item_id"@,
            JsonView::Text(item_of(s)),
        ).insert("linked_item_id"@, JsonView::Text(linked_item_of(s))).insert(
            "queue"@,
            JsonView::Text(event.queue),
        ).insert("owner"@, JsonView::Text(s.owner)).insert("state"@, JsonView::Text(s.state)).insert(
            "order"@,
            JsonView::Unsigned(order_of(event.payload)),
        ).insert("age_seconds"@, JsonView::Unsigned(age)).insert(
            "slo_seconds"@,
            JsonView::Unsigned(slo),
        ).insert("breached"@, JsonView::Bool(age >= slo)).insert(
            "next_action"@,
            JsonView::Text(
                "route through normal intake consensus implementation review pipeline"@,
            ),
        ),
    )
}

/// The event with what it says of a queue in its payload; as it was where it says nothing.
pub open spec fn canonical(event: EventView, reference: Option<Seq<char>>) -> EventView {
    match (liveness_of(event, reference), event.payload) {
        (Some(liveness), JsonView::Object(members)) => EventView {
            payload: JsonView::Object(members.insert("queue_liveness"@, liveness)),
            ..event
        },
        _ => event,
    }
}

pub open spec fn number_view(n: Option<u64>) -> Option<nat> {
    match n {
        Some(n) => Some(n as nat),
        None => None,
    }
}

fn payload_number(payload: &Json, key: &str) -> (r: Option<u64>)
    ensures
        number_view(r) == number_at(payload@, key@),
{
    match payload.get(key) {
        Some(v) => v.as_unsigned(),
        None => match payload.get("watchdog") {
            Some(w) => match w.get(key) {
                Some(v) => v.as_unsigned(),
                None => None,
            },
            None => None,
        },
    }
}

fn payload_u64(payload: &Json, first: &str, second: &str) -> (r: Option<u64>)
    ensures
        number_view(r) == number_at_either(payload@, first@, second@),
{
    match payload_number(payload, first) {
        Some(n) => Some(n),
        None => payload_number(payload, second),
    }
}

fn payload_seconds(seconds: Option<u64>, minutes: Option<u64>) -> (r: Option<u64>)
    ensures
        number_view(r) == seconds_of(number_view(seconds), number_view(minutes)),
{
    match (seconds, minutes) {
        (Some(n), _) => Some(n),
        (None, Some(n)) => match n.checked_mul(60) {
            Some(m) => Some(m),
            None => Some(u64::MAX),
        },
        (None, None) => None,
    }
}

fn queue_liveness_json(event: &Event, reference: &str) -> (r: Option<Json>)
    ensures
        crate::json::optional_json_view(r) == liveness_of(event@, Some(reference@)),
{
    let source: QueueStarvationSource = match queue_starvation_source(reference) {
        Some(source) => source,
        None => return None,
    };
    let payload: &Json = &event.payload;
    let age_seconds: u64 = match payload_seconds(
        payload_u64(payload, "queue_head_age_seconds", "age_seconds"),
        payload_u64(payload, "queue_head_age_minutes", "age_minutes"),
    ) {
        Some(n) => n,
        None => return None,
    };
    let slo_seconds: u64 = match payload_seconds(
        payload_u64(payload, "threshold_seconds", "slo_seconds"),
        payload_u64(payload, "threshold_minutes", "slo_minutes"),
    ) {
        Some(n) => n,
        None => return None,
    };
    let order: u64 = match payload_u64(payload, "queue_order", "order") {
        Some(n) => n,
        None => 1,
    };
    let mut members: Vec<Member> = Vec::new();
    assert(members_view(members@) =~= Map::empty());
    put(&mut members, "item_id", Json::Text(source.item_id()));
    put(&mut members, "linked_item_id", Json::Text(source.linked_item_id()));
    put(&mut members, "queue", Json::text(event.queue.as_str()));
    put(&mut members, "owner", Json::text(source.owner.as_str()));
    put(&mut members, "state", Json::text(source.state.as_str()));
    put(&mut members, "order", Json::Unsigned(order));
    put(&mut members, "age_seconds", Json::Unsigned(age_seconds));
    put(&mut members, "slo_seconds", Json::Unsigned(slo_seconds));
    put(&mut members, "breached", Json::Bool(age_seconds >= slo_seconds));
    put(
        &mut members,
        "next_action",
        Json::text("route through normal intake consensus implementation review pipeline"),
    );
    Some(Json::Object(members))
}

/// Puts what an event says of a queue into its payload, whatever the caller wrote there.
pub fn canonicalize_event(event: &mut Event, source: &Option<SourceRef>)
    ensures
        final(event)@ == canonical(
            old(event)@,
            match *source {
                Some(s) => Some(s@.reference),
                None => None,
            },
        ),
{
    let reference: &str = match source {
        Some(s) => s.reference.as_str(),
        None => return ,
    };
    match queue_liveness_json(event, reference) {
        None => {},
        Some(liveness) => {
            let mut payload: Json = event.payload.copy();
            match payload {
                Json::Object(mut members) => {
                    put(&mut members, "queue_liveness", liveness);
                    event.payload = Json::Object(members);
                },
                _ => {},
            }
        },
    }
}

/// What the caller wrote of a queue is overwritten by what the event says of it.
pub proof fn law_caller_says_nothing_of_liveness(
    event: EventView,
    other: EventView,
    reference: Seq<char>,
)
    requires
        event.payload is Object,
        other.payload is Object,
        event.queue == other.queue,
        event.ts == other.ts,
        event.payload->Object_0.remove("queue_liveness"@) == other.payload->Object_0.remove(
            "queue_liveness"@,
        ),
        liveness_of(event, Some(reference)) is Some,
    ensures
        canonical(event, Some(reference)) == canonical(other, Some(reference)),
{
    let a = event.payload->Object_0;
    let b = other.payload->Object_0;
    assert forall|key: Seq<char>| key != "queue_liveness"@ implies #[trigger] event.payload.get(key)
        == other.payload.get(key) by {
        assert(a.remove("queue_liveness"@).contains_key(key) == a.contains_key(key));
        assert(b.remove("queue_liveness"@).contains_key(key) == b.contains_key(key));
        if a.contains_key(key) {
            assert(a.remove("queue_liveness"@)[key] == a[key]);
            assert(b.remove("queue_liveness"@)[key] == b[key]);
        }
    }
    lemma_number_keys();
    assert(liveness_of(event, Some(reference)) == liveness_of(other, Some(reference)));
    let liveness = liveness_of(event, Some(reference))->0;
    assert(a.insert("queue_liveness"@, liveness) =~= b.insert("queue_liveness"@, liveness)) by {
        assert forall|key: Seq<char>| #[trigger]
            a.insert("queue_liveness"@, liveness).contains_key(key) == b.insert(
                "queue_liveness"@,
                liveness,
            ).contains_key(key) by {
            if key != "queue_liveness"@ {
                assert(event.payload.get(key) == other.payload.get(key));
            }
        }
        assert forall|key: Seq<char>| #[trigger]
            a.insert("queue_liveness"@, liveness).contains_key(key) implies a.insert(
            "queue_liveness"@,
            liveness,
        )[key] == b.insert("queue_liveness"@, liveness)[key] by {
            if key != "queue_liveness"@ {
                assert(event.payload.get(key) == other.payload.get(key));
            }
        }
    }
}

/// No key that a number is read from is the key under which the liveness stands.
proof fn lemma_number_keys()
    ensures
        "watchdog"@ != "queue_liveness"@,
        "queue_head_age_seconds"@ != "queue_liveness"@,
        "age_seconds"@ != "queue_liveness"@,
        "queue_head_age_minutes"@ != "queue_liveness"@,
        "age_minutes"@ != "queue_liveness"@,
        "threshold_seconds"@ != "queue_liveness"@,
        "slo_seconds"@ != "queue_liveness"@,
        "threshold_minutes"@ != "queue_liveness"@,
        "slo_minutes"@ != "queue_liveness"@,
        "queue_order"@ != "queue_liveness"@,
        "order"@ != "queue_liveness"@,
{
    reveal_strlit("queue_liveness");
    reveal_strlit("watchdog");
    reveal_strlit("queue_head_age_seconds");
    reveal_strlit("age_seconds");
    reveal_strlit("queue_head_age_minutes");
    reveal_strlit("age_minutes");
    reveal_strlit("threshold_seconds");
    reveal_strlit("slo_seconds");
    reveal_strlit("threshold_minutes");
    reveal_strlit("slo_minutes");
    reveal_strlit("queue_order");
    reveal_strlit("order");
    assert("queue_liveness"@.len() == 14);
    assert("watchdog"@.len() == 8);
    assert("queue_head_age_seconds"@.len() == 22);
    assert("age_seconds"@.len() == 11);
    assert("queue_head_age_minutes"@.len() == 22);
    assert("age_minutes"@.len() == 11);
    assert("threshold_seconds"@.len() == 17);
    assert("slo_seconds"@.len() == 11);
    assert("threshold_minutes"@.len() == 17);
    assert("slo_minutes"@.len() == 11);
    assert("queue_order"@.len() == 11);
    assert("order"@.len() == 5);
}

} // verus!
