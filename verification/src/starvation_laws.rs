//! Laws of starved queues: what a reference says of one, and what is told of how long its head has
//! waited.

use vstd::prelude::*;
use vstd::string::*;
use crate::cutting::{join, law_split_join};
use crate::event::EventView;
use crate::json::JsonView;
use crate::queue_starvation::{
    age_of, behind_word, canonical, item_of, linked_item_of, liveness_json, liveness_of, number_at,
    number_at_either, order_of, seconds_of, starvation_of, threshold_of, StarvationView,
};

verus! {

proof fn lemma_behind(front: Seq<Seq<char>>, word: Seq<char>, rest: Seq<Seq<char>>)
    requires
        forall|i: int| 0 <= i < front.len() ==> #[trigger] front[i] != word,
    ensures
        behind_word(front + seq![word] + rest, word) == Some(rest),
        behind_word(front, word) is None,
    decreases front.len(),
{
    let all = front + seq![word] + rest;
    if front.len() > 0 {
        assert(front[0] != word);
        assert(all.drop_first() =~= front.drop_first() + seq![word] + rest);
        assert forall|i: int| 0 <= i < front.drop_first().len() implies #[trigger]
            front.drop_first()[i] != word by {
            assert(front.drop_first()[i] == front[i + 1]);
        }
        lemma_behind(front.drop_first(), word, rest);
    } else {
        assert(all.drop_first() =~= rest);
    }
}

/// The words of a reference to a starved queue.
pub open spec fn starved_words(s: StarvationView) -> Seq<Seq<char>> {
    seq![
        s.repo_owner,
        s.repo_name,
        s.state,
        "pr"@,
        s.pr_number,
        "proposal"@,
        s.owner,
        "issue"@,
        s.issue_repo_owner,
        s.issue_repo_name,
        s.issue_number,
    ]
}

pub open spec fn is_part(s: Seq<char>) -> bool {
    s.len() > 0 && forall|i: int| 0 <= i < s.len() ==> #[trigger] s[i] != '/'
}

pub open spec fn all_parts(s: StarvationView) -> bool {
    is_part(s.repo_owner) && is_part(s.repo_name) && is_part(s.state) && is_part(s.pr_number)
        && is_part(s.owner) && is_part(s.issue_repo_owner) && is_part(s.issue_repo_name) && is_part(
        s.issue_number,
    )
}

/// A reference to a starved queue is read as what it was made of, whatever stands in front of it and
/// behind it.
pub proof fn law_what_a_reference_says(
    front: Seq<Seq<char>>,
    s: StarvationView,
    behind: Seq<Seq<char>>,
)
    requires
        all_parts(s),
        forall|i: int| 0 <= i < front.len() ==> #[trigger] front[i] != "queue-starvation"@,
        forall|i: int, j: int|
            0 <= i < front.len() && 0 <= j < front[i].len() ==> #[trigger] front[i][j] != '/',
        forall|i: int, j: int|
            0 <= i < behind.len() && 0 <= j < behind[i].len() ==> #[trigger] behind[i][j] != '/',
    ensures
        starvation_of(
            join(front + seq!["queue-starvation"@] + (starved_words(s) + behind), seq!['/']),
        ) == Some(s),
{
    let rest = starved_words(s) + behind;
    let words = front + seq!["queue-starvation"@] + rest;
    reveal_strlit("queue-starvation");
    reveal_strlit("pr");
    reveal_strlit("proposal");
    reveal_strlit("issue");
    let own = starved_words(s);
    assert forall|i: int, j: int| 0 <= i < own.len() && 0 <= j < own[i].len() implies #[trigger]
        own[i][j] != '/' by {
        assert(is_part(s.repo_owner) && is_part(s.repo_name) && is_part(s.state) && is_part(
            s.pr_number,
        ) && is_part(s.owner) && is_part(s.issue_repo_owner) && is_part(s.issue_repo_name)
            && is_part(s.issue_number));
        if i == 0 {
            assert(s.repo_owner[j] != '/');
        } else if i == 1 {
            assert(s.repo_name[j] != '/');
        } else if i == 2 {
            assert(s.state[j] != '/');
        } else if i == 4 {
            assert(s.pr_number[j] != '/');
        } else if i == 6 {
            assert(s.owner[j] != '/');
        } else if i == 8 {
            assert(s.issue_repo_owner[j] != '/');
        } else if i == 9 {
            assert(s.issue_repo_name[j] != '/');
        } else if i == 10 {
            assert(s.issue_number[j] != '/');
        }
    }
    assert forall|i: int, j: int|
        0 <= i < words.len() && 0 <= j < words[i].len() implies #[trigger] words[i][j] != '/' by {
        if i < front.len() {
            assert(front[i][j] != '/');
        } else if i > front.len() {
            let k = i - front.len() - 1;
            assert(words[i] == rest[k]);
            if k < own.len() {
                assert(own[k][j] != '/');
            } else {
                assert(behind[k - own.len()][j] != '/');
            }
        }
    }
    law_split_join(words, '/');
    lemma_behind(front, "queue-starvation"@, rest);
    assert(forall|k: int| 0 <= k < own.len() ==> #[trigger] rest[k] == own[k]);
    assert(rest[0] == own[0] && rest[1] == own[1] && rest[2] == own[2] && rest[3] == own[3]
        && rest[4] == own[4] && rest[5] == own[5] && rest[6] == own[6] && rest[7] == own[7]
        && rest[8] == own[8] && rest[9] == own[9] && rest[10] == own[10]);
}

/// A reference without the word says nothing of a starved queue.
pub proof fn law_other_references_say_nothing(words: Seq<Seq<char>>)
    requires
        words.len() >= 1,
        forall|i: int| 0 <= i < words.len() ==> #[trigger] words[i] != "queue-starvation"@,
        forall|i: int, j: int|
            0 <= i < words.len() && 0 <= j < words[i].len() ==> #[trigger] words[i][j] != '/',
    ensures
        starvation_of(join(words, seq!['/'])) is None,
{
    law_split_join(words, '/');
    lemma_behind(words, "queue-starvation"@, Seq::empty());
}

/// The item that waits is the issue, and the linked one the pull request, each below its owner.
pub proof fn law_which_items_wait(s: StarvationView)
    ensures
        item_of(s) == join(
            seq![s.owner, "issue"@, s.issue_repo_owner, s.issue_repo_name, s.issue_number],
            seq!['/'],
        ),
        linked_item_of(s) == join(
            seq![s.owner, "pr"@, s.repo_owner, s.repo_name, s.pr_number],
            seq!['/'],
        ),
{
    reveal_strlit("/issue/");
    reveal_strlit("/pr/");
    reveal_strlit("issue");
    reveal_strlit("pr");
    reveal_strlit("/");
    assert("/"@ =~= seq!['/']);
    assert("/issue/"@ =~= seq!['/'] + "issue"@ + seq!['/']);
    assert("/pr/"@ =~= seq!['/'] + "pr"@ + seq!['/']);
    lemma_join_five(s.owner, "issue"@, s.issue_repo_owner, s.issue_repo_name, s.issue_number);
    lemma_join_five(s.owner, "pr"@, s.repo_owner, s.repo_name, s.pr_number);
    assert(item_of(s) =~= s.owner + seq!['/'] + "issue"@ + seq!['/'] + s.issue_repo_owner
        + seq!['/'] + s.issue_repo_name + seq!['/'] + s.issue_number);
    assert(linked_item_of(s) =~= s.owner + seq!['/'] + "pr"@ + seq!['/'] + s.repo_owner + seq!['/']
        + s.repo_name + seq!['/'] + s.pr_number);
}

proof fn lemma_join_five(a: Seq<char>, b: Seq<char>, c: Seq<char>, d: Seq<char>, e: Seq<char>)
    ensures
        join(seq![a, b, c, d, e], seq!['/']) == a + seq!['/'] + b + seq!['/'] + c + seq!['/'] + d
            + seq!['/'] + e,
{
    reveal_with_fuel(join, 6);
    let five = seq![a, b, c, d, e];
    assert(five.drop_last() =~= seq![a, b, c, d]);
    assert(five.drop_last().drop_last() =~= seq![a, b, c]);
    assert(five.drop_last().drop_last().drop_last() =~= seq![a, b]);
    assert(five.drop_last().drop_last().drop_last().drop_last() =~= seq![a]);
    assert(join(seq![a], seq!['/']) =~= a);
    assert(join(seq![a, b], seq!['/']) =~= a + seq!['/'] + b);
    assert(join(seq![a, b, c], seq!['/']) =~= a + seq!['/'] + b + seq!['/'] + c);
    assert(join(seq![a, b, c, d], seq!['/']) =~= a + seq!['/'] + b + seq!['/'] + c + seq!['/'] + d);
}

/// A number of an event stands in its payload, or else in what its payload says of the watchdog; one
/// name is looked for before the other.
pub proof fn law_where_numbers_stand(
    m: Map<Seq<char>, JsonView>,
    w: Map<Seq<char>, JsonView>,
    key: Seq<char>,
    other: Seq<char>,
    n: nat,
)
    ensures
        m.contains_key(key) && m[key] == JsonView::Unsigned(n) ==> number_at(
            JsonView::Object(m),
            key,
        ) == Some(n) && number_at_either(JsonView::Object(m), key, other) == Some(n),
        !m.contains_key(key) && m.contains_key("watchdog"@) && m["watchdog"@] == JsonView::Object(w)
            && w.contains_key(key) && w[key] == JsonView::Unsigned(n) ==> number_at(
            JsonView::Object(m),
            key,
        ) == Some(n),
        !m.contains_key(key) && !m.contains_key("watchdog"@) ==> number_at(JsonView::Object(m), key)
            is None,
        number_at(JsonView::Object(m), key) is None ==> number_at_either(
            JsonView::Object(m),
            key,
            other,
        ) == number_at(JsonView::Object(m), other),
{
}

/// Seconds are told as they are, and minutes as sixty seconds each where no seconds are told.
pub proof fn law_seconds_and_minutes(seconds: nat, minutes: nat)
    ensures
        seconds_of(Some(seconds), Some(minutes)) == Some(seconds),
        seconds_of(Some(seconds), None) == Some(seconds),
        60 * minutes <= u64::MAX ==> seconds_of(None, Some(minutes)) == Some(60 * minutes),
        60 * minutes > u64::MAX ==> seconds_of(None, Some(minutes)) == Some(u64::MAX as nat),
        seconds_of(None, None) is None,
{
}

proof fn lemma_keys()
    ensures
        "queue_head_age_seconds"@.len() == 22 && "queue_head_age_seconds"@[15] == 's',
        "queue_head_age_minutes"@.len() == 22 && "queue_head_age_minutes"@[15] == 'm',
        "age_seconds"@.len() == 11 && "age_seconds"@[0] == 'a' && "age_seconds"@[4] == 's',
        "age_minutes"@.len() == 11 && "age_minutes"@[0] == 'a' && "age_minutes"@[4] == 'm',
        "threshold_seconds"@.len() == 17 && "threshold_seconds"@[10] == 's',
        "threshold_minutes"@.len() == 17 && "threshold_minutes"@[10] == 'm',
        "slo_seconds"@.len() == 11 && "slo_seconds"@[0] == 's' && "slo_seconds"@[4] == 's',
        "slo_minutes"@.len() == 11 && "slo_minutes"@[0] == 's' && "slo_minutes"@[4] == 'm',
        "watchdog"@.len() == 8,
        "queue_order"@.len() == 11 && "queue_order"@[0] == 'q',
        "order"@.len() == 5 && "order"@[0] == 'o' && "order"@[1] == 'r',
        "item_id"@.len() == 7,
        "linked_item_id"@.len() == 14 && "linked_item_id"@[0] == 'l',
        "queue"@.len() == 5 && "queue"@[0] == 'q',
        "owner"@.len() == 5 && "owner"@[0] == 'o' && "owner"@[1] == 'w',
        "state"@.len() == 5 && "state"@[0] == 's',
        "breached"@.len() == 8 && "breached"@[0] == 'b',
        "next_action"@.len() == 11 && "next_action"@[0] == 'n',
        "queue_liveness"@.len() == 14 && "queue_liveness"@[0] == 'q',
{
    reveal_strlit("queue_head_age_seconds");
    reveal_strlit("queue_head_age_minutes");
    reveal_strlit("age_seconds");
    reveal_strlit("age_minutes");
    reveal_strlit("threshold_seconds");
    reveal_strlit("threshold_minutes");
    reveal_strlit("slo_seconds");
    reveal_strlit("slo_minutes");
    reveal_strlit("watchdog");
    reveal_strlit("queue_order");
    reveal_strlit("order");
    reveal_strlit("item_id");
    reveal_strlit("linked_item_id");
    reveal_strlit("queue");
    reveal_strlit("owner");
    reveal_strlit("state");
    reveal_strlit("breached");
    reveal_strlit("next_action");
    reveal_strlit("queue_liveness");
}

pub open spec fn number_alone(key: Seq<char>, n: nat) -> JsonView {
    JsonView::Object(Map::<Seq<char>, JsonView>::empty().insert(key, JsonView::Unsigned(n)))
}

/// Under which names an event tells how long the head of a queue has waited, how long it may wait
/// and where it stands.
pub proof fn law_the_names_of_numbers(n: nat)
    ensures
        age_of(number_alone("queue_head_age_seconds"@, n)) == Some(n),
        age_of(number_alone("age_seconds"@, n)) == Some(n),
        60 * n <= u64::MAX ==> age_of(number_alone("queue_head_age_minutes"@, n)) == Some(60 * n),
        60 * n <= u64::MAX ==> age_of(number_alone("age_minutes"@, n)) == Some(60 * n),
        threshold_of(number_alone("threshold_seconds"@, n)) == Some(n),
        threshold_of(number_alone("slo_seconds"@, n)) == Some(n),
        60 * n <= u64::MAX ==> threshold_of(number_alone("threshold_minutes"@, n)) == Some(60 * n),
        60 * n <= u64::MAX ==> threshold_of(number_alone("slo_minutes"@, n)) == Some(60 * n),
        order_of(number_alone("queue_order"@, n)) == n,
        order_of(number_alone("order"@, n)) == n,
        order_of(number_alone("age_seconds"@, n)) == 1,
{
    lemma_keys();
}

/// What is told of a starved queue: who waits for whom and since when, and that it is late just
/// where it has waited for as long as it may.
pub proof fn law_what_is_told_of_a_starved_queue(
    s: StarvationView,
    event: EventView,
    age: nat,
    slo: nat,
)
    ensures
        ({
            let told = liveness_json(s, event, age, slo);
            &&& told.text_at("item_id"@) == Some(item_of(s))
            &&& told.text_at("linked_item_id"@) == Some(linked_item_of(s))
            &&& told.text_at("queue"@) == Some(event.queue)
            &&& told.text_at("owner"@) == Some(s.owner)
            &&& told.text_at("state"@) == Some(s.state)
            &&& told.get("order"@) == Some(JsonView::Unsigned(order_of(event.payload)))
            &&& told.get("age_seconds"@) == Some(JsonView::Unsigned(age))
            &&& told.get("slo_seconds"@) == Some(JsonView::Unsigned(slo))
            &&& told.get("breached"@) == Some(JsonView::Bool(slo <= age))
        }),
{
    lemma_keys();
}

/// An event about a starved queue is told of; nothing else of it changes. Any other event stays as
/// it is.
pub proof fn law_other_members_stay(
    event: EventView,
    reference: Option<Seq<char>>,
    key: Seq<char>,
)
    ensures
        canonical(event, reference).queue == event.queue,
        canonical(event, reference).ts == event.ts,
        key != "queue_liveness"@ ==> canonical(event, reference).payload.get(key)
            == event.payload.get(key),
        event.payload is Object && liveness_of(event, reference) is Some ==> canonical(
            event,
            reference,
        ).payload.get("queue_liveness"@) == liveness_of(event, reference),
        liveness_of(event, reference) is None ==> canonical(event, reference) == event,
        liveness_of(event, None) is None,
        reference is Some ==> (liveness_of(event, reference) is Some <==> starvation_of(
            reference->0,
        ) is Some && age_of(event.payload) is Some && threshold_of(event.payload) is Some),
        reference is Some && liveness_of(event, reference) is Some ==> liveness_of(event, reference)
            == Some(
            liveness_json(
                starvation_of(reference->0)->0,
                event,
                age_of(event.payload)->0,
                threshold_of(event.payload)->0,
            ),
        ),
{
}

} // verus!
