//! Who is sent the events of a queue.

use vstd::prelude::*;
use crate::event::{Event, EventView};
use crate::text::{copy_text, same_text};
use tokio::sync::mpsc::{Receiver, Sender};

verus! {

/// The sending end of a bounded channel.
#[verifier::external_type_specification]
#[verifier::external_body]
#[verifier::reject_recursive_types(T)]
pub struct ExSender<T>(tokio::sync::mpsc::Sender<T>);

/// The receiving end of a bounded channel.
#[verifier::external_type_specification]
#[verifier::external_body]
#[verifier::reject_recursive_types(T)]
pub struct ExReceiver<T>(tokio::sync::mpsc::Receiver<T>);

/// Whether two ends belong to one channel.
pub uninterp spec fn one_channel(
    tx: tokio::sync::mpsc::Sender<Event>,
    rx: tokio::sync::mpsc::Receiver<Event>,
) -> bool;

/// How many events wait in a channel at the most: the number that it was made with.
pub uninterp spec fn channel_limit(tx: tokio::sync::mpsc::Sender<Event>) -> nat;

/// The events that were offered through a sending end, each with what became of it, in their order.
pub uninterp spec fn sent(tx: tokio::sync::mpsc::Sender<Event>) -> Seq<(EventView, Posted)>;

/// Calls `tokio::sync::mpsc::channel`, which makes a channel that holds up to `capacity` events and
/// gives back its two ends; nothing has been offered through the sending end. It panics where the capacity is zero, or more than an eighth of what a
/// `usize` holds.
#[verifier::external_body]
fn open_channel(capacity: usize) -> (r: (Sender<Event>, Receiver<Event>))
    requires
        1 <= capacity <= usize::MAX / 8,
    ensures
        one_channel(r.0, r.1),
        channel_limit(r.0) == capacity,
        sent(r.0) == Seq::<(EventView, Posted)>::empty(),
{
    tokio::sync::mpsc::channel(capacity)
}

/// What became of an event at one mailbox.
#[derive(Clone, Copy, Debug, PartialEq, Eq, Structural)]
pub enum Posted {
    Taken,
    Full,
    Closed,
}

/// Calls `Sender::try_send`, which puts an event into a channel where there is room for it and the
/// receiving end is still there: the event was offered through that end once, with the outcome that
/// comes back, and the end belongs to its channel as before. Which outcome that is depends on what
/// the receiver did, and is not said.
#[verifier::external_body]
fn post(tx: &mut Sender<Event>, event: Event) -> (r: Posted)
    ensures
        sent(*final(tx)) == sent(*old(tx)).push((event@, r)),
        channel_limit(*final(tx)) == channel_limit(*old(tx)),
        forall|rx: Receiver<Event>| #[trigger]
            one_channel(*final(tx), rx) == one_channel(*old(tx), rx),
{
    match tx.try_send(event) {
        Ok(()) => Posted::Taken,
        Err(tokio::sync::mpsc::error::TrySendError::Full(_)) => Posted::Full,
        Err(tokio::sync::mpsc::error::TrySendError::Closed(_)) => Posted::Closed,
    }
}

/// Whether a mailbox was offered one event more, once, with what became of it, and is otherwise as it
/// was.
pub open spec fn offered_once(
    before: Sender<Event>,
    after: Sender<Event>,
    event: EventView,
    outcome: Posted,
) -> bool {
    &&& sent(after) == sent(before).push((event, outcome))
    &&& channel_limit(after) == channel_limit(before)
    &&& forall|rx: Receiver<Event>| #[trigger] one_channel(after, rx) == one_channel(before, rx)
}

/// Whether each mailbox of a row was offered one event more, once.
pub open spec fn each_offered_once(
    before: Seq<Sender<Event>>,
    after: Seq<Sender<Event>>,
    event: EventView,
    outcomes: Seq<Posted>,
) -> bool {
    &&& after.len() == before.len()
    &&& outcomes.len() == before.len()
    &&& forall|k: int|
        0 <= k < before.len() ==> offered_once(
            #[trigger] before[k],
            after[k],
            event,
            outcomes[k],
        )
}

/// The mailboxes of one queue, in the order in which they were opened.
#[derive(Clone)]
pub struct QueueMailboxes {
    pub queue: String,
    pub mailboxes: Vec<Sender<Event>>,
}

/// For each queue the mailboxes that its events are sent to.
#[derive(Clone)]
pub struct Fanout {
    pub queues: Vec<QueueMailboxes>,
}

pub open spec fn mailboxes_at(queues: Seq<QueueMailboxes>, queue: Seq<char>) -> Option<
    Seq<Sender<Event>>,
>
    decreases queues.len(),
{
    if queues.len() == 0 {
        None
    } else if queues[0].queue@ == queue {
        Some(queues[0].mailboxes@)
    } else {
        mailboxes_at(queues.drop_first(), queue)
    }
}

proof fn lemma_mailboxes_are(queues: Seq<QueueMailboxes>, at: int)
    requires
        0 <= at < queues.len(),
        forall|j: int| 0 <= j < at ==> #[trigger] queues[j].queue@ != queues[at].queue@,
    ensures
        mailboxes_at(queues, queues[at].queue@) == Some(queues[at].mailboxes@),
    decreases queues.len(),
{
    if at > 0 {
        let rest = queues.drop_first();
        assert(queues[0].queue@ != queues[at].queue@);
        assert forall|j: int| 0 <= j < at - 1 implies #[trigger] rest[j].queue@
            != rest[at - 1].queue@ by {
            assert(queues[j + 1].queue@ != queues[at].queue@);
        }
        lemma_mailboxes_are(rest, at - 1);
    }
}

proof fn lemma_no_mailboxes(queues: Seq<QueueMailboxes>, queue: Seq<char>)
    requires
        forall|j: int| 0 <= j < queues.len() ==> #[trigger] queues[j].queue@ != queue,
    ensures
        mailboxes_at(queues, queue) is None,
    decreases queues.len(),
{
    if queues.len() > 0 {
        let rest = queues.drop_first();
        assert(queues[0].queue@ != queue);
        assert forall|j: int| 0 <= j < rest.len() implies #[trigger] rest[j].queue@ != queue by {
            assert(queues[j + 1].queue@ != queue);
        }
        lemma_no_mailboxes(rest, queue);
    }
}

/// What one queue has depends on nothing but the entries of that queue.
proof fn lemma_other_queue(
    a: Seq<QueueMailboxes>,
    b: Seq<QueueMailboxes>,
    changed: Seq<char>,
    queue: Seq<char>,
)
    requires
        queue != changed,
        a.len() <= b.len() <= a.len() + 1,
        forall|j: int|
            0 <= j < a.len() ==> (#[trigger] b[j]).queue@ == a[j].queue@ && (a[j].queue@ != changed
                ==> b[j].mailboxes@ == a[j].mailboxes@),
        b.len() > a.len() ==> b[a.len() as int].queue@ == changed,
    ensures
        mailboxes_at(a, queue) == mailboxes_at(b, queue),
    decreases b.len(),
{
    if a.len() > 0 {
        assert(b[0].queue@ == a[0].queue@);
        if a[0].queue@ != queue {
            let rest = b.drop_first();
            assert forall|j: int| 0 <= j < a.drop_first().len() implies (#[trigger] rest[j]).queue@
                == a.drop_first()[j].queue@ && (a.drop_first()[j].queue@ != changed
                ==> rest[j].mailboxes@ == a.drop_first()[j].mailboxes@) by {
                assert(b[j + 1].queue@ == a[j + 1].queue@);
            }
            lemma_other_queue(a.drop_first(), rest, changed, queue);
        }
    } else if b.len() > 0 {
        assert(b.drop_first() =~= Seq::<QueueMailboxes>::empty());
    }
}

impl Fanout {
    /// The mailboxes of a queue, or nothing where nobody ever subscribed to it.
    pub open spec fn at(self, queue: Seq<char>) -> Option<Seq<Sender<Event>>> {
        mailboxes_at(self.queues@, queue)
    }

    pub fn new() -> (r: Fanout)
        ensures
            forall|queue: Seq<char>| r.at(queue) is None,
    {
        Fanout { queues: Vec::new() }
    }

    /// Opens a mailbox for a queue and gives back the end that events come out of. The mailbox
    /// comes behind those that the queue has, and no other queue is changed.
    pub fn subscribe(&mut self, queue: &str, capacity: usize) -> (r: Receiver<Event>)
        requires
            1 <= capacity <= usize::MAX / 8,
        ensures
            final(self).at(queue@) matches Some(boxes) && boxes.len() > 0 && one_channel(
                boxes.last(),
                r,
            ) && channel_limit(boxes.last()) == capacity && sent(boxes.last()).len() == 0
                && boxes.drop_last() == match old(self).at(
                queue@,
            ) {
                Some(earlier) => earlier,
                None => Seq::empty(),
            },
            forall|other: Seq<char>|
                other != queue@ ==> #[trigger] final(self).at(other) == old(self).at(other),
    {
        let ghost before = self.queues@;
        let (tx, rx) = open_channel(capacity);
        let ghost opened = tx;
        let mut i: usize = 0;
        while i < self.queues.len()
            invariant
                i <= self.queues@.len(),
                self.queues@ == before,
                before == old(self).queues@,
                tx == opened,
                one_channel(opened, rx),
                channel_limit(opened) == capacity,
                sent(opened).len() == 0,
                forall|j: int| 0 <= j < i ==> #[trigger] before[j].queue@ != queue@,
            decreases self.queues@.len() - i,
        {
            if same_text(self.queues[i].queue.as_str(), queue) {
                proof {
                    lemma_mailboxes_are(before, i as int);
                }
                self.queues[i].mailboxes.push(tx);
                proof {
                    let after = self.queues@;
                    assert(after[i as int].mailboxes@ == before[i as int].mailboxes@.push(opened));
                    assert(after[i as int].mailboxes@.drop_last()
                        =~= before[i as int].mailboxes@);
                    assert(after[i as int].queue@ == queue@);
                    assert forall|j: int| 0 <= j < i implies #[trigger] after[j].queue@
                        != after[i as int].queue@ by {
                        assert(before[j].queue@ != queue@);
                    }
                    lemma_mailboxes_are(after, i as int);
                    assert forall|other: Seq<char>| other != queue@ implies #[trigger] self.at(
                        other,
                    ) == old(self).at(other) by {
                        lemma_other_queue(before, after, queue@, other);
                    }
                }
                return rx;
            }
            i = i + 1;
        }
        proof {
            lemma_no_mailboxes(before, queue@);
        }
        let mut mailboxes: Vec<Sender<Event>> = Vec::new();
        mailboxes.push(tx);
        assert(mailboxes@.drop_last() =~= Seq::<Sender<Event>>::empty());
        self.queues.push(QueueMailboxes { queue: copy_text(queue), mailboxes });
        proof {
            let after = self.queues@;
            let last = before.len() as int;
            assert forall|j: int| 0 <= j < last implies #[trigger] after[j].queue@
                != after[last].queue@ by {
                assert(before[j].queue@ != queue@);
            }
            lemma_mailboxes_are(after, last);
            assert forall|other: Seq<char>| other != queue@ implies #[trigger] self.at(other)
                == old(self).at(other) by {
                lemma_other_queue(before, after, queue@, other);
            }
        }
        rx
    }

    /// Sends an event to every mailbox of a queue, once, and says what became of it at each. One
    /// that is full or closed keeps the event from no other. Where the queue has no mailbox the
    /// event is dropped. The mailboxes of other queues are offered nothing.
    pub fn send(&mut self, queue: &str, event: &Event) -> (r: Option<Vec<Posted>>)
        ensures
            match old(self).at(queue@) {
                Some(boxes) => (r matches Some(posted) && (final(self).at(queue@) matches Some(after)
                    && each_offered_once(boxes, after, event@, posted@))),
                None => r is None && final(self).at(queue@) is None,
            },
            forall|other: Seq<char>|
                other != queue@ ==> #[trigger] final(self).at(other) == old(self).at(other),
    {
        let ghost before = self.queues@;
        let mut i: usize = 0;
        while i < self.queues.len()
            invariant
                i <= self.queues@.len(),
                self.queues@ == before,
                before == old(self).queues@,
                forall|j: int| 0 <= j < i ==> #[trigger] before[j].queue@ != queue@,
            decreases self.queues@.len() - i,
        {
            if same_text(self.queues[i].queue.as_str(), queue) {
                proof {
                    lemma_mailboxes_are(before, i as int);
                }
                let posted: Vec<Posted> = post_to_all(&mut self.queues[i].mailboxes, event);
                proof {
                    let after = self.queues@;
                    assert forall|j: int| 0 <= j < i implies #[trigger] after[j].queue@
                        != after[i as int].queue@ by {
                        assert(before[j].queue@ != queue@);
                    }
                    lemma_mailboxes_are(after, i as int);
                    assert forall|other: Seq<char>| other != queue@ implies #[trigger] self.at(
                        other,
                    ) == old(self).at(other) by {
                        lemma_other_queue(before, after, queue@, other);
                    }
                }
                return Some(posted);
            }
            i = i + 1;
        }
        proof {
            lemma_no_mailboxes(before, queue@);
        }
        None
    }
}

/// Sends an event to each of the mailboxes, once.
fn post_to_all(mailboxes: &mut Vec<Sender<Event>>, event: &Event) -> (r: Vec<Posted>)
    ensures
        each_offered_once(old(mailboxes)@, final(mailboxes)@, event@, r@),
{
    let ghost before = mailboxes@;
    let mut posted: Vec<Posted> = Vec::new();
    let mut i: usize = 0;
    while i < mailboxes.len()
        invariant
            before == old(mailboxes)@,
            mailboxes@.len() == before.len(),
            i <= before.len(),
            posted@.len() == i,
            forall|k: int|
                0 <= k < i ==> offered_once(
                    #[trigger] before[k],
                    mailboxes@[k],
                    event@,
                    posted@[k],
                ),
            forall|k: int| i <= k < before.len() ==> mailboxes@[k] == #[trigger] before[k],
        decreases before.len() - i,
    {
        let outcome: Posted = post(&mut mailboxes[i], event.copy());
        posted.push(outcome);
        assert(offered_once(before[i as int], mailboxes@[i as int], event@, outcome));
        i = i + 1;
    }
    posted
}

impl Default for Fanout {
    fn default() -> (r: Fanout)
        ensures
            forall|queue: Seq<char>| r.at(queue) is None,
    {
        Fanout::new()
    }
}

pub open spec fn warning_of(posted: Posted) -> Option<Seq<char>> {
    match posted {
        Posted::Taken => None,
        Posted::Full => Some("consumer mailbox full, dropping event for slow subscriber"@),
        Posted::Closed => Some("consumer mailbox closed (dept dropped receiver)"@),
    }
}

/// What is told of an event that one mailbox did not take. The event goes to the other mailboxes
/// all the same.
pub fn send_warning(posted: Posted) -> (r: Option<&'static str>)
    ensures
        match r {
            Some(text) => warning_of(posted) == Some(text@),
            None => warning_of(posted) is None,
        },
{
    match posted {
        Posted::Taken => None,
        Posted::Full => Some("consumer mailbox full, dropping event for slow subscriber"),
        Posted::Closed => Some("consumer mailbox closed (dept dropped receiver)"),
    }
}

/// What is told of an event that no queue takes.
pub const UNKNOWN_QUEUE: &'static str = "unknown queue, dropping event";

/// What is told of sending an event: one warning for each mailbox that did not take it, or that
/// nobody ever subscribed to the queue.
pub open spec fn warnings_of(posted: Option<Seq<Posted>>) -> Seq<Seq<char>> {
    match posted {
        Some(each) => told_of(each),
        None => seq![UNKNOWN_QUEUE@],
    }
}

pub open spec fn told_of(each: Seq<Posted>) -> Seq<Seq<char>>
    decreases each.len(),
{
    if each.len() == 0 {
        Seq::empty()
    } else {
        match warning_of(each.last()) {
            Some(text) => told_of(each.drop_last()).push(text),
            None => told_of(each.drop_last()),
        }
    }
}

pub fn send_warnings(posted: &Option<Vec<Posted>>) -> (r: Vec<&'static str>)
    ensures
        Seq::new(r@.len(), |i: int| r@[i]@) == warnings_of(
            match *posted {
                Some(each) => Some(each@),
                None => None,
            },
        ),
{
    let mut out: Vec<&'static str> = Vec::new();
    match posted {
        None => {
            out.push(UNKNOWN_QUEUE);
            assert(Seq::new(out@.len(), |i: int| out@[i]@) =~= seq![UNKNOWN_QUEUE@]);
        },
        Some(each) => {
            let mut i: usize = 0;
            assert(Seq::new(out@.len(), |i: int| out@[i]@) =~= told_of(each@.take(0)));
            while i < each.len()
                invariant
                    i <= each@.len(),
                    Seq::new(out@.len(), |i: int| out@[i]@) == told_of(each@.take(i as int)),
                decreases each@.len() - i,
            {
                let ghost before = Seq::new(out@.len(), |i: int| out@[i]@);
                proof {
                    assert(each@.take(i + 1).drop_last() =~= each@.take(i as int));
                }
                match send_warning(each[i]) {
                    Some(text) => {
                        out.push(text);
                        assert(Seq::new(out@.len(), |i: int| out@[i]@) =~= before.push(text@));
                    },
                    None => {},
                }
                i = i + 1;
            }
            assert(each@.take(each@.len() as int) =~= each@);
        },
    }
    out
}

} // verus!
