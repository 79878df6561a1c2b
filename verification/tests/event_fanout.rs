//! Sending events to the mailboxes of a queue.

use fkst_framework::event::Event;
use fkst_framework::event_fanout::{send_warnings, Fanout, Posted};
use fkst_framework::json::{parse_json, same_json, Json};

fn event(queue: &str, payload: Json) -> Event {
    Event {
        queue: queue.to_string(),
        payload,
        ts: 0,
    }
}

#[test]
fn one_subscriber_receives_event() {
    let mut f = Fanout::new();
    let mut rx = f.subscribe("tick", 10);
    let ev = event("tick", Json::Null);
    assert_eq!(f.send("tick", &ev), Some(vec![Posted::Taken]));
    let got = rx.try_recv().unwrap();
    assert_eq!(got.queue, "tick");
}

#[test]
fn two_subscribers_each_receive_event_independently() {
    let mut f = Fanout::new();
    let mut rx1 = f.subscribe("tick", 10);
    let mut rx2 = f.subscribe("tick", 10);
    let ev = event("tick", parse_json(br#"{"n": 42}"#).unwrap());
    f.send("tick", &ev);
    let g1 = rx1.try_recv().unwrap();
    let g2 = rx2.try_recv().unwrap();
    assert!(same_json(&g1.payload, &parse_json(br#"{"n": 42}"#).unwrap()));
    assert!(same_json(&g2.payload, &parse_json(br#"{"n": 42}"#).unwrap()));
}

#[test]
fn slow_consumer_does_not_block_fast_consumer() {
    let mut f = Fanout::new();
    let _slow_rx = f.subscribe("tick", 1); // cap 1 — fills fast
    let mut fast_rx = f.subscribe("tick", 100);
    // Send 5 events; slow consumer drops 4, fast consumer receives all 5.
    let mut warned = 0;
    for n in 0..5 {
        let posted = f.send("tick", &event("tick", Json::Unsigned(n)));
        warned += send_warnings(&posted).len();
    }
    let mut fast_count = 0;
    while fast_rx.try_recv().is_ok() {
        fast_count += 1;
    }
    assert_eq!(fast_count, 5, "fast consumer should see all 5 events");
    assert_eq!(warned, 4);
}

#[test]
fn closed_consumer_does_not_block_fast_consumer() {
    let mut f = Fanout::new();
    let closed_rx = f.subscribe("tick", 10);
    let mut fast_rx = f.subscribe("tick", 10);
    drop(closed_rx);

    let posted = f.send("tick", &event("tick", Json::Null));

    assert_eq!(posted, Some(vec![Posted::Closed, Posted::Taken]));
    assert_eq!(
        send_warnings(&posted),
        vec!["consumer mailbox closed (dept dropped receiver)"]
    );
    let got = fast_rx.try_recv().unwrap();
    assert_eq!(got.queue, "tick");
}

#[test]
fn send_to_unknown_queue_warns_and_returns_ok() {
    let mut f = Fanout::new();
    let posted = f.send("ghost", &event("ghost", Json::Null));

    assert_eq!(posted, None);
    assert_eq!(send_warnings(&posted), vec!["unknown queue, dropping event"]);
}

#[test]
fn a_queue_does_not_hear_of_another() {
    let mut f = Fanout::default();
    let mut tick = f.subscribe("tick", 1);
    let mut tock = f.subscribe("tock", 1);

    f.send("tock", &event("tock", Json::Null));

    assert!(tick.try_recv().is_err());
    assert_eq!(tock.try_recv().unwrap().queue, "tock");
}

#[test]
fn each_mailbox_gets_one_copy_and_other_queues_nothing() {
    let mut f = Fanout::new();
    let mut first = f.subscribe("tick", 4);
    let mut second = f.subscribe("tick", 4);
    let mut other = f.subscribe("tock", 4);
    let posted = f.send("tick", &event("tick", Json::Unsigned(1)));
    assert_eq!(posted, Some(vec![Posted::Taken, Posted::Taken]));
    for mailbox in [&mut first, &mut second] {
        assert!(mailbox.try_recv().is_ok());
        assert!(mailbox.try_recv().is_err());
    }
    assert!(other.try_recv().is_err());
}
