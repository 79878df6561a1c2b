//! What a child prints to raise events.

use base64::Engine;
use fkst_framework::json::{parse_json, same_json, Json};
use fkst_framework::raised::{
    parse_authenticated_raised, parse_authenticated_raised_line, parse_raised, parse_raised_line,
};

const NOW: u64 = 77;

fn encode(json_str: &str) -> String {
    base64::engine::general_purpose::URL_SAFE.encode(json_str.as_bytes())
}

#[test]
fn empty_stdout_returns_empty() {
    assert!(parse_raised("", NOW).is_empty());
}

#[test]
fn stdout_without_raised_returns_empty() {
    let s = "hello\nworld\nlog.info: something\n";
    assert!(parse_raised(s, NOW).is_empty());
}

#[test]
fn single_raised_line_parses() {
    let payload = encode(r#"[{"queue":"done","payload":{"n":1}}]"#);
    let stdout = format!("RAISED: {}\n", payload);
    let events = parse_raised(&stdout, NOW);
    assert_eq!(events.len(), 1);
    assert_eq!(events[0].queue, "done");
    assert!(same_json(&events[0].payload, &parse_json(br#"{"n": 1}"#).unwrap()));
    assert_eq!(events[0].ts, NOW);
}

#[test]
fn multiple_raised_lines_last_wins() {
    let first = encode(r#"[{"queue":"first","payload":null}]"#);
    let second = encode(r#"[{"queue":"second","payload":null}]"#);
    let stdout = format!("RAISED: {}\nRAISED: {}\n", first, second);
    let events = parse_raised(&stdout, NOW);
    assert_eq!(events.len(), 1);
    assert_eq!(events[0].queue, "second");
}

#[test]
fn malformed_base64_returns_empty_no_panic() {
    let stdout = "RAISED: !!!not-valid-base64!!!\n";
    assert!(parse_raised(stdout, NOW).is_empty());
}

#[test]
fn malformed_json_returns_empty_no_panic() {
    let bad = base64::engine::general_purpose::URL_SAFE.encode(b"not-json");
    let stdout = format!("RAISED: {}\n", bad);
    assert!(parse_raised(&stdout, NOW).is_empty());
}

#[test]
fn log_line_containing_raised_does_not_confuse_parser() {
    // A dept that logs "log.info: RAISED: foo" should not trigger.
    let stdout = "log: user said RAISED: not-real\n";
    assert!(parse_raised(stdout, NOW).is_empty());
}

#[test]
fn raised_with_no_payload_field_uses_null() {
    let p = encode(r#"[{"queue":"x"}]"#);
    let stdout = format!("RAISED: {}\n", p);
    let events = parse_raised(&stdout, NOW);
    assert_eq!(events.len(), 1);
    assert!(matches!(events[0].payload, Json::Null));
}

#[test]
fn several_events_of_one_line_keep_their_order() {
    let p = encode(r#"[{"queue":"a","payload":1},{"queue":"b","payload":2}]"#);
    let events = parse_raised_line(&format!("  RAISED: {p}"), NOW);
    assert_eq!(events.len(), 2);
    assert_eq!(events[0].queue, "a");
    assert_eq!(events[1].queue, "b");
    assert_eq!(events[1].payload.as_unsigned(), Some(2));
}

#[test]
fn only_a_line_with_the_token_raises() {
    let p = encode(r#"[{"queue":"done","payload":1}]"#);
    let line = format!("RAISED-AUTH: trusted-token {p}");

    let events = parse_authenticated_raised_line(&line, "trusted-token", NOW);
    assert_eq!(events.len(), 1);
    assert_eq!(events[0].queue, "done");
    assert!(parse_authenticated_raised_line(&line, "other-token", NOW).is_empty());
    assert!(parse_authenticated_raised_line(&format!("RAISED: {p}"), "trusted-token", NOW).is_empty());

    let stdout = format!("RAISED: forged\n{line}\nRAISED-AUTH: forged {p}\nbye\n");
    assert_eq!(parse_authenticated_raised(&stdout, "trusted-token", NOW).len(), 1);
    assert!(parse_authenticated_raised("bye", "trusted-token", NOW).is_empty());
}

#[test]
fn an_entry_names_its_queue_once() {
    let twice = encode(r#"[{"queue":"a","payload":1,"queue":"b"}]"#);
    assert!(parse_raised(&format!("RAISED: {twice}\n"), 7).is_empty());
    let more = encode(r#"[{"queue":"a","other":1e999,"payload":1,"other":2}, ["b", 2]]"#);
    let events = parse_raised(&format!("RAISED: {more}\n"), 7);
    assert_eq!(events.len(), 2);
    assert_eq!(events[0].queue, "a");
    assert_eq!(events[1].queue, "b");
}
