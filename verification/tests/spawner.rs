//! Framework children: how they are started, and what becomes of their output.

use fkst_framework::dispatch::{child_exit_fields, child_failed_fields, child_spawn_fields};
use fkst_framework::spawner::{
    command_line, framework_args, framework_child_log_name, framework_env, package_root_list,
    spawn_result_from_status, FrameworkCapture, FrameworkEvent, FrameworkStream, SpawnResult,
    StdoutLineBuffer,
};

fn roots() -> Vec<String> {
    vec!["/a".to_string(), "/b".to_string()]
}

#[test]
fn children_are_given_every_package_root() {
    let args = framework_args("/d/main.lua", "/host", &roots(), "pkg", "{}");
    assert_eq!(
        args,
        vec![
            "run",
            "/d/main.lua",
            "--project-root",
            "/host",
            "--package-root",
            "/a",
            "--package-root",
            "/b",
            "--owner-namespace",
            "pkg",
            "--event",
            "{}"
        ]
    );
    assert_eq!(package_root_list(&roots()), "/a;/b");
    let line = command_line("/bin/fkst", "/d/main.lua", "/host", &roots(), "pkg");
    assert!(line.starts_with("/bin/fkst run /d/main.lua"), "{line}");
    assert!(!line.contains("{}"));
}

#[test]
fn replay_scratch_bypass_is_private_child_process_metadata() {
    let with = framework_env("PERMITS", 3, 42, &None, true);
    let without = framework_env("PERMITS", 3, 42, &None, false);

    for key in [
        "FKST_INTERNAL_CACHE_REPLAY_BYPASS",
        "FKST_INTERNAL_ONCE_REPLAY_BYPASS",
    ] {
        let set = (key.to_string(), "1".to_string());
        assert!(with.set.contains(&set));
        assert!(!without.set.contains(&set));
        assert!(without.removed.contains(&key.to_string()));
    }
    assert!(with
        .set
        .iter()
        .any(|(key, value)| key == "PERMITS" && value == "3"));
}

#[test]
fn lines_come_out_when_they_are_whole() {
    let mut buffer = StdoutLineBuffer::new();
    assert!(buffer.push(b"one").is_empty());
    assert_eq!(buffer.push(b" two\nthree\nfo"), vec!["one two", "three"]);
    assert_eq!(buffer.push(b"ur\r\n"), vec!["four"]);
}

#[test]
fn lines_that_are_not_utf8_are_mended() {
    let mut buffer = StdoutLineBuffer::new();
    assert_eq!(buffer.push(b"a\xffb\n"), vec!["a\u{fffd}b"]);
}

fn capture(status: Result<Option<i32>, String>) -> Result<SpawnResult, String> {
    let mut capture = FrameworkCapture::new();
    capture.step(FrameworkEvent::Output {
        stream: FrameworkStream::Stdout,
        bytes: b"out\n".to_vec(),
        read_complete_ms: 4,
    });
    capture.step(FrameworkEvent::Output {
        stream: FrameworkStream::Stderr,
        bytes: b"err".to_vec(),
        read_complete_ms: 5,
    });
    capture.step(FrameworkEvent::Exited {
        status,
        wait_complete_ms: 9,
    });
    capture.step(FrameworkEvent::Closed);
    let exit = capture.exit.unwrap();
    spawn_result_from_status(7, exit, &capture.output, 1, 10, None)
}

#[test]
fn output_is_kept_stream_by_stream() {
    let result = capture(Ok(Some(3))).unwrap();

    assert_eq!(result.exit_code, 3);
    assert_eq!(result.stdout, "out\n");
    assert_eq!(result.stderr, "err");
    assert_eq!(result.first_pipe_read_ms, Some(4));
    assert_eq!(result.wait_complete_ms, 9);
    assert_eq!(result.pid, 7);
}

#[test]
fn a_child_that_was_killed_has_no_code_of_its_own() {
    assert_eq!(capture(Ok(None)).unwrap().exit_code, -1);
    assert!(capture(Err("gone".to_string())).is_err());
}

fn value<'a>(fields: &'a [fkst_framework::journal::Field], key: &str) -> &'a str {
    &fields.iter().find(|f| f.key == key).unwrap().value
}

#[test]
fn the_journal_tells_of_children() {
    let mut result = capture(Ok(Some(-2))).unwrap();
    result.elapsed_ms = u128::MAX;

    let spawned = child_spawn_fields("worker", &result);
    assert_eq!(value(&spawned, "pid"), "7");
    let ended = child_exit_fields("worker", &result);
    assert_eq!(value(&ended, "exit_code"), "-2");
    assert_eq!(
        value(&ended, "elapsed_ms"),
        "340282366920938463463374607431768211455"
    );
    let failed = child_failed_fields("worker", "spawn_error", "no such file");
    assert_eq!(value(&failed, "reason"), "spawn_error:no such file");
}

#[test]
fn child_logs_are_told_apart() {
    let one = framework_child_log_name("worker", 10, 20, 1);
    let two = framework_child_log_name("worker", 10, 20, 2);
    assert_ne!(one, two);
    assert!(one.contains("worker"), "{one}");
    assert!(one.contains("10-000000020"), "{one}");
}

#[test]
fn lines_are_the_same_wherever_the_output_is_cut() {
    let all = b"one\r\ntwo\n\nthree";
    let mut whole = StdoutLineBuffer::new();
    let lines = whole.push(all);
    assert_eq!(lines, vec!["one", "two", ""]);
    for at in 0..=all.len() {
        let mut cut = StdoutLineBuffer::new();
        let mut got = cut.push(&all[..at]);
        got.append(&mut cut.push(&all[at..]));
        assert_eq!(got, lines);
        assert_eq!(cut.pending, whole.pending);
    }
}
