//! Running the tests of packages.

use fkst_framework::config::{DepartmentDecl, RaiserDecl, RaiserKind};
use fkst_framework::delivery_types::SourceKind;
use fkst_framework::json::{parse_json, Json};
use fkst_framework::test_assertions::{
    check_eq, check_is_nil, check_is_true, check_raises, display_value, LuaShown,
};
use fkst_framework::test_commands::{
    cassette_end, mock_result, CassetteEnd, CassetteError, CommandCassetteMode,
    CommandCassetteOptions, RedactionEntry,
};
use fkst_framework::test_department_env::{DeptRunEnvGuard, DeptRunOptions};
use fkst_framework::test_fire_raiser::{
    aggregate_status, consumer_status, no_consumer_message, routed_departments, source_emission,
    source_kind_name, trace_raised, ConsumerRun, FireAction, FireError, Raised,
};
use fkst_framework::test_run_cache::TestRunCache;
use fkst_framework::test_runner::{
    department_name_for_lua, display_path, event_queue, insert_test_file, is_test_file,
    report_tmp_name, result_line, run_outcome, select_tests, with_event_queue, TestEntry, TestFile,
    TestReport, TestReportStatus, LOAD,
};

#[test]
fn test_files_are_known_by_their_name() {
    assert!(is_test_file("worker_test.lua"));
    assert!(!is_test_file("worker.lua"));
    assert!(!is_test_file("worker_test.lua.bak"));
}

fn file(path: &str, namespace: &str) -> TestFile {
    TestFile {
        path: path.to_string(),
        owner_root: "/r".to_string(),
        owner_namespace: namespace.to_string(),
    }
}

#[test]
fn test_files_run_in_the_order_of_their_paths() {
    let mut files = Vec::new();
    for (path, namespace) in [("/r/b", "x"), ("/r-a/c", "x"), ("/r/a", "x"), ("/r/b", "y")] {
        insert_test_file(&mut files, file(path, namespace));
    }
    let found: Vec<(&str, &str)> = files
        .iter()
        .map(|f| (f.path.as_str(), f.owner_namespace.as_str()))
        .collect();
    assert_eq!(found, vec![("/r/a", "x"), ("/r/b", "y"), ("/r-a/c", "x")]);
    assert_eq!(display_path("/r/tests/a", Some("tests/a")), "tests/a");
    assert_eq!(display_path("/r/tests/a", None), "r/tests/a");
}

fn entry(name: &str, is_function: bool) -> TestEntry {
    TestEntry {
        name: name.to_string(),
        is_function,
    }
}

#[test]
fn tests_are_the_functions_with_a_test_name() {
    let names = select_tests(&vec![
        entry("test_b", true),
        entry("helper", false),
        entry("test_a", true),
    ])
    .unwrap();
    assert_eq!(names, vec!["test_a", "test_b"]);
    assert_eq!(
        select_tests(&vec![entry("test_x", false)]),
        Err("test_x is not a function".to_string())
    );
}

#[test]
fn a_report_counts_what_it_lists() {
    let mut report = TestReport::new();
    report.push_pass("pkg", "a_test.lua", "test_one");
    assert_eq!(report.exit_code(), 0);
    report.push_fail("pkg", "b_test.lua", LOAD, "syntax".to_string());

    assert_eq!(report.schema, "fkst.test.report.v1");
    assert_eq!((report.summary.passed, report.summary.failed), (1, 1));
    assert_eq!(report.tests[0].status, TestReportStatus::Pass);
    assert_eq!(report.tests[1].error, Some("syntax".to_string()));
    assert_eq!(report.exit_code(), 1);
    assert_eq!(report.summary_line(), "1 passed, 1 failed");
    assert_eq!(result_line("a", "t", None), "PASS a::t");
    assert_eq!(result_line("a", "t", Some("no")), "FAIL a::t: no");
    assert_eq!(report_tmp_name("report.json", 7), ".report.json.7.tmp");
}

#[test]
fn departments_are_named_by_their_path() {
    let pieces: Vec<String> = ["departments", "worker", "main.lua"]
        .iter()
        .map(|s| s.to_string())
        .collect();
    assert_eq!(
        department_name_for_lua(&pieces, "pkg", "host"),
        Some("pkg.worker".to_string())
    );
    assert_eq!(
        department_name_for_lua(&pieces, "host", "host"),
        Some("worker".to_string())
    );
    assert_eq!(department_name_for_lua(&pieces[..2].to_vec(), "pkg", "host"), None);
}

#[test]
fn an_event_is_put_on_its_resolved_queue() {
    let event = parse_json(br#"{"queue": "jobs", "payload": 1}"#).unwrap();
    assert_eq!(event_queue(&event), Some("jobs".to_string()));
    let moved = with_event_queue(event, "pkg.jobs");
    assert_eq!(event_queue(&moved), Some("pkg.jobs".to_string()));
    assert_eq!(moved.get("payload").unwrap().as_unsigned(), Some(1));

    let outcome = run_outcome(Err("bad".to_string()));
    assert_eq!((outcome.exit_code, outcome.error), (1, Some("bad".to_string())));
    assert_eq!(run_outcome(Ok(())).exit_code, 0);
}

#[test]
fn what_was_worked_out_is_not_worked_out_again() {
    let mut cache = TestRunCache::new();
    assert!(cache.owner_units.get("/r").is_none());
    cache.keep_owner_unit("/r", "unit".to_string());
    cache.keep_declared_produces("/r/a.lua", vec!["out".to_string()]);
    cache.keep_declared_consumes("/r/a.lua", vec!["in".to_string()]);

    assert_eq!(cache.owner_units.get("/r"), Some(&"unit".to_string()));
    assert_eq!(
        cache.declared_produces.get("/r/a.lua"),
        Some(&vec!["out".to_string()])
    );
    assert!(cache.declared_consumes.get("/r/b.lua").is_none());
    assert_eq!(cache.stats.owner_unit_misses, 1);
    assert_eq!(cache.stats.declared_produces_misses, 1);
    assert_eq!(cache.stats.declared_consumes_misses, 1);
}

#[test]
fn the_environment_is_put_back_in_reverse() {
    let mut guard: DeptRunEnvGuard<u32> = DeptRunEnvGuard::new();
    guard.save("A".to_string(), None);
    guard.save("A".to_string(), Some(1));

    let last = guard.next_to_put_back().unwrap();
    assert_eq!((last.key.as_str(), last.value), ("A", Some(1)));
    let first = guard.next_to_put_back().unwrap();
    assert_eq!((first.key.as_str(), first.value), ("A", None));
    assert!(guard.next_to_put_back().is_none());
    assert!(DeptRunOptions::default_env().env.is_empty());
}

#[test]
fn assertions_say_what_they_found() {
    let one = LuaShown::Integer(1);
    let text = LuaShown::Text("a\"b\n".to_string());
    assert_eq!(display_value(&text), r#""a\"b\n""#);
    assert_eq!(display_value(&LuaShown::Integer(-5)), "-5");
    assert_eq!(
        check_eq(false, &one, &text, &None),
        Err("eq: expected \"a\\\"b\\n\", got 1".to_string())
    );
    assert_eq!(
        check_eq(false, &one, &LuaShown::Nil, &Some("why".to_string())),
        Err("eq: why: expected nil, got 1".to_string())
    );
    assert_eq!(check_eq(true, &one, &text, &None), Ok(()));
    assert_eq!(
        check_is_true(&LuaShown::Boolean(false), &Some(String::new())),
        Err("is_true: got false".to_string())
    );
    assert!(check_is_true(&one, &None).is_ok());
    assert_eq!(
        check_raises(false, &None),
        Err("raises: function did not raise".to_string())
    );
    assert!(check_is_nil(&LuaShown::Nil, &None).is_ok());
    assert_eq!(
        check_is_nil(&LuaShown::Error("e".to_string()), &None),
        Err("is_nil: got <error:e>".to_string())
    );
}

#[test]
fn commands_can_be_put_in_the_place_of_others() {
    let result = mock_result(Some("out".to_string()), None, None);
    assert_eq!((result.stdout.as_str(), result.exit_code), ("out", 0));

    let redact = vec![RedactionEntry {
        value: "token".to_string(),
        replacement: None,
    }];
    let options = CommandCassetteOptions::from_parts("/r", "tape.json", "replay", &redact)
        .ok()
        .unwrap();
    assert_eq!(options.path, "/r/tape.json");
    assert_eq!(options.mode, CommandCassetteMode::Replay);
    assert_eq!(options.redactions[0].replacement, "<REDACTED>");

    let err = CommandCassetteOptions::from_parts("/r", "t", "rewind", &Vec::new()).err().unwrap();
    assert_eq!(err.message(), "unsupported VCR command cassette mode: rewind");
    let empty = vec![RedactionEntry {
        value: String::new(),
        replacement: None,
    }];
    assert!(matches!(
        CommandCassetteOptions::from_parts("/r", "t", "record", &empty),
        Err(CassetteError::EmptyRedaction)
    ));
    assert_eq!(cassette_end(true), CassetteEnd::Finish);
    assert_eq!(cassette_end(false), CassetteEnd::Abort);
}

fn cron() -> RaiserDecl {
    RaiserDecl {
        name: "tick".to_string(),
        kind: RaiserKind::Cron {
            interval: "1m".to_string(),
        },
        produces: "jobs".to_string(),
    }
}

fn watch() -> RaiserDecl {
    RaiserDecl {
        name: "files".to_string(),
        kind: RaiserKind::FileWatch {
            glob: "in/*".to_string(),
        },
        produces: "jobs".to_string(),
    }
}

#[test]
fn only_a_file_watch_takes_a_fixture() {
    let fixture = Some("in/a".to_string());
    match source_emission(&cron(), &None) {
        Ok(FireAction::Emit(emission)) => {
            assert_eq!(emission.queue, "jobs");
            assert_eq!(emission.source.reference, "tick/slot/0");
        }
        _ => panic!("expected an emission"),
    }
    assert!(matches!(
        source_emission(&cron(), &fixture),
        Err(FireError::FixtureForCron)
    ));
    assert!(matches!(
        source_emission(&watch(), &None),
        Err(FireError::FixtureMissing)
    ));
    assert!(matches!(
        source_emission(&watch(), &fixture),
        Ok(FireAction::Watch { fixture }) if fixture == "in/a"
    ));
    assert_eq!(
        FireError::FixtureMissing.message(),
        "file_watch fire_raiser requires opts.fixture"
    );
}

fn department(name: &str, queue: &str) -> DepartmentDecl {
    DepartmentDecl {
        name: name.to_string(),
        lua: String::new(),
        owner_root: String::new(),
        owner_namespace: String::new(),
        consumes: vec![queue.to_string()],
        produces: Vec::new(),
        fanout: Vec::new(),
        published_seam: Vec::new(),
        ephemeral: Vec::new(),
        stall_window: String::new(),
        graph_json: false,
        retry: None,
    }
}

#[test]
fn an_emission_goes_to_every_subscriber() {
    let departments = vec![department("a", "jobs"), department("b", "x"), department("c", "jobs")];
    assert_eq!(routed_departments(&departments, "jobs"), vec!["a", "c"]);
    assert!(routed_departments(&departments, "ghost").is_empty());
    assert_eq!(
        no_consumer_message("tick", "ghost"),
        "raiser `tick` produced queue `ghost` with no consumer"
    );
}

fn run(consumer: &str, exit_code: i32, error: Option<&str>, raised: &[&str]) -> ConsumerRun {
    ConsumerRun {
        consumer: consumer.to_string(),
        exit_code,
        error: error.map(|e| e.to_string()),
        raises: raised
            .iter()
            .map(|queue| Raised {
                queue: queue.to_string(),
                payload: Json::Null,
            })
            .collect(),
    }
}

#[test]
fn a_trace_tells_of_all_runs_together() {
    let runs = vec![
        run("a", 0, None, &["x", "y"]),
        run("b", 1, Some("first"), &[]),
        run("c", 1, Some("second"), &["z"]),
    ];
    let told = aggregate_status(&runs);
    assert_eq!(told.status, "error");
    assert_eq!(told.message, Some("first".to_string()));
    assert_eq!(
        aggregate_status(&vec![run("a", 0, None, &[])]).status,
        "accepted"
    );
    let raised: Vec<(String, String)> = trace_raised(&runs)
        .into_iter()
        .map(|r| (r.consumer, r.queue))
        .collect();
    let pair = |a: &str, b: &str| (a.to_string(), b.to_string());
    assert_eq!(raised, vec![pair("a", "x"), pair("a", "y"), pair("c", "z")]);
    assert_eq!(consumer_status(0), "accepted");
    assert_eq!(consumer_status(2), "error");
    assert_eq!(source_kind_name(SourceKind::File), "file_watch");
}
