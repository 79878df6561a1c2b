//! The graph of departments, raisers and queues, and starting from it.

use fkst_framework::config::{Config, DepartmentDecl, QueueDecl, RaiserDecl, RaiserKind, RetryDecl};
use fkst_framework::duration::Duration;
use fkst_framework::graph_build::{
    assemble_graph, declare_department, declare_raiser, DepartmentDefaults, DepartmentPlace,
    DepartmentSpec,
};
use fkst_framework::graph_scan::{
    declaration_namespace, derive_queues, insert_department_decl, insert_raiser_decl,
    materialize_retry, parse_duration_millis, queue_owned_by_namespace,
    reject_engine_dead_letter_produces, reject_runtime_file_watch_glob, stall_window,
    validate_cross_package_produces, validate_published_seam, validate_retry_default,
    DeptRetrySetting, GraphError, StartupError,
};
use fkst_framework::supervise::{
    plan_departments, plan_raisers, shutdown_fields, signal_fields, startup_failed_fields,
    startup_fields, RaiserPlan, StartupEnvironment, StartupStep, StopSignal,
};

fn names(list: &[&str]) -> Vec<String> {
    list.iter().map(|s| s.to_string()).collect()
}

fn department(name: &str, consumes: &[&str], produces: &[&str]) -> DepartmentDecl {
    DepartmentDecl {
        name: name.to_string(),
        lua: String::new(),
        owner_root: ".".to_string(),
        owner_namespace: declaration_namespace(name),
        consumes: names(consumes),
        produces: names(produces),
        fanout: Vec::new(),
        published_seam: Vec::new(),
        ephemeral: Vec::new(),
        stall_window: "30s".to_string(),
        graph_json: false,
        retry: None,
    }
}

fn cron(name: &str, interval: &str, produces: &str) -> RaiserDecl {
    RaiserDecl {
        name: name.to_string(),
        kind: RaiserKind::Cron {
            interval: interval.to_string(),
        },
        produces: produces.to_string(),
    }
}

fn retry(max_attempts: u64, base: &str, cap: &str) -> RetryDecl {
    RetryDecl {
        max_attempts,
        base: base.to_string(),
        cap: cap.to_string(),
    }
}

#[test]
fn declarations_are_kept_in_order_and_once() {
    let mut departments = Vec::new();
    for name in ["b", "c", "a"] {
        insert_department_decl(&mut departments, department(name, &["q"], &[]), "/m").unwrap();
    }
    let found: Vec<&str> = departments.iter().map(|d| d.name.as_str()).collect();
    assert_eq!(found, vec!["a", "b", "c"]);
    let err = insert_department_decl(&mut departments, department("b", &[], &[]), "/m/main.lua")
        .unwrap_err();
    assert_eq!(err.message(), "duplicate department `b` at /m/main.lua");

    let mut raisers = Vec::new();
    insert_raiser_decl(&mut raisers, cron("t", "1s", "q"), "/t.lua").unwrap();
    let err = insert_raiser_decl(&mut raisers, cron("t", "1s", "q"), "/t.lua").unwrap_err();
    assert_eq!(err.message(), "duplicate raiser `t` at /t.lua");
}

#[test]
fn queues_belong_to_the_namespace_in_front_of_the_dot() {
    assert_eq!(declaration_namespace("pkg.worker"), "pkg");
    assert!(queue_owned_by_namespace("pkg.jobs", "pkg"));
    assert!(!queue_owned_by_namespace("other.jobs", "pkg"));
}

#[test]
fn a_queue_of_a_sibling_must_be_published() {
    let mut sibling = department("other.worker", &["other.jobs"], &[]);
    let producer = department("pkg.worker", &["pkg.in"], &["other.jobs"]);
    let err = validate_cross_package_produces(
        &vec![department("other.worker", &["other.jobs"], &[]), producer],
        &Vec::new(),
    )
    .unwrap_err();
    assert!(matches!(err, GraphError::DepartmentSibling { .. }));

    sibling.published_seam = names(&["other.jobs"]);
    let producer = department("pkg.worker", &["pkg.in"], &["other.jobs"]);
    assert!(validate_cross_package_produces(&vec![sibling, producer], &Vec::new()).is_ok());

    let err = validate_cross_package_produces(
        &vec![department("other.worker", &["other.jobs"], &[])],
        &vec![cron("pkg.tick", "1s", "other.jobs")],
    )
    .unwrap_err();
    assert!(matches!(err, GraphError::RaiserSibling { .. }));
}

#[test]
fn a_published_queue_is_consumed_and_owned() {
    let jobs = names(&["pkg.jobs"]);
    assert!(validate_published_seam(&jobs, &jobs, "pkg", "pkg.worker").is_ok());
    assert!(matches!(
        validate_published_seam(&jobs, &Vec::new(), "pkg", "pkg.worker"),
        Err(GraphError::SeamNotConsumed { .. })
    ));
    assert!(matches!(
        validate_published_seam(&jobs, &jobs, "other", "pkg.worker"),
        Err(GraphError::SeamNotOwned { .. })
    ));
}

#[test]
fn queues_are_derived_from_their_users() {
    let mut worker = department("worker", &["jobs"], &["done"]);
    worker.fanout = names(&["done"]);
    let queues = derive_queues(&vec![worker], &vec![cron("t", "1s", "jobs")], 8).unwrap();

    let found: Vec<(&str, usize, bool)> = queues
        .iter()
        .map(|q| (q.name.as_str(), q.capacity, q.fanout))
        .collect();
    assert_eq!(found, vec![("done", 8, true), ("jobs", 8, false)]);

    let mut stray = department("worker", &["jobs"], &[]);
    stray.fanout = names(&["elsewhere"]);
    let err = derive_queues(&vec![stray], &Vec::new(), 8).err().unwrap();
    assert!(matches!(err, GraphError::FanoutUnused { .. }));
}

#[test]
fn engine_queues_are_not_produced() {
    let produced = names(&["dead_letter"]);
    let err = reject_engine_dead_letter_produces(
        &produced,
        &vec![Some("engine".to_string())],
        "worker",
    )
    .unwrap_err();
    assert!(err.message().contains("must not produce runtime-owned queue `dead_letter`"));
    assert!(reject_engine_dead_letter_produces(&produced, &vec![None], "worker").is_ok());
}

#[test]
fn globs_below_the_runtime_are_refused() {
    let glob = |glob: &str| RaiserKind::FileWatch {
        glob: glob.to_string(),
    };
    assert!(matches!(
        reject_runtime_file_watch_glob(&glob("runtime://in/*")),
        Err(GraphError::RemovedGlob)
    ));
    assert!(reject_runtime_file_watch_glob(&glob("in/*")).is_ok());
}

#[test]
fn retry_settings_fall_back_to_defaults() {
    let defaults = retry(3, "5s", "1m");
    let set = materialize_retry(&DeptRetrySetting::Default, &defaults, &vec![false])
        .unwrap()
        .unwrap();
    assert_eq!((set.max_attempts, set.base.as_str()), (3, "5s"));

    let custom = DeptRetrySetting::Custom {
        max_attempts: Some(9),
        base: None,
        cap: Some("2m".to_string()),
    };
    let set = materialize_retry(&custom, &defaults, &vec![false]).unwrap().unwrap();
    assert_eq!(set.max_attempts, 9);
    assert_eq!(set.base, "5s");
    assert_eq!(set.cap, "2m");

    assert!(materialize_retry(&DeptRetrySetting::Disabled, &defaults, &vec![false])
        .unwrap()
        .is_none());
    assert!(materialize_retry(&DeptRetrySetting::Default, &defaults, &vec![true])
        .unwrap()
        .is_none());
    assert!(matches!(
        materialize_retry(&DeptRetrySetting::Default, &defaults, &vec![true, false]),
        Err(GraphError::MixedDeadLetter)
    ));
}

#[test]
fn retry_defaults_are_checked() {
    assert!(validate_retry_default(&retry(3, "5s", "1m")).is_ok());
    assert!(matches!(
        validate_retry_default(&retry(3, "x", "1m")),
        Err(GraphError::BadRetryBase)
    ));
    assert!(matches!(
        validate_retry_default(&retry(3, "5s", "0s")),
        Err(GraphError::BadRetryCap)
    ));
    assert!(matches!(
        validate_retry_default(&retry(3, "5m", "1m")),
        Err(GraphError::CapBelowBase)
    ));
    assert_eq!(parse_duration_millis("2m"), Some(120_000));
    assert_eq!(stall_window("", "30s"), "30s");
    assert_eq!(stall_window("5s", "30s"), "5s");
}

fn queue(name: &str, capacity: usize) -> QueueDecl {
    QueueDecl {
        name: name.to_string(),
        capacity,
        fanout: false,
    }
}

fn config(departments: Vec<DepartmentDecl>) -> Config {
    Config {
        queue: vec![queue("jobs", 8), queue("more", 32)],
        raiser: Vec::new(),
        department: departments,
        global_codex_processes: 1,
    }
}

#[test]
fn a_department_has_room_for_its_largest_queue() {
    let cfg = config(vec![
        department("a", &["jobs"], &[]),
        department("b", &["jobs", "more"], &[]),
    ]);
    assert_eq!(plan_departments(&cfg).unwrap(), vec![8, 32]);

    let undeclared = config(vec![department("a", &["jobs", "ghost"], &[])]);
    let err = plan_departments(&undeclared).unwrap_err();
    assert!(matches!(err, StartupError::UndeclaredQueue { .. }));
    assert_eq!(
        err.message(),
        "department `a` consumes undeclared queue `ghost`"
    );

    let idle = config(vec![department("a", &[], &[])]);
    assert_eq!(
        plan_departments(&idle).unwrap_err().message(),
        "department `a` has no consumed queue"
    );
}

#[test]
fn raisers_run_at_their_interval() {
    let watch = RaiserDecl {
        name: "files".to_string(),
        kind: RaiserKind::FileWatch {
            glob: "in/*".to_string(),
        },
        produces: "jobs".to_string(),
    };
    let plans = plan_raisers(&vec![watch, cron("tick", "5m", "jobs")]).ok().unwrap();
    assert!(matches!(plans[0], RaiserPlan::FileWatch));
    assert!(matches!(plans[1], RaiserPlan::Cron(d) if d == Duration::from_secs(300)));
    assert!(plan_raisers(&vec![cron("tick", "5 parsecs", "jobs")]).is_err());
}

#[test]
fn the_journal_tells_of_start_and_stop() {
    let fields = startup_fields(&StartupEnvironment {
        host_root: "/host".to_string(),
        package_roots: names(&["/a", "/b"]),
        framework_bin: "/bin/fkst".to_string(),
        runtime_root: None,
        durable_root_set: true,
        package_roots_env_set: false,
        package_root_env_set: false,
    });
    let told: Vec<(&str, &str)> = fields
        .iter()
        .map(|f| (f.key.as_str(), f.value.as_str()))
        .collect();
    assert_eq!(
        told,
        vec![
            ("host_root", "/host"),
            ("package_roots", "/a;/b"),
            ("framework_bin", "/bin/fkst"),
            ("runtime_root", "unset"),
            ("durable_root_set", "true"),
            ("package_roots_env_set", "false"),
            ("package_root_env_set", "false"),
        ]
    );
    assert_eq!(
        startup_failed_fields(StartupStep::SchemaValidation, "bad")[0].value,
        "schema_validation:bad"
    );
    assert_eq!(signal_fields(StopSignal::Terminate)[0].value, "SIGTERM");
    assert_eq!(
        shutdown_fields(StopSignal::Interrupt)[0].value,
        "signal:SIGINT"
    );
}

fn spec(consumes: &[&str], produces: &[&str]) -> DepartmentSpec {
    DepartmentSpec {
        consumes: names(consumes),
        produces: names(produces),
        fanout: Vec::new(),
        published_seam: Vec::new(),
        ephemeral: Vec::new(),
        graph_json: false,
        stall_window: " ".to_string(),
        retry: DeptRetrySetting::Default,
        providers: produces.iter().map(|_| None).collect(),
        dead_letters: consumes.iter().map(|_| false).collect(),
    }
}

fn place(own_name: &str) -> DepartmentPlace {
    DepartmentPlace {
        own_name: own_name.to_string(),
        name: format!("pkg.{own_name}"),
        lua: format!("/pkg/departments/{own_name}/main.lua"),
        owner_root: "/pkg".to_string(),
        owner_namespace: "pkg".to_string(),
    }
}

fn department_defaults() -> DepartmentDefaults {
    DepartmentDefaults {
        stall_window: "30s".to_string(),
        retry: retry(3, "1s", "1m"),
    }
}

#[test]
fn a_graph_is_declared_piece_by_piece() {
    let defaults = department_defaults();
    let mut departments = Vec::new();
    let worker = spec(&["pkg.jobs"], &["pkg.done"]);
    declare_department(&mut departments, worker, place("worker"), &defaults).unwrap();
    let mut auditor = spec(&["pkg.done"], &[]);
    auditor.fanout = names(&["pkg.done"]);
    auditor.stall_window = "5m".to_string();
    auditor.retry = DeptRetrySetting::Disabled;
    declare_department(&mut departments, auditor, place("auditor"), &defaults).unwrap();
    let mut raisers = Vec::new();
    declare_raiser(&mut raisers, cron("pkg.tick", "1m", "pkg.jobs"), "/tick.lua").unwrap();

    let cfg = assemble_graph(departments, raisers, 16, 4).unwrap();

    assert_eq!(cfg.global_codex_processes, 4);
    let found: Vec<(&str, usize, bool)> = cfg
        .queue
        .iter()
        .map(|q| (q.name.as_str(), q.capacity, q.fanout))
        .collect();
    assert_eq!(found, vec![("pkg.done", 16, true), ("pkg.jobs", 16, false)]);
    assert_eq!(cfg.department[0].name, "pkg.auditor");
    assert_eq!(cfg.department[0].stall_window, "5m");
    assert!(cfg.department[0].retry.is_none());
    assert_eq!(cfg.department[1].stall_window, "30s");
    assert_eq!(cfg.department[1].retry.as_ref().unwrap().max_attempts, 3);
    assert_eq!(plan_departments(&cfg).unwrap(), vec![16, 16]);
}

#[test]
fn a_department_that_does_not_fit_is_not_declared() {
    let defaults = department_defaults();
    let mut departments = Vec::new();
    let mut engine = spec(&["pkg.jobs"], &["pkg.dead_letter"]);
    engine.providers = vec![Some("dead_letter".to_string())];
    engine.published_seam = names(&["pkg.other"]);
    let err =
        declare_department(&mut departments, engine, place("worker"), &defaults).unwrap_err();
    assert_eq!(
        err.message(),
        "department `worker` must not produce runtime-owned queue `pkg.dead_letter` from built-in provider `dead_letter`"
    );
    let mut seam = spec(&["pkg.jobs"], &[]);
    seam.published_seam = names(&["pkg.other"]);
    let err = declare_department(&mut departments, seam, place("worker"), &defaults).unwrap_err();
    assert!(matches!(err, GraphError::SeamNotConsumed { .. }));
    let mut mixed = spec(&["pkg.jobs", "pkg.dead_letter"], &[]);
    mixed.dead_letters = vec![false, true];
    let err = declare_department(&mut departments, mixed, place("worker"), &defaults).unwrap_err();
    assert!(matches!(err, GraphError::MixedDeadLetter));
    assert!(departments.is_empty());

    let worker = spec(&["pkg.jobs"], &["pkg.done"]);
    declare_department(&mut departments, worker, place("worker"), &defaults).unwrap();
    let again = spec(&["pkg.jobs"], &[]);
    let err = declare_department(&mut departments, again, place("worker"), &defaults).unwrap_err();
    assert_eq!(
        err.message(),
        "duplicate department `pkg.worker` at /pkg/departments/worker/main.lua"
    );
    let mut raisers = Vec::new();
    let removed = RaiserDecl {
        name: "pkg.files".to_string(),
        kind: RaiserKind::FileWatch {
            glob: "runtime://in/*".to_string(),
        },
        produces: "pkg.jobs".to_string(),
    };
    let err = declare_raiser(&mut raisers, removed, "/files.lua").unwrap_err();
    assert!(matches!(err, GraphError::RemovedGlob));
    assert!(raisers.is_empty());

    let stray = vec![cron("pkg.tick", "1m", "other.jobs")];
    let err = assemble_graph(departments, stray, 16, 4).err().unwrap();
    assert!(matches!(err, GraphError::RaiserSibling { .. }));
}
