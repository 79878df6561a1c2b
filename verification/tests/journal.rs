//! Journals, launchd units and the authority to restart.

use fkst_framework::duration::Duration;
use fkst_framework::journal::{field, format_line};
use fkst_framework::launchd::{parse_render_launchd_args, LaunchdDeploymentUnit, LaunchdError};
use fkst_framework::restart_authority::ensure_restart_authority;
use fkst_framework::supervisor_journal::{
    event_line, parse_optional_u64, parse_retention_duration, prune_supervisor_logs,
    prune_supervisor_logs_by_size, LogEntry, RetentionError, RetentionPolicy,
};

#[test]
fn formatter_escapes_key_value_delimiters() {
    let line = format_line(
        "dept child exit",
        &vec![
            field("dept", "worker one"),
            field("reason", "exit=0\nok\tpath\\tail"),
        ],
    );

    assert_eq!(
        line,
        "event=dept\\schild\\sexit dept=worker\\sone reason=exit\\=0\\nok\\tpath\\\\tail\n"
    );
}

fn unit(framework_bin: &str, project_root: &str) -> Result<LaunchdDeploymentUnit, LaunchdError> {
    LaunchdDeploymentUnit::new(
        "com.example.fkst-test".to_string(),
        framework_bin.to_string(),
        project_root.to_string(),
        Vec::new(),
        "/tmp/fkst/runtime".to_string(),
        "/tmp/fkst/durable".to_string(),
    )
}

#[test]
fn launchd_plist_escapes_xml_strings() {
    let unit = unit("/opt/fkst/bin/fkst-framework", "/tmp/fkst<&>/host").ok().unwrap();

    let plist = unit.render_launchd_plist();
    assert!(plist.contains("/tmp/fkst&lt;&amp;&gt;/host"), "{plist}");
}

#[test]
fn launchd_plist_rejects_relative_command_paths() {
    let err = LaunchdDeploymentUnit::new(
        "com.example.fkst".to_string(),
        "target/debug/fkst-framework".to_string(),
        "/tmp/fkst/host".to_string(),
        Vec::new(),
        "/tmp/fkst/runtime".to_string(),
        "/tmp/fkst/durable".to_string(),
    )
    .err()
    .unwrap();

    let text = err.message();
    assert!(text.contains("--framework-bin must be absolute"), "{text}");
}

fn args(words: &[&str]) -> Vec<String> {
    words.iter().map(|w| w.to_string()).collect()
}

const COMPLETE: [&str; 10] = [
    "--label",
    "com.example.fkst",
    "--framework-bin",
    "/opt/fkst",
    "--project-root",
    "/srv/host",
    "--runtime-root",
    "/srv/runtime",
    "--durable-root",
    "/srv/durable",
];

#[test]
fn launchd_arguments_make_a_unit() {
    let unit = parse_render_launchd_args(&args(&COMPLETE)).ok().unwrap();

    assert_eq!(unit.label, "com.example.fkst");
    assert_eq!(unit.project_root, "/srv/host");
    assert!(unit.package_roots.is_empty());
}

#[test]
fn launchd_arguments_are_each_wanted_once() {
    let missing = parse_render_launchd_args(&args(&COMPLETE[2..])).err().unwrap();
    assert!(matches!(missing, LaunchdError::Missing(_)));

    let mut twice = args(&COMPLETE);
    twice.extend(args(&["--label", "again"]));
    assert!(matches!(
        parse_render_launchd_args(&twice),
        Err(LaunchdError::Duplicate(_))
    ));

    let mut unknown = args(&COMPLETE);
    unknown.push("--colour".to_string());
    assert!(matches!(
        parse_render_launchd_args(&unknown),
        Err(LaunchdError::Unknown(_))
    ));

    assert!(matches!(
        parse_render_launchd_args(&args(&["--label"])),
        Err(LaunchdError::MissingValue(_))
    ));
}

fn value(s: &str) -> Option<String> {
    Some(s.to_string())
}

#[test]
fn matching_launchd_service_name_satisfies_restart_authority() {
    assert!(
        ensure_restart_authority(&value("com.example.fkst"), &value("com.example.fkst")).is_ok()
    );
}

#[test]
fn missing_launchd_service_name_fails_closed() {
    let err = ensure_restart_authority(&None, &value("com.example.fkst"))
        .err()
        .unwrap();
    assert!(err.contains("launchd restart authority evidence"));
}

#[test]
fn shell_inherited_launchd_sentinel_fails_closed() {
    assert!(ensure_restart_authority(&value("0"), &value("com.example.fkst")).is_err());
}

#[test]
fn mismatched_launchd_label_fails_closed() {
    assert!(
        ensure_restart_authority(&value("com.example.other"), &value("com.example.fkst")).is_err()
    );
}

#[test]
fn writes_key_value_lines_with_escaped_values() {
    let content = event_line(
        5,
        "shutdown",
        &vec![field("reason", "SIGTERM received"), field("detail", "a\nb")],
    );

    assert!(content.contains("event=\"shutdown\""), "{content}");
    assert!(content.contains("reason=\"SIGTERM received\""), "{content}");
    assert!(content.contains("detail=\"a\\nb\""), "{content}");
}

fn log(path: &str, len: u64, modified_secs: i128) -> LogEntry {
    LogEntry {
        path: path.to_string(),
        len,
        modified: modified_secs * 1_000_000_000,
    }
}

#[test]
fn prunes_old_supervisor_logs_by_age() {
    let now = 10_000;
    let entries = vec![
        log("/logs/supervisor/old.log", 3, now - 200),
        log("/logs/supervisor/keep.log", 4, now - 20),
        log("/logs/supervisor/current.log", 7, now - 500),
    ];

    let removed = prune_supervisor_logs(
        &entries,
        "/logs/supervisor/current.log",
        &RetentionPolicy {
            max_age: Some(Duration::from_secs(100)),
            max_bytes: None,
        },
        now * 1_000_000_000,
    );

    assert_eq!(removed, vec!["/logs/supervisor/old.log".to_string()]);
}

#[test]
fn prunes_the_oldest_logs_until_the_rest_fits() {
    let removed = prune_supervisor_logs_by_size(
        vec![log("/l/b.log", 40, 2), log("/l/a.log", 40, 1), log("/l/c.log", 40, 3)],
        80,
    );

    assert_eq!(removed, vec!["/l/a.log".to_string()]);
}

#[test]
fn retention_settings_are_read() {
    assert_eq!(
        parse_retention_duration("2h"),
        Ok(Some(Duration::from_secs(7_200)))
    );
    assert_eq!(parse_retention_duration("2x"), Err(RetentionError::BadSuffix));
    assert_eq!(parse_retention_duration("xh"), Err(RetentionError::NotANumber));
    assert_eq!(
        parse_retention_duration("18446744073709551615d"),
        Err(RetentionError::Overflow)
    );
    assert_eq!(parse_optional_u64("17"), Ok(Some(17)));
    assert_eq!(parse_optional_u64("many"), Err(RetentionError::NotBytes));
}

#[test]
fn the_order_of_launchd_flags_makes_no_difference() {
    let mut words = COMPLETE.to_vec();
    words.extend(["--package-root", "/srv/a", "--package-root", "/srv/b"]);
    let unit = parse_render_launchd_args(&args(&words)).ok().unwrap();
    let turned = [
        "--package-root",
        "/srv/a",
        "--durable-root",
        "/srv/durable",
        "--runtime-root",
        "/srv/runtime",
        "--package-root",
        "/srv/b",
        "--project-root",
        "/srv/host",
        "--framework-bin",
        "/opt/fkst",
        "--label",
        "com.example.fkst",
    ];
    let other = parse_render_launchd_args(&args(&turned)).ok().unwrap();

    assert_eq!(other.package_roots, vec!["/srv/a", "/srv/b"]);
    assert_eq!(other.render_launchd_plist(), unit.render_launchd_plist());
}
