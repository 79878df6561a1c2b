//! Raisers: when they fire and what they emit.

use fkst_framework::duration::Duration;
use fkst_framework::glob::{
    glob_has_magic, glob_has_recursive_wildcard, glob_matches_path, literal_prefix_before_magic,
};
use fkst_framework::json::{parse_json, same_json};
use fkst_framework::source_runner::{
    absolutize_glob, cron_emission, cron_first_fire_jitter, cron_payload, cron_slot,
    cron_source_reference, duration_fits, emit_changed_path, file_source_reference, next_fire,
    observe_path, parse_duration, watch_step, DurationError, FileChange, FileIdentity, WatchAction,
    WatchEvent,
};

#[test]
fn relative_file_watch_glob_is_host_root_anchored_when_cwd_differs() {
    let host = tempfile::tempdir().unwrap();
    let root = host.path().to_string_lossy().into_owned();
    let scan_root = format!("{root}/input");

    let resolved = absolutize_glob("input/*.txt", &root, &scan_root, Some("/real/input"));

    assert_eq!(resolved, "/real/input/*.txt");
    assert_eq!(
        absolutize_glob("input/*.txt", &root, &scan_root, None),
        format!("{root}/input/*.txt")
    );
}

#[test]
fn parses_seconds() {
    assert_eq!(parse_duration("10s").ok().unwrap(), Duration::from_secs(10));
}

#[test]
fn parses_minutes() {
    assert_eq!(parse_duration("5m").ok().unwrap(), Duration::from_secs(300));
}

#[test]
fn parses_hours() {
    assert_eq!(
        parse_duration("2h").ok().unwrap(),
        Duration::from_secs(7200)
    );
}

#[test]
fn rejects_no_unit() {
    assert!(parse_duration("60").is_err());
}

#[test]
fn rejects_bad_unit() {
    assert!(parse_duration("10x").is_err());
}

#[test]
fn rejects_cron_expression_prefix() {
    assert!(parse_duration("*/5m").is_err());
    assert!(parse_duration("*/5 m").is_err());
}

#[test]
fn rejects_empty() {
    assert!(parse_duration("").is_err());
}

#[test]
fn says_why_a_text_is_no_duration() {
    let text = |s: &str| parse_duration(s).err().unwrap().message();

    assert_eq!(text("  "), "empty duration");
    assert_eq!(text("x1s"), "not a number: 'x1'");
    assert_eq!(text("10x"), "unit must be s/m/h, got 'x'");
    assert!(matches!(parse_duration(""), Err(DurationError::Empty)));
    assert!(duration_fits("10x"));
    assert!(!duration_fits("18446744073709551615h"));
}

#[test]
fn cron_payload_carries_no_process_local_counter() {
    let payload = cron_payload("tick");
    assert!(same_json(
        &payload,
        &parse_json(br#"{"raiser": "tick"}"#).unwrap()
    ));
    assert!(payload.get("n").is_none());
}

#[test]
fn cron_source_reference_uses_logical_slot() {
    assert_eq!(cron_source_reference("tick", 1_000), "tick/slot/1000");
    let slot = cron_slot(1_700_000_012_345, Duration::from_secs(60));
    assert_eq!(slot % 60_000, 0);
    assert_eq!(slot, 1_699_999_980_000);
}

#[test]
fn cron_first_fire_jitter_is_before_interval() {
    let interval = Duration::from_secs(600);
    let jitter = cron_first_fire_jitter("tick", interval);

    assert_eq!(jitter, cron_first_fire_jitter("tick", interval));
    assert_ne!(jitter, cron_first_fire_jitter("other", interval));
    assert!(jitter < Duration::from_secs(30));
    assert!(jitter < interval);
}

#[test]
fn cron_first_fire_jitter_is_bounded_by_short_interval() {
    let interval = Duration::from_secs(5);
    let jitter = cron_first_fire_jitter("tick", interval);

    assert!(jitter < interval);
}

#[test]
fn missed_firings_fall_into_one() {
    assert_eq!(next_fire(1_000, 100, 1_050), 1_100);
    assert_eq!(next_fire(1_000, 100, 5_000), 5_000);
}

#[test]
fn a_cron_raiser_emits_its_slot() {
    let emission = cron_emission("tick", "jobs", 60_000, 61_234);

    assert_eq!(emission.queue, "jobs");
    assert_eq!(emission.observed_at_ms, 61_234);
    assert_eq!(emission.source.reference, "tick/slot/60000");
    assert!(emission.cron_payload.is_some());
}

#[test]
fn file_source_reference_includes_stable_change_version() {
    let identity = FileIdentity {
        len: 4,
        modified: Some(1_234_000_000),
    };
    let reference = file_source_reference("/tmp/input.txt", identity);

    assert_eq!(reference, "/tmp/input.txt/len/4/mtime/1234");
    let unknown = FileIdentity {
        len: 4,
        modified: None,
    };
    assert_eq!(
        file_source_reference("/tmp/input.txt", unknown),
        "/tmp/input.txt/len/4"
    );
}

fn identity(len: u64) -> FileIdentity {
    FileIdentity {
        len,
        modified: None,
    }
}

#[test]
fn file_watch_existing_file_emits_event() {
    let mut seen = Vec::new();

    let emission = observe_path(
        "/in/*.txt",
        "/in/existing.txt",
        identity(5),
        "files",
        9,
        &mut seen,
    )
    .unwrap();

    assert_eq!(emission.queue, "files");
    assert_eq!(
        emission.payload.text_at("path"),
        Some("/in/existing.txt".to_string())
    );
    assert!(observe_path("/in/*.txt", "/in/a.md", identity(5), "files", 9, &mut seen).is_none());
}

#[test]
fn file_watch_periodic_scan_dedupes_unchanged_file() {
    let mut seen = Vec::new();
    let mut emitted = 0;
    for _ in 0..3 {
        if observe_path("/in/*", "/in/a", identity(5), "files", 9, &mut seen).is_some() {
            emitted += 1;
        }
    }
    assert_eq!(emitted, 1);
}

#[test]
fn file_watch_periodic_scan_reemits_changed_file() {
    let mut seen = Vec::new();
    assert!(observe_path("/in/*", "/in/a", identity(5), "files", 9, &mut seen).is_some());
    assert!(observe_path("/in/*", "/in/a", identity(6), "files", 9, &mut seen).is_some());
    assert!(observe_path("/in/*", "/in/a", identity(6), "files", 9, &mut seen).is_none());
}

#[test]
fn file_watch_restart_startup_scan_replays_existing_file() {
    for _ in 0..2 {
        let mut seen = Vec::new();
        assert!(observe_path("/in/*", "/in/a", identity(5), "files", 9, &mut seen).is_some());
    }
}

#[test]
fn a_file_watch_looks_at_what_was_created() {
    let paths = vec!["/in/a".to_string()];
    match watch_step(WatchEvent::Changed {
        change: FileChange::Create,
        paths: paths.clone(),
    }) {
        WatchAction::Check(found) => assert_eq!(found, paths),
        _ => panic!("expected a check"),
    }
    let changed = watch_step(WatchEvent::Changed {
        change: FileChange::Modify,
        paths,
    });
    assert!(matches!(changed, WatchAction::Ignore));
    assert!(matches!(watch_step(WatchEvent::Poll), WatchAction::Scan));
    assert!(matches!(watch_step(WatchEvent::Closed), WatchAction::Scan));
    assert!(matches!(watch_step(WatchEvent::Failed), WatchAction::Ignore));
}

#[test]
fn globs_match_paths() {
    assert!(glob_matches_path("/in/*.txt", "/in/a.txt"));
    assert!(!glob_matches_path("/in/*.txt", "/in/sub/a.txt"));
    assert!(glob_matches_path("/in/**/a.txt", "/in/x/y/a.txt"));
    assert!(glob_matches_path("/in/**/a.txt", "/in/a.txt"));
    assert!(glob_matches_path("/in/a?c", "/in/abc"));
    assert!(!glob_matches_path("/in/a?c", "/in/ac"));
    assert!(glob_matches_path("C:\\in\\*", "C:/in/a"));
    assert!(glob_has_magic("/in/[a]"));
    assert!(!glob_has_magic("/in/a"));
    assert!(glob_has_recursive_wildcard("/in/**/a"));
    assert!(!glob_has_recursive_wildcard("/in/a**"));
    assert_eq!(literal_prefix_before_magic("/in/sub/*.txt"), "/in/sub");
    assert_eq!(literal_prefix_before_magic("/*.txt"), "/");
    assert_eq!(literal_prefix_before_magic("*.txt"), ".");
}

#[test]
fn a_scan_emits_a_file_under_its_resolved_path() {
    let mut seen = Vec::new();
    let emission =
        emit_changed_path("/real/a", identity(5), "files", 9, &mut seen).unwrap();
    assert_eq!(emission.queue, "files");
    assert_eq!(emission.observed_at_ms, 9);
    assert!(emit_changed_path("/real/a", identity(5), "files", 9, &mut seen).is_none());
    assert!(emit_changed_path("/real/a", identity(6), "files", 9, &mut seen).is_some());
}
