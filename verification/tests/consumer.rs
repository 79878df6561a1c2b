use fkst_framework::consumer::{
    durable_dispatch_capacity, is_replayable_framework_exit_code, on_ephemeral_disconnect,
    renew_interval, retry_lease, ShouldExit, DISPATCH_BATCH,
};
use fkst_framework::duration::Duration;

#[test]
fn ephemeral_disconnect_disables_arm_when_reliable_queues_remain() {
    let mut ephemeral_open = true;

    let should_exit = on_ephemeral_disconnect(false, &mut ephemeral_open);

    assert_eq!(should_exit, ShouldExit::No);
    assert!(!ephemeral_open);
}

#[test]
fn ephemeral_disconnect_exits_when_reliable_queues_are_empty() {
    let mut ephemeral_open = true;

    let should_exit = on_ephemeral_disconnect(true, &mut ephemeral_open);

    assert_eq!(should_exit, ShouldExit::Yes);
    assert!(ephemeral_open);
}

#[test]
fn durable_dispatch_capacity_admits_one_per_pass_with_default_burst() {
    assert_eq!(durable_dispatch_capacity(0, 16, 1), 1);
    assert_eq!(durable_dispatch_capacity(1, 16, 1), 1);
    assert_eq!(durable_dispatch_capacity(16, 16, 1), 0);
}

#[test]
fn durable_dispatch_capacity_honors_steady_state_ceiling() {
    assert_eq!(durable_dispatch_capacity(15, 16, 1), 1);
    assert_eq!(durable_dispatch_capacity(16, 16, 1), 0);
    assert_eq!(durable_dispatch_capacity(17, 16, 1), 0);
}

#[test]
fn durable_dispatch_capacity_limits_restart_burst() {
    assert_eq!(durable_dispatch_capacity(0, 16, 1), 1);
    assert_eq!(durable_dispatch_capacity(0, 16, 4), 4);
}

#[test]
fn durable_dispatch_capacity_clamps_to_burst_and_dispatch_batch() {
    assert_eq!(durable_dispatch_capacity(0, 16, 8), 8);
    assert_eq!(durable_dispatch_capacity(0, 64, 32), DISPATCH_BATCH);
}

#[test]
fn renew_interval_is_before_retry_lease() {
    let stall_window = Duration::from_secs(30);

    let interval = renew_interval(stall_window);

    assert!(interval >= Duration::from_secs(1));
    assert!(interval < retry_lease(stall_window));
}

#[test]
fn framework_exit_classifier_keeps_timeout_as_the_only_replayable_exit() {
    assert!(is_replayable_framework_exit_code(124));
    for exit_code in [1, 123, 125] {
        assert!(!is_replayable_framework_exit_code(exit_code));
    }
}
