//! Per-department consumers.

use vstd::prelude::*;
use crate::delivery_types::RedrivePolicy;
use crate::duration::{capped_nanos, millis, Duration};

verus! {

pub const DISPATCH_BATCH: usize = 16;

/// How long a dead delivery rests before it is sent again, in seconds.
pub const REDRIVE_COOLDOWN_SECS: u64 = 600;

/// How often a dead delivery is sent again.
pub const REDRIVE_MAX: u64 = 3;

/// When and how often a consumer sends dead deliveries again.
pub fn redrive_policy() -> (r: RedrivePolicy)
    ensures
        r.max_redrives == REDRIVE_MAX,
        r.cooldown@ == REDRIVE_COOLDOWN_SECS * 1_000_000_000,
{
    RedrivePolicy {
        max_redrives: REDRIVE_MAX,
        cooldown: Duration::from_secs(REDRIVE_COOLDOWN_SECS),
    }
}

#[derive(Clone, Copy, Debug, PartialEq, Eq, Structural)]
pub enum ShouldExit {
    Yes,
    No,
}

/// What a consumer does when its ephemeral inbox is gone: it exits where no reliable queue
/// remains, and listens to those alone otherwise.
pub fn on_ephemeral_disconnect(reliable_queues_empty: bool, ephemeral_open: &mut bool) -> (r:
    ShouldExit)
    ensures
        r == if reliable_queues_empty {
            ShouldExit::Yes
        } else {
            ShouldExit::No
        },
        *final(ephemeral_open) == (*old(ephemeral_open) && reliable_queues_empty),
{
    if reliable_queues_empty {
        ShouldExit::Yes
    } else {
        *ephemeral_open = false;
        ShouldExit::No
    }
}

pub open spec fn least(a: int, b: int) -> int {
    if a <= b {
        a
    } else {
        b
    }
}

/// How many deliveries may start now.
pub open spec fn dispatch_room(running: int, max_in_flight: int, burst: int) -> int {
    least(
        least(
            if running < max_in_flight {
                max_in_flight - running
            } else {
                0
            },
            burst,
        ),
        DISPATCH_BATCH as int,
    )
}

pub fn durable_dispatch_capacity(
    running_len: usize,
    max_in_flight: usize,
    admission_burst: usize,
) -> (r: usize)
    ensures
        r == dispatch_room(running_len as int, max_in_flight as int, admission_burst as int),
{
    let free: usize = max_in_flight.saturating_sub(running_len);
    let admitted: usize = if free <= admission_burst {
        free
    } else {
        admission_burst
    };
    if admitted <= DISPATCH_BATCH {
        admitted
    } else {
        DISPATCH_BATCH
    }
}

/// What starts now keeps to the ceiling, to the burst and to the batch.
pub proof fn law_dispatch_room(running: int, max_in_flight: int, burst: int)
    requires
        0 <= running,
        0 <= max_in_flight,
        0 <= burst,
    ensures
        running <= max_in_flight ==> running + dispatch_room(running, max_in_flight, burst)
            <= max_in_flight,
        running >= max_in_flight ==> dispatch_room(running, max_in_flight, burst) == 0,
        dispatch_room(running, max_in_flight, burst) <= burst,
        0 <= dispatch_room(running, max_in_flight, burst) <= DISPATCH_BATCH,
{
}

/// For how long a delivery is leased: the stall window, a dispatch interval and five seconds.
pub open spec fn lease_nanos(stall_window: nat) -> nat {
    capped_nanos(capped_nanos(stall_window + 1_000_000_000) + 5_000_000_000)
}

pub fn retry_lease(stall_window: Duration) -> (r: Duration)
    ensures
        r@ == lease_nanos(stall_window@),
{
    stall_window.saturating_add(Duration::from_secs(1)).saturating_add(Duration::from_secs(5))
}

/// How often a lease is renewed: after half of it, and after a second at the least.
pub open spec fn renew_nanos(stall_window: nat) -> nat {
    if lease_nanos(stall_window) / 2 >= 1_000_000_000 {
        lease_nanos(stall_window) / 2
    } else {
        1_000_000_000
    }
}

pub fn renew_interval(stall_window: Duration) -> (r: Duration)
    ensures
        r@ == renew_nanos(stall_window@),
{
    retry_lease(stall_window).half().longer(Duration::from_secs(1))
}

/// A lease is renewed before it runs out.
pub proof fn law_renewed_in_time(stall_window: nat)
    ensures
        renew_nanos(stall_window) < lease_nanos(stall_window),
{
}

/// When a lease that is taken now is renewed.
pub fn next_renew_at_ms(now_ms: u64, stall_window: Duration) -> (r: u64)
    ensures
        r == if now_ms + millis(renew_nanos(stall_window@)) <= u64::MAX {
            now_ms + millis(renew_nanos(stall_window@))
        } else {
            u64::MAX as int
        },
{
    now_ms.saturating_add(renew_interval(stall_window).millis())
}

/// Whether a delivery whose child ended with this code is worth another run: where it ran out of
/// time.
pub fn is_replayable_framework_exit_code(exit_code: i32) -> (r: bool)
    ensures
        r == (exit_code == 124),
{
    exit_code == 124
}

} // verus!
