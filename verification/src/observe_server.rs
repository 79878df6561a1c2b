//! How a request to observe the deliveries is answered.

use vstd::prelude::*;
use vstd::string::*;
use crate::delivery_observe::{
    observe_limit, DeadLetterPageOptions, DeliveryObserveOptions, DeliveryObserveSnapshot,
    DeliveryObserveTruncated,
};
use crate::delivery_types::SourceRef;
use crate::text::copy_text;

verus! {

/// Which deliveries a request asks for: those that one source sent to one department.
pub struct LineageRequest {
    pub queue: String,
    pub dept: String,
    pub source_ref: SourceRef,
}

/// Which parts of a snapshot a request asks for.
#[derive(Clone, Copy, Debug, PartialEq, Eq, Structural)]
pub struct ObserveProjection {
    pub queue_aggregates: bool,
    pub deliveries: bool,
    pub dead_letters: bool,
}

impl Default for ObserveProjection {
    /// All parts.
    fn default() -> (r: ObserveProjection)
        ensures
            r == (ObserveProjection {
                queue_aggregates: true,
                deliveries: true,
                dead_letters: true,
            }),
    {
        ObserveProjection { queue_aggregates: true, deliveries: true, dead_letters: true }
    }
}

/// A request to observe the deliveries.
pub struct ObserveRequest {
    pub now_ms: u64,
    pub limit: usize,
    pub since: Option<String>,
    pub page: Option<DeadLetterPageOptions>,
    pub lineage: Option<LineageRequest>,
    pub projection: ObserveProjection,
}

/// What is done about a request.
pub enum ObserveAction {
    /// One line of deliveries is looked up.
    Lineage { lineage: LineageRequest, now_ms: u64 },
    /// A snapshot is taken, and the parts of it that are asked for are told.
    Snapshot { options: DeliveryObserveOptions, projection: ObserveProjection },
}

/// What is done about a request: where it names a line of deliveries, that is looked up; else a
/// snapshot is taken of no more entries than are allowed.
pub fn plan_request(
    request: ObserveRequest,
    max_limit: usize,
    current_subscriber_queues: Vec<String>,
) -> (r: ObserveAction)
    requires
        max_limit >= 1,
    ensures
        match request.lineage {
            Some(asked) => r == (ObserveAction::Lineage { lineage: asked, now_ms: request.now_ms }),
            None => r == (ObserveAction::Snapshot {
                options: DeliveryObserveOptions {
                    now_ms: request.now_ms,
                    limit: if request.limit < 1 {
                        1
                    } else if request.limit > max_limit {
                        max_limit
                    } else {
                        request.limit
                    },
                    since: request.since,
                    dead_letter_page: request.page,
                    dead_letter_window: None,
                    current_subscriber_queues: Some(current_subscriber_queues),
                },
                projection: request.projection,
            }),
        },
{
    match request.lineage {
        Some(lineage) => ObserveAction::Lineage { lineage, now_ms: request.now_ms },
        None => ObserveAction::Snapshot {
            options: DeliveryObserveOptions {
                now_ms: request.now_ms,
                limit: observe_limit(request.limit, max_limit),
                since: request.since,
                dead_letter_page: request.page,
                dead_letter_window: None,
                current_subscriber_queues: Some(current_subscriber_queues),
            },
            projection: request.projection,
        },
    }
}

/// A snapshot with nothing in the parts that are not asked for.
pub fn project_snapshot(snapshot: DeliveryObserveSnapshot, projection: ObserveProjection) -> (r:
    DeliveryObserveSnapshot)
    ensures
        r.schema_version == snapshot.schema_version,
        r.generated_at_ms == snapshot.generated_at_ms,
        r.source == snapshot.source,
        r.limits == snapshot.limits,
        r.truncated.deliveries == (projection.deliveries && snapshot.truncated.deliveries),
        r.truncated.dead_letters == (projection.dead_letters && snapshot.truncated.dead_letters),
        r.dead_letters_complete == snapshot.dead_letters_complete,
        r.queues@ == (if projection.queue_aggregates {
            snapshot.queues@
        } else {
            Seq::empty()
        }),
        r.deliveries@ == (if projection.deliveries {
            snapshot.deliveries@
        } else {
            Seq::empty()
        }),
        r.dead_letters@ == (if projection.dead_letters {
            snapshot.dead_letters@
        } else {
            Seq::empty()
        }),
        r.page == snapshot.page,
{
    DeliveryObserveSnapshot {
        schema_version: snapshot.schema_version,
        generated_at_ms: snapshot.generated_at_ms,
        source: snapshot.source,
        limits: snapshot.limits,
        truncated: DeliveryObserveTruncated {
            deliveries: projection.deliveries && snapshot.truncated.deliveries,
            dead_letters: projection.dead_letters && snapshot.truncated.dead_letters,
        },
        dead_letters_complete: snapshot.dead_letters_complete,
        queues: if projection.queue_aggregates {
            snapshot.queues
        } else {
            Vec::new()
        },
        deliveries: if projection.deliveries {
            snapshot.deliveries
        } else {
            Vec::new()
        },
        dead_letters: if projection.dead_letters {
            snapshot.dead_letters
        } else {
            Vec::new()
        },
        page: snapshot.page,
    }
}

/// What is answered where a request cannot be read.
pub fn undecodable_request(error: &str) -> (r: String)
    ensures
        r@ == "decode observe request: "@ + error@,
{
    let mut out: String = copy_text("decode observe request: ");
    out.append(error);
    out
}

} // verus!
