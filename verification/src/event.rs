//! Events.

use vstd::prelude::*;
use crate::json::{Json, JsonView};
use crate::text::copy_text;

verus! {

/// An event on a queue.
#[derive(Debug)]
pub struct Event {
    pub queue: String,
    pub payload: Json,
    pub ts: u64,
}

pub struct EventView {
    pub queue: Seq<char>,
    pub payload: JsonView,
    pub ts: u64,
}

impl View for Event {
    type V = EventView;

    open spec fn view(&self) -> EventView {
        EventView { queue: self.queue@, payload: self.payload@, ts: self.ts }
    }
}

pub open spec fn event_views(v: Seq<Event>) -> Seq<EventView> {
    Seq::new(v.len(), |i: int| v[i]@)
}

impl Event {
    pub fn copy(&self) -> (r: Event)
        ensures
            r@ == self@,
    {
        Event { queue: copy_text(self.queue.as_str()), payload: self.payload.copy(), ts: self.ts }
    }
}

} // verus!
