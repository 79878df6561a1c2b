# fkst_framework

A supervisor that takes events from sources (timers, watched files, the output of other runs) to
departments: Lua programs that run as children. A department that wants its events reliably gets
each of them from a durable store, leased to one run at a time, tried again with growing delays, and
buried where it fails too often. A department that does not gets them at most once.

- `src/` is the library: every decision of the supervisor, stated in `requires` and `ensures` and
  proved by Verus. It works on plain values and on redb transactions.
- `tests/` runs the library, with a real database and real channels.
- `app/` is the program around it: clocks, files, sockets, children, channels and Lua.

## Where to start reading

- `src/store_model.rs` says what the delivery store holds and what each operation does to it;
  `src/delivery_store.rs` and its neighbours are proved to do just that.
- `src/store_invariant.rs`, `src/store_laws.rs`, `src/store_leases.rs`, `src/store_redrives.rs` and
  `src/store_history.rs` say what holds of every sound store: no delivery is lost, none is held twice,
  what is told of a redrive is what the store holds, and nothing that was given up ever comes back.
- `src/observe_laws.rs` says what holds of the snapshots that are told of a store.
- `src/delivery_router.rs` says which delivery an event becomes for which department.
- `src/event_fanout.rs` says that each mailbox of a queue is offered an event once, and no other
  mailbox at all.
- `src/record_text.rs` says which part of a stored text a record is read from.
- `src/dispatch.rs` and `src/retry_state.rs` are the decisions around a run.
- `src/graph_build.rs` puts departments and raisers together.

## What is trusted

The items marked `external_body` and the one `assume_specification` say what redb, serde_json,
serde, base64, tokio, nix and std do. Each names the function that it stands for. They are in `src/tables.rs`,
`src/json.rs`, `src/raised.rs`, `src/event_fanout.rs`, `src/spawner.rs`, `src/dispatch.rs`,
`src/delivery_retry.rs`, `src/delivery_scan.rs`, `src/test_assertions.rs` and `src/text.rs`.
