//! A supervisor that delivers events from sources to departments: durably where a department wants
//! that, and at most once where it does not.
//!
//! The library holds every decision of the supervisor and none of its input or output. It works on
//! plain values and on transactions of the delivery database; the application around it reads
//! clocks, files and sockets, runs children and Lua code, and performs what is decided here.
//!
//! - Text and data: [`text`], [`cutting`], [`order`], [`sorting`], [`numeral`], [`utf8_text`],
//!   [`paths`], [`glob`], [`digest`], [`json`], [`json_text`], [`duration`], [`event`].
//!   [`text_laws`] and [`glob_laws`] say what holds of texts and patterns.
//! - The delivery store: [`tables`] gives access to the database, [`record_codec`],
//!   [`record_text`] and [`delivery_index`] say what its rows are, [`store_model`] what each operation does to it.
//!   [`delivery_store`], [`delivery_reads`], [`delivery_transition`], [`delivery_scan`] and
//!   [`delivery_migration`] are the operations; [`store_invariant`], [`store_laws`],
//!   [`store_keeping`], [`store_leases`], [`store_redrives`], [`store_history`], [`run_laws`],
//!   [`read_laws`], [`record_laws`] and [`migration_laws`] say what holds of every store that they
//!   make and read. [`delivery_observe`], [`delivery_lineage`] and [`observe_server`] tell what a
//!   store holds; [`observe_laws`] and [`snapshot_laws`] say what holds of what they tell.
//! - Publishing: [`delivery_router`], [`event_fanout`], [`queue_starvation`], [`failure_fact`],
//!   [`fingerprint`], [`raised`]; their laws are [`publish_laws`], [`starvation_laws`] and
//!   [`failure_laws`].
//! - Running departments: [`dispatch`], [`consumer`], [`spawner`], [`delivery_retry`],
//!   [`delivery_types`], [`retry_state`], [`runtime_key`]; their laws are [`dispatch_laws`],
//!   [`child_laws`] and [`retry_laws`].
//! - The graph and its sources: [`config`], [`graph_scan`], [`graph_build`], [`source_runner`],
//!   [`supervise`]; their laws are [`graph_laws`], [`source_laws`] and [`supervise_laws`].
//! - Journals and deployment: [`journal`], [`supervisor_journal`], [`launchd`],
//!   [`restart_authority`]; their laws are [`journal_laws`] and [`launchd_laws`].
//! - Tests of departments: [`test_runner`], [`test_run_cache`], [`test_fire_raiser`],
//!   [`test_department_env`], [`test_assertions`], [`test_commands`]; their laws are
//!   [`harness_laws`].

use vstd::prelude::*;

pub mod child_laws;
pub mod config;
pub mod consumer;
pub mod cutting;
pub mod delivery_index;
pub mod delivery_lineage;
pub mod delivery_migration;
pub mod delivery_observe;
pub mod delivery_reads;
pub mod delivery_retry;
pub mod delivery_router;
pub mod delivery_scan;
pub mod delivery_store;
pub mod delivery_transition;
pub mod delivery_types;
pub mod digest;
pub mod dispatch;
pub mod dispatch_laws;
pub mod duration;
pub mod event;
pub mod event_fanout;
pub mod failure_fact;
pub mod failure_laws;
pub mod fingerprint;
pub mod glob;
pub mod glob_laws;
pub mod graph_build;
pub mod graph_laws;
pub mod graph_scan;
pub mod harness_laws;
pub mod journal;
pub mod journal_laws;
pub mod json;
pub mod json_text;
pub mod launchd;
pub mod launchd_laws;
pub mod migration_laws;
pub mod numeral;
pub mod observe_laws;
pub mod observe_server;
pub mod order;
pub mod paths;
pub mod publish_laws;
pub mod queue_starvation;
pub mod raised;
pub mod read_laws;
pub mod record_codec;
pub mod record_laws;
pub mod record_text;
pub mod restart_authority;
pub mod retry_laws;
pub mod retry_state;
pub mod run_laws;
pub mod runtime_key;
pub mod snapshot_laws;
pub mod sorting;
pub mod source_laws;
pub mod source_runner;
pub mod spawner;
pub mod store_history;
pub mod store_invariant;
pub mod starvation_laws;
pub mod store_keeping;
pub mod store_laws;
pub mod store_leases;
pub mod store_model;
pub mod store_redrives;
pub mod supervise;
pub mod supervise_laws;
pub mod supervisor_journal;
pub mod tables;
pub mod test_assertions;
pub mod test_commands;
pub mod test_department_env;
pub mod test_fire_raiser;
pub mod test_run_cache;
pub mod test_runner;
pub mod text;
pub mod text_laws;
pub mod utf8_text;

verus! {

} // verus!
