//! Verified core of the Kobo compiler driver: guard-name allocation, driver
//! errors, ward-syntax preprocessing, Core CFG edge parsing and loop regions,
//! obligation replay, bounded-proof declarations and ecosystem adapter evidence.
use vstd::prelude::*;

pub mod guard;
pub mod strings;
pub mod errors;
pub mod filesystem;
pub mod text;
pub mod ward;
pub mod capability;
pub mod field_views;
pub mod templates;
pub mod invariants;
pub mod events;
pub mod traces;
pub mod replay_risk;
pub mod live_locals;
pub mod await_liveness;
pub mod async_model;
pub mod candidates;
pub mod debt;
pub mod migration;
pub mod borrow_report;
pub mod numbers;
pub mod config;
pub mod cargo_manifest;
pub mod scenario;
pub mod boundaries;
pub mod source_spans;
pub mod core_cfg;
pub mod obligations;
pub mod replay;
pub mod bounded;
pub mod manifest;
pub mod error_policy;
pub mod sourcemap;
pub mod proof_events;
pub mod generated_trace;
pub mod solver_diagnostics;
pub mod evidence;

verus! {
}
