//! Utilities for running schema migrations against a ClickHouse database.
//!
//! The heart of the crate is the migration reconciliation engine: it takes
//! the raw directory listing of a migrations folder (file names and file
//! contents), fingerprints every recognized script, orders the scripts by
//! name, compares them against the durable applied-migrations ledger, and
//! decides per script whether it must be skipped, applied, or whether the
//! run has to abort because an already-applied script was edited after the
//! fact. All of that decision logic is verified; the surrounding driver
//! that talks to the database performs exactly the plan computed here.
//!
//! The `serde` module holds verified helpers for the map-typed column
//! codec used with ClickHouse `Map(String, String)` columns.

mod error;
mod fingerprint;
mod laws;
mod migration;
pub mod serde;
mod text;

pub use error::ClickhouseUtilsError;
pub use fingerprint::md5_hex;
pub use laws::{
    lemma_drift_halts, lemma_non_migrations_inert, lemma_order_deterministic,
    lemma_rerun_is_noop,
};
pub use migration::{
    build_entry, decide, decision_of, lookup, plan, plan_of, scan, scanned_files,
    skipped_names, sort_by_name, sorted_by_name, ContentDrift, Decision, DriftModel,
    EntryModel, FileModel, LedgerEntry, MigrationFile, Plan, PlanModel,
    ENSURE_LEDGER_TABLE_SQL, FETCH_LEDGER_SQL,
};
pub use text::{is_sql_name, lex_le};
