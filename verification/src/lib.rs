//! A query-serving front end for an embedded analytical database engine.
//!
//! The library holds the verified core of the server: derivation of
//! content-addressed cache keys, a bounded least-recently-used result cache,
//! the bundle subsystem that snapshots query results and materialized tables,
//! and the dispatcher that maps typed commands onto those operations.
//! Transport framing, TLS, and the engine bindings live outside, behind the
//! [`db::Database`] capability trait.

pub mod bundle;
pub mod cache;
pub mod db;
pub mod interfaces;
pub mod query;

pub use bundle::{create, load, manifest_to_json, parse_manifest, BundleFile, Manifest, Query};
pub use cache::{get_key, retrieve, CacheStore};
pub use db::{fetch, Database};
pub use interfaces::{adapt_anyhow_error, AppError, AppState, Command, QueryParams, QueryResponse};
pub use query::{complete_exec, complete_fetch, handle, Dispatch};
