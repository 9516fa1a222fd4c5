//! The engine capability surface. The embedded database is a black box that
//! accepts SQL text and yields either nothing, a row-oriented JSON buffer, or
//! a columnar binary buffer; the rest of the library depends only on this
//! trait, so a test double can stand in for the real engine.

use vstd::prelude::*;

use crate::interfaces::{AppError, Command};

verus! {

/// One pooled connection's worth of engine access: run a statement for
/// effect, or run a query and materialize its full result set in one of two
/// encodings. A failure is reported as the engine's diagnostic text, which
/// the library wraps into its own server-error class — an engine failure is
/// never mistaken for a client error. No contract constrains the engine's
/// answers — the execution semantics of the SQL itself are outside the
/// library — so everything proved against this trait holds for every
/// implementation.
pub trait Database {
    /// Runs a statement for side effect only.
    fn execute(&self, sql: &str) -> Result<(), String>;

    /// Runs a query and serializes the result set as row-oriented JSON text
    /// (one object per row), returned as raw bytes.
    fn get_json(&self, sql: &str) -> Result<Vec<u8>, String>;

    /// Runs a query and serializes the result set (schema plus all batches)
    /// as a self-describing columnar binary container.
    fn get_arrow(&self, sql: &str) -> Result<Vec<u8>, String>;
}

/// Asks the engine for the query's result set — the columnar encoding for
/// `Arrow`, the row-oriented one otherwise — and wraps a failure into the
/// server-error class. The bytes are whatever the engine answered; a
/// returned error is always an engine diagnostic, never a client error.
pub fn fetch<D: Database>(db: &D, sql: &str, command: &Command) -> (r: Result<Vec<u8>, AppError>)
    ensures
        r matches Err(e) ==> e matches AppError::Error(_),
{
    let computed = match command {
        Command::Arrow => db.get_arrow(sql),
        _ => db.get_json(sql),
    };
    match computed {
        Ok(bytes) => Ok(bytes),
        Err(message) => Err(AppError::Error(message)),
    }
}

} // verus!
