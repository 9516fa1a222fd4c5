//! The typed command surface of the server: command kinds, request
//! parameters, response payloads, and the error taxonomy.

use vstd::prelude::*;

use crate::bundle::Query;
use crate::cache::CacheStore;

verus! {

/// The five command kinds a client can issue. For `Arrow` and `Json` the
/// wire name doubles as the encoding tag that becomes part of a cache key.
#[derive(Clone, Copy, Debug, PartialEq, Eq, Structural)]
pub enum Command {
    Arrow,
    Exec,
    Json,
    CreateBundle,
    LoadBundle,
}

impl Command {
    /// The wire name of this command kind.
    pub open spec fn tag_spec(self) -> Seq<char> {
        match self {
            Command::Arrow => "arrow"@,
            Command::Exec => "exec"@,
            Command::Json => "json"@,
            Command::CreateBundle => "create-bundle"@,
            Command::LoadBundle => "load-bundle"@,
        }
    }

    /// The wire name of this command kind, as written into cache keys.
    pub fn tag(&self) -> (r: &'static str)
        ensures
            r@ == self.tag_spec(),
    {
        match self {
            Command::Arrow => "arrow",
            Command::Exec => "exec",
            Command::Json => "json",
            Command::CreateBundle => "create-bundle",
            Command::LoadBundle => "load-bundle",
        }
    }
}

/// One decoded command envelope. Which fields must be present depends on the
/// command kind; the dispatcher rejects an envelope whose required fields are
/// missing as a client error rather than failing later.
#[derive(Debug)]
pub struct QueryParams {
    pub query_type: Option<Command>,
    pub persist: Option<bool>,
    pub sql: Option<String>,
    pub name: Option<String>,
    pub queries: Option<Vec<Query>>,
}

impl Default for QueryParams {
    /// An empty envelope: every field absent.
    fn default() -> (r: Self)
        ensures
            r.query_type is None,
            r.persist is None,
            r.sql is None,
            r.name is None,
            r.queries is None,
    {
        QueryParams { query_type: None, persist: None, sql: None, name: None, queries: None }
    }
}

/// A successful response payload: a columnar binary buffer, a row-oriented
/// JSON text, or an empty acknowledgement.
#[derive(Debug, Clone, PartialEq, Eq)]
pub enum QueryResponse {
    Arrow(Vec<u8>),
    Json(String),
    Empty,
}

/// The error taxonomy of the server: a server-side failure carrying a
/// diagnostic message (engine, encoding, or storage trouble), or a client
/// error for a malformed or incomplete command envelope.
#[derive(Debug, Clone, PartialEq, Eq)]
pub enum AppError {
    Error(String),
    BadRequest,
}

impl AppError {
    /// The diagnostic message carried by this error.
    pub open spec fn message_spec(self) -> Seq<char> {
        match self {
            AppError::Error(m) => m@,
            AppError::BadRequest => "Bad request"@,
        }
    }

    /// The diagnostic message carried by this error.
    pub fn message(&self) -> (r: String)
        ensures
            r@ == self.message_spec(),
    {
        match self {
            AppError::Error(m) => m.clone(),
            AppError::BadRequest => "Bad request".to_owned(),
        }
    }
}

/// Adapters from foreign error values into the library's error type. The
/// library defines no implementation itself; callers implement it for the
/// error types of whatever collaborators they bring.
pub trait Error {
    /// The error value this adapter produces.
    spec fn as_app_error_spec(&self) -> AppError;

    fn as_app_error(&self) -> (r: AppError)
        ensures
            r == self.as_app_error_spec(),
    ;
}

/// Turns any adaptable foreign error into the library's error type.
pub fn adapt_anyhow_error<T: Error>(error: T) -> (r: AppError)
    ensures
        r == error.as_app_error_spec(),
{
    error.as_app_error()
}

/// The process-wide server state: the engine gateway and the result cache,
/// constructed once at startup and passed into every request-handling path.
pub struct AppState<D> {
    pub db: D,
    pub cache: CacheStore,
}

} // verus!
