//! The request dispatcher: maps one typed command envelope onto the engine
//! gateway, the result cache, or the bundle manager, and builds the
//! response envelope. An envelope that lacks a field its command kind
//! requires is a client error, never a crash.
//!
//! Dispatching is split in two so that the caller can keep engine work
//! outside the cache's exclusion point: [`handle`] validates the envelope
//! and consults the cache, and where engine work is needed it hands back an
//! [`Dispatch::Execute`] or [`Dispatch::Fetch`] instruction; the caller
//! performs that work with no lock held and completes the request through
//! [`complete_exec`] or [`complete_fetch`]. A slow query therefore never
//! blocks unrelated cache reads — and two concurrent misses on one key may
//! both compute, the later insert winning, which is the accepted behavior.

use vstd::prelude::*;
use vstd::string::StringExecFns;

use crate::bundle::Query;
use crate::cache::{cache_cap, cache_entries, get_key, key_spec, lookup, put_model, touch,
    CacheStore};
use crate::db::Database;
use crate::interfaces::{AppError, AppState, Command, QueryParams, QueryResponse};

verus! {

/// What the dispatcher decided: a finished response, a piece of engine work
/// for the caller to run outside the cache exclusion, or a bundle operation
/// for the caller to drive against durable storage.
#[derive(Debug)]
pub enum Dispatch {
    /// The request was served; answer with this payload.
    Respond(QueryResponse),
    /// Run this statement for effect, then finish with [`complete_exec`].
    Execute { sql: String },
    /// The query missed the cache: compute it through [`crate::db::fetch`],
    /// then finish with [`complete_fetch`].
    Fetch { sql: String, command: Command, persist: bool },
    /// Create the named bundle from these entries.
    CreateBundle { name: String, queries: Vec<Query> },
    /// Load the named bundle back.
    LoadBundle { name: String },
}

/// Relies on `String::from_utf8`: succeeds exactly on valid UTF-8 input and
/// decodes it.
#[verifier::external_body]
fn bytes_to_string(bytes: Vec<u8>) -> (r: Option<String>)
    ensures
        r matches Some(s) ==> vstd::utf8::valid_utf8(bytes@) && s@ == vstd::utf8::decode_utf8(
            bytes@,
        ),
        r is None ==> !vstd::utf8::valid_utf8(bytes@),
{
    String::from_utf8(bytes).ok()
}

/// The persistence flag of an envelope: on unless explicitly disabled.
pub open spec fn persist_of(params: QueryParams) -> bool {
    match params.persist {
        Some(b) => b,
        None => true,
    }
}

/// The bundle name of an envelope, with its default.
pub open spec fn bundle_name_of(params: QueryParams) -> Seq<char> {
    match params.name {
        Some(n) => n@,
        None => "default"@,
    }
}

/// Dispatches one command envelope. `exec` and the two fetch kinds require
/// SQL text, `create-bundle` its entry list, `load-bundle` its name; a
/// missing required field is answered with a client error and leaves
/// everything untouched. A fetch that hits the cache is answered at once
/// from the stored bytes; everything that needs the engine or the file
/// system is handed back as an instruction, with the cache unchanged.
pub fn handle<D: Database>(state: &mut AppState<D>, params: QueryParams) -> (r: Result<
    Dispatch,
    AppError,
>)
    ensures
        cache_cap(final(state).cache) == cache_cap(old(state).cache),
        ({
            let e0 = cache_entries(old(state).cache);
            let e1 = cache_entries(final(state).cache);
            match params.query_type {
                None => r == Err::<Dispatch, AppError>(AppError::BadRequest) && e1 == e0,
                Some(Command::Exec) => match params.sql {
                    None => r == Err::<Dispatch, AppError>(AppError::BadRequest) && e1 == e0,
                    Some(sql) => {
                        &&& e1 == e0
                        &&& r matches Ok(d) && d matches Dispatch::Execute { sql: s } && s@
                            == sql@
                    },
                },
                Some(Command::Arrow) => match params.sql {
                    None => r == Err::<Dispatch, AppError>(AppError::BadRequest) && e1 == e0,
                    Some(sql) => {
                        let key = key_spec(sql@, Command::Arrow);
                        match lookup(e0, key) {
                            Some(v) => {
                                &&& r matches Ok(d) && d matches Dispatch::Respond(
                                    QueryResponse::Arrow(b),
                                ) && b@ == v
                                &&& e1 == touch(e0, key)
                            },
                            None => {
                                &&& e1 == e0
                                &&& r matches Ok(d) && d matches Dispatch::Fetch {
                                    sql: s,
                                    command,
                                    persist,
                                } && s@ == sql@ && command == Command::Arrow && persist
                                    == persist_of(params)
                            },
                        }
                    },
                },
                Some(Command::Json) => match params.sql {
                    None => r == Err::<Dispatch, AppError>(AppError::BadRequest) && e1 == e0,
                    Some(sql) => {
                        let key = key_spec(sql@, Command::Json);
                        match lookup(e0, key) {
                            Some(v) => {
                                &&& e1 == touch(e0, key)
                                &&& if vstd::utf8::valid_utf8(v) {
                                    r matches Ok(d) && d matches Dispatch::Respond(
                                        QueryResponse::Json(t),
                                    ) && t@ == vstd::utf8::decode_utf8(v)
                                } else {
                                    r matches Err(e) && e matches AppError::Error(_)
                                }
                            },
                            None => {
                                &&& e1 == e0
                                &&& r matches Ok(d) && d matches Dispatch::Fetch {
                                    sql: s,
                                    command,
                                    persist,
                                } && s@ == sql@ && command == Command::Json && persist
                                    == persist_of(params)
                            },
                        }
                    },
                },
                Some(Command::CreateBundle) => match params.queries {
                    None => r == Err::<Dispatch, AppError>(AppError::BadRequest) && e1 == e0,
                    Some(qs) => {
                        &&& e1 == e0
                        &&& r matches Ok(d) && d matches Dispatch::CreateBundle {
                            name,
                            queries,
                        } && name@ == bundle_name_of(params) && queries@ == qs@
                    },
                },
                Some(Command::LoadBundle) => match params.name {
                    None => r == Err::<Dispatch, AppError>(AppError::BadRequest) && e1 == e0,
                    Some(n) => {
                        &&& e1 == e0
                        &&& r matches Ok(d) && d matches Dispatch::LoadBundle { name } && name@
                            == n@
                    },
                },
            }
        }),
{
    match params.query_type {
        Some(Command::Arrow) => {
            if let Some(sql) = params.sql {
                let persist = match params.persist {
                    Some(b) => b,
                    None => true,
                };
                let key = get_key(sql.as_str(), &Command::Arrow);
                match state.cache.get(&key) {
                    Some(bytes) => Ok(Dispatch::Respond(QueryResponse::Arrow(bytes))),
                    None => Ok(Dispatch::Fetch { sql, command: Command::Arrow, persist }),
                }
            } else {
                Err(AppError::BadRequest)
            }
        },
        Some(Command::Exec) => {
            if let Some(sql) = params.sql {
                Ok(Dispatch::Execute { sql })
            } else {
                Err(AppError::BadRequest)
            }
        },
        Some(Command::Json) => {
            if let Some(sql) = params.sql {
                let persist = match params.persist {
                    Some(b) => b,
                    None => true,
                };
                let key = get_key(sql.as_str(), &Command::Json);
                match state.cache.get(&key) {
                    Some(bytes) => match bytes_to_string(bytes) {
                        Some(text) => Ok(Dispatch::Respond(QueryResponse::Json(text))),
                        None => Err(
                            AppError::Error(String::from_str("query result is not valid UTF-8")),
                        ),
                    },
                    None => Ok(Dispatch::Fetch { sql, command: Command::Json, persist }),
                }
            } else {
                Err(AppError::BadRequest)
            }
        },
        Some(Command::CreateBundle) => {
            if let Some(queries) = params.queries {
                let name = match params.name {
                    Some(n) => n,
                    None => String::from_str("default"),
                };
                Ok(Dispatch::CreateBundle { name, queries })
            } else {
                Err(AppError::BadRequest)
            }
        },
        Some(Command::LoadBundle) => {
            if let Some(name) = params.name {
                Ok(Dispatch::LoadBundle { name })
            } else {
                Err(AppError::BadRequest)
            }
        },
        None => Err(AppError::BadRequest),
    }
}

/// Completes an [`Dispatch::Execute`] instruction from the engine's
/// outcome: an empty success payload, or the engine's diagnostic as a
/// server error — never a client error.
pub fn complete_exec(outcome: Result<(), String>) -> (r: Result<QueryResponse, AppError>)
    ensures
        match outcome {
            Ok(_) => r == Ok::<QueryResponse, AppError>(QueryResponse::Empty),
            Err(m) => r == Err::<QueryResponse, AppError>(AppError::Error(m)),
        },
{
    match outcome {
        Ok(_) => Ok(QueryResponse::Empty),
        Err(message) => Err(AppError::Error(message)),
    }
}

/// Completes a [`Dispatch::Fetch`] instruction from the engine's outcome,
/// which the caller obtained outside the cache exclusion. Computed bytes
/// are retained under the query's key when persistence was asked for —
/// unconditionally, so of two concurrent computations for one key the
/// later insert wins — and answered in the encoding of `command` (the
/// columnar payload as is, the row-oriented one decoded as UTF-8 text). A
/// failed computation is passed through and retains nothing.
pub fn complete_fetch(
    cache: &mut CacheStore,
    sql: &str,
    command: &Command,
    persist: bool,
    outcome: Result<Vec<u8>, AppError>,
) -> (r: Result<QueryResponse, AppError>)
    ensures
        cache_cap(*final(cache)) == cache_cap(*old(cache)),
        ({
            let e0 = cache_entries(*old(cache));
            let e1 = cache_entries(*final(cache));
            let key = key_spec(sql@, *command);
            match outcome {
                Ok(b) => {
                    &&& e1 == (if persist {
                        put_model(e0, cache_cap(*old(cache)), key, b@)
                    } else {
                        e0
                    })
                    &&& match *command {
                        Command::Arrow => r matches Ok(QueryResponse::Arrow(rb)) && rb@ == b@,
                        _ => if vstd::utf8::valid_utf8(b@) {
                            r matches Ok(QueryResponse::Json(t)) && t@ == vstd::utf8::decode_utf8(
                                b@,
                            )
                        } else {
                            r matches Err(e) && e matches AppError::Error(_)
                        },
                    }
                },
                Err(e) => r == Err::<QueryResponse, AppError>(e) && e1 == e0,
            }
        }),
{
    match outcome {
        Ok(bytes) => {
            if persist {
                let key = get_key(sql, command);
                cache.put(key, bytes.clone());
            }
            match command {
                Command::Arrow => Ok(QueryResponse::Arrow(bytes)),
                _ => match bytes_to_string(bytes) {
                    Some(text) => Ok(QueryResponse::Json(text)),
                    None => Err(
                        AppError::Error(String::from_str("query result is not valid UTF-8")),
                    ),
                },
            }
        },
        Err(e) => Err(e),
    }
}

} // verus!
