use std::cell::RefCell;

use duckdb_server::{
    complete_exec, complete_fetch, fetch, handle, AppError, AppState, CacheStore, Command,
    Database, Dispatch, Query, QueryParams, QueryResponse,
};

struct FakeEngine {
    statements: RefCell<Vec<String>>,
    json_result: Vec<u8>,
    arrow_result: Vec<u8>,
    calls: RefCell<usize>,
    fail: bool,
}

impl FakeEngine {
    fn new() -> FakeEngine {
        FakeEngine {
            statements: RefCell::new(Vec::new()),
            json_result: b"[{\"foo\":1}]".to_vec(),
            arrow_result: vec![9, 8, 7],
            calls: RefCell::new(0),
            fail: false,
        }
    }

    fn state(self) -> AppState<FakeEngine> {
        AppState { db: self, cache: CacheStore::new(10) }
    }
}

impl Database for FakeEngine {
    fn execute(&self, sql: &str) -> Result<(), String> {
        if self.fail {
            return Err("engine rejected the statement".to_string());
        }
        self.statements.borrow_mut().push(sql.to_string());
        Ok(())
    }

    fn get_json(&self, _sql: &str) -> Result<Vec<u8>, String> {
        *self.calls.borrow_mut() += 1;
        if self.fail {
            return Err("engine rejected the query".to_string());
        }
        Ok(self.json_result.clone())
    }

    fn get_arrow(&self, _sql: &str) -> Result<Vec<u8>, String> {
        *self.calls.borrow_mut() += 1;
        if self.fail {
            return Err("engine rejected the query".to_string());
        }
        Ok(self.arrow_result.clone())
    }
}

fn params(query_type: Option<Command>, sql: Option<&str>) -> QueryParams {
    QueryParams {
        query_type,
        sql: sql.map(|s| s.to_string()),
        ..QueryParams::default()
    }
}

/// Drives one request to completion the way the server shell does: the
/// dispatcher decides, engine work runs outside the cache, the completion
/// functions finish.
fn run(state: &mut AppState<FakeEngine>, p: QueryParams) -> Result<QueryResponse, AppError> {
    match handle(state, p)? {
        Dispatch::Respond(response) => Ok(response),
        Dispatch::Execute { sql } => complete_exec(state.db.execute(&sql)),
        Dispatch::Fetch { sql, command, persist } => {
            let outcome = fetch(&state.db, &sql, &command);
            complete_fetch(&mut state.cache, &sql, &command, persist, outcome)
        },
        other => panic!("bundle dispatch where none was asked for: {:?}", other),
    }
}

#[test]
fn fetch_rows_yields_the_text_payload() {
    let mut state = FakeEngine::new().state();
    let r = run(&mut state, params(Some(Command::Json), Some("SELECT 1 AS foo")));
    match r {
        Ok(QueryResponse::Json(text)) => assert_eq!(text, "[{\"foo\":1}]"),
        other => panic!("unexpected response: {:?}", other),
    }
}

#[test]
fn fetch_columnar_yields_the_binary_payload() {
    let mut state = FakeEngine::new().state();
    let r = run(&mut state, params(Some(Command::Arrow), Some("SELECT 1 AS foo")));
    match r {
        Ok(QueryResponse::Arrow(bytes)) => assert_eq!(bytes, vec![9, 8, 7]),
        other => panic!("unexpected response: {:?}", other),
    }
}

#[test]
fn a_cold_fetch_is_handed_out_as_an_instruction() {
    // The dispatcher answers a miss with a fetch instruction and an
    // untouched cache, so the engine work can run outside the exclusion.
    let mut state = FakeEngine::new().state();
    match handle(&mut state, params(Some(Command::Arrow), Some("SELECT 1"))) {
        Ok(Dispatch::Fetch { sql, command, persist }) => {
            assert_eq!(sql, "SELECT 1");
            assert!(matches!(command, Command::Arrow));
            assert!(persist);
        },
        other => panic!("unexpected dispatch: {:?}", other),
    }
    assert_eq!(state.cache.len(), 0);
    assert_eq!(*state.db.calls.borrow(), 0);
}

#[test]
fn exec_without_sql_is_a_client_error() {
    let mut state = FakeEngine::new().state();
    let r = handle(&mut state, params(Some(Command::Exec), None));
    assert!(matches!(r, Err(AppError::BadRequest)));
}

#[test]
fn exec_runs_the_statement_and_answers_empty() {
    let mut state = FakeEngine::new().state();
    let r = run(&mut state, params(Some(Command::Exec), Some("CREATE TABLE t (x INT)")));
    assert!(matches!(r, Ok(QueryResponse::Empty)));
    assert_eq!(
        state.db.statements.borrow().as_slice(),
        &["CREATE TABLE t (x INT)".to_string()]
    );
}

#[test]
fn engine_failures_are_server_errors_not_client_errors() {
    let mut engine = FakeEngine::new();
    engine.fail = true;
    let mut state = engine.state();
    let exec = run(&mut state, params(Some(Command::Exec), Some("CREATE TABLE t (x INT)")));
    assert!(matches!(exec, Err(AppError::Error(_))));
    let fetch_rows = run(&mut state, params(Some(Command::Json), Some("SELECT 1")));
    assert!(matches!(fetch_rows, Err(AppError::Error(_))));
    // A failed computation retains nothing.
    assert_eq!(state.cache.len(), 0);
}

#[test]
fn missing_command_kind_is_a_client_error() {
    let mut state = FakeEngine::new().state();
    let r = handle(&mut state, params(None, Some("SELECT 1")));
    assert!(matches!(r, Err(AppError::BadRequest)));
}

#[test]
fn fetch_without_sql_is_a_client_error() {
    let mut state = FakeEngine::new().state();
    assert!(matches!(
        handle(&mut state, params(Some(Command::Arrow), None)),
        Err(AppError::BadRequest)
    ));
    assert!(matches!(
        handle(&mut state, params(Some(Command::Json), None)),
        Err(AppError::BadRequest)
    ));
}

#[test]
fn repeated_fetch_hits_the_cache() {
    let mut state = FakeEngine::new().state();
    let first = run(&mut state, params(Some(Command::Json), Some("SELECT 1 AS foo")));
    // The second request is answered straight from the cache.
    let second = handle(&mut state, params(Some(Command::Json), Some("SELECT 1 AS foo")));
    assert_eq!(*state.db.calls.borrow(), 1);
    match (first, second) {
        (Ok(QueryResponse::Json(a)), Ok(Dispatch::Respond(QueryResponse::Json(b)))) => {
            assert_eq!(a, b)
        },
        other => panic!("unexpected outcomes: {:?}", other),
    }
}

#[test]
fn persist_off_leaves_the_cache_cold() {
    let mut state = FakeEngine::new().state();
    let mut p = params(Some(Command::Arrow), Some("SELECT 1"));
    p.persist = Some(false);
    let _ = run(&mut state, p).unwrap();
    assert_eq!(state.cache.len(), 0);
}

#[test]
fn json_result_that_is_not_utf8_is_an_error() {
    let mut engine = FakeEngine::new();
    engine.json_result = vec![0xff, 0xfe];
    let mut state = engine.state();
    let r = run(&mut state, params(Some(Command::Json), Some("SELECT 1")));
    assert!(matches!(r, Err(AppError::Error(_))));
    // The bytes were computed and retained before the conversion failed.
    assert_eq!(state.cache.len(), 1);
}

#[test]
fn create_bundle_routes_with_the_default_name() {
    let mut state = FakeEngine::new().state();
    let p = QueryParams {
        query_type: Some(Command::CreateBundle),
        queries: Some(vec![Query { sql: "SELECT 1".to_string(), alias: None }]),
        ..QueryParams::default()
    };
    match handle(&mut state, p) {
        Ok(Dispatch::CreateBundle { name, queries }) => {
            assert_eq!(name, "default");
            assert_eq!(queries.len(), 1);
            assert_eq!(queries[0].sql, "SELECT 1");
        },
        other => panic!("unexpected dispatch: {:?}", other),
    }
}

#[test]
fn create_bundle_without_queries_is_a_client_error() {
    let mut state = FakeEngine::new().state();
    let p = QueryParams {
        query_type: Some(Command::CreateBundle),
        name: Some("warm".to_string()),
        ..QueryParams::default()
    };
    assert!(matches!(handle(&mut state, p), Err(AppError::BadRequest)));
}

#[test]
fn load_bundle_routes_by_name() {
    let mut state = FakeEngine::new().state();
    let p = QueryParams {
        query_type: Some(Command::LoadBundle),
        name: Some("warm".to_string()),
        ..QueryParams::default()
    };
    match handle(&mut state, p) {
        Ok(Dispatch::LoadBundle { name }) => assert_eq!(name, "warm"),
        other => panic!("unexpected dispatch: {:?}", other),
    }
}

#[test]
fn load_bundle_without_name_is_a_client_error() {
    let mut state = FakeEngine::new().state();
    let p = QueryParams { query_type: Some(Command::LoadBundle), ..QueryParams::default() };
    assert!(matches!(handle(&mut state, p), Err(AppError::BadRequest)));
}
