use duckdb_server::interfaces::Error;
use duckdb_server::{adapt_anyhow_error, AppError, QueryParams};

struct PortFailure {
    what: String,
}

impl Error for PortFailure {
    fn as_app_error_spec(&self) -> AppError {
        self.as_app_error()
    }

    fn as_app_error(&self) -> AppError {
        AppError::Error(self.what.clone())
    }
}

#[test]
fn adapt_wraps_a_foreign_error() {
    let e = PortFailure { what: "connection pool exhausted".to_string() };
    let adapted = adapt_anyhow_error(e);
    assert_eq!(adapted, AppError::Error("connection pool exhausted".to_string()));
}

#[test]
fn error_messages() {
    assert_eq!(AppError::Error("boom".to_string()).message(), "boom");
    assert_eq!(AppError::BadRequest.message(), "Bad request");
}

#[test]
fn default_params_are_all_absent() {
    let p = QueryParams::default();
    assert!(p.query_type.is_none());
    assert!(p.persist.is_none());
    assert!(p.sql.is_none());
    assert!(p.name.is_none());
    assert!(p.queries.is_none());
}
