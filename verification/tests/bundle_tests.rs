use std::cell::RefCell;

use duckdb_server::{
    create, get_key, load, parse_manifest, AppError, BundleFile, CacheStore, Command, Database,
    Query,
};

struct FakeEngine {
    statements: RefCell<Vec<String>>,
    json_calls: RefCell<usize>,
    arrow_calls: RefCell<usize>,
    fail: bool,
}

impl FakeEngine {
    fn new() -> FakeEngine {
        FakeEngine {
            statements: RefCell::new(Vec::new()),
            json_calls: RefCell::new(0),
            arrow_calls: RefCell::new(0),
            fail: false,
        }
    }
}

impl Database for FakeEngine {
    fn execute(&self, sql: &str) -> Result<(), String> {
        if self.fail {
            return Err("engine rejected the statement".to_string());
        }
        self.statements.borrow_mut().push(sql.to_string());
        Ok(())
    }

    fn get_json(&self, _sql: &str) -> Result<Vec<u8>, String> {
        *self.json_calls.borrow_mut() += 1;
        Ok(b"[{\"count\":1}]".to_vec())
    }

    fn get_arrow(&self, _sql: &str) -> Result<Vec<u8>, String> {
        *self.arrow_calls.borrow_mut() += 1;
        Ok(vec![42, 42])
    }
}

fn entry(sql: &str) -> Query {
    Query { sql: sql.to_string(), alias: None }
}

#[test]
fn create_and_load_round_trip() {
    // Create a bundle from a temp table and a query over it, clear the
    // cache, load the bundle back: one cache entry returns, and the table
    // is recreated from its snapshot.
    let db = FakeEngine::new();
    let mut cache = CacheStore::new(10);
    let queries = vec![
        entry("CREATE TEMP TABLE t AS SELECT 1 AS x"),
        entry("SELECT count(*) FROM t"),
    ];

    assert_eq!(cache.len(), 0);
    let (manifest, files) = create(&db, &mut cache, queries, "bundles/default").unwrap();
    assert_eq!(cache.len(), 1);
    assert_eq!(manifest.tables, vec!["t".to_string()]);
    let key = get_key("SELECT count(*) FROM t", &Command::Arrow);
    assert_eq!(manifest.queries, vec![key.clone()]);

    // The engine ran the CREATE and exported the table.
    assert_eq!(
        db.statements.borrow().as_slice(),
        &[
            "CREATE TEMP TABLE t AS SELECT 1 AS x".to_string(),
            "COPY t TO 'bundles/default/t.parquet' (FORMAT PARQUET)".to_string(),
        ]
    );

    // One blob per cached query plus the manifest file.
    assert_eq!(files.len(), 2);
    assert_eq!(files[0].name, key);
    assert_eq!(files[0].data, vec![42, 42]);
    assert_eq!(files[1].name, "bundle.json");

    // Replay: parse the manifest file back and load the blobs.
    cache.clear();
    db.statements.borrow_mut().clear();
    let manifest_text = String::from_utf8(files[1].data.clone()).unwrap();
    let reread = parse_manifest(&manifest_text).unwrap();
    assert_eq!(reread, manifest);
    let blobs: Vec<Vec<u8>> = vec![files[0].data.clone()];
    load(&db, &mut cache, &reread, blobs, "bundles/default").unwrap();
    assert_eq!(cache.len(), 1);
    assert_eq!(cache.get(&key), Some(vec![42, 42]));
    assert_eq!(
        db.statements.borrow().as_slice(),
        &["CREATE TEMP TABLE IF NOT EXISTS t AS SELECT * FROM 'bundles/default/t.parquet'"
            .to_string()]
    );
}

#[test]
fn pragma_and_view_entries_contribute_nothing() {
    let db = FakeEngine::new();
    let mut cache = CacheStore::new(10);
    let queries = vec![
        entry("PRAGMA memory_limit='1GB'"),
        entry("CREATE VIEW v AS SELECT 1"),
        entry("CREATE TEMP VIEW w AS SELECT 2"),
    ];
    let (manifest, files) = create(&db, &mut cache, queries, "bundles/default").unwrap();
    assert!(manifest.tables.is_empty());
    assert!(manifest.queries.is_empty());
    assert_eq!(cache.len(), 0);
    assert!(db.statements.borrow().is_empty());
    // Only the manifest file remains to be written.
    let names: Vec<&str> = files.iter().map(|f: &BundleFile| f.name.as_str()).collect();
    assert_eq!(names, vec!["bundle.json"]);
}

#[test]
fn aliased_entry_exports_the_expression() {
    let db = FakeEngine::new();
    let mut cache = CacheStore::new(10);
    let queries = vec![Query {
        sql: "SELECT x, count(*) FROM t GROUP BY x".to_string(),
        alias: Some("agg".to_string()),
    }];
    let (manifest, _files) = create(&db, &mut cache, queries, "dir").unwrap();
    assert_eq!(manifest.tables, vec!["agg".to_string()]);
    assert!(manifest.queries.is_empty());
    assert_eq!(
        db.statements.borrow().as_slice(),
        &["COPY (SELECT x, count(*) FROM t GROUP BY x) TO 'dir/agg.parquet' (FORMAT PARQUET)"
            .to_string()]
    );
}

#[test]
fn create_table_if_not_exists_names_the_table() {
    let db = FakeEngine::new();
    let mut cache = CacheStore::new(10);
    let queries = vec![entry("CREATE TABLE IF NOT EXISTS flights AS SELECT 1")];
    let (manifest, _) = create(&db, &mut cache, queries, "dir").unwrap();
    assert_eq!(manifest.tables, vec!["flights".to_string()]);
}

#[test]
fn unmatched_create_is_skipped() {
    let db = FakeEngine::new();
    let mut cache = CacheStore::new(10);
    let queries = vec![entry("CREATE SCHEMA analytics")];
    let (manifest, _) = create(&db, &mut cache, queries, "dir").unwrap();
    assert!(manifest.tables.is_empty());
    assert!(manifest.queries.is_empty());
    assert!(db.statements.borrow().is_empty());
}

#[test]
fn describe_queries_use_the_text_encoding() {
    let db = FakeEngine::new();
    let mut cache = CacheStore::new(10);
    let queries = vec![entry("DESCRIBE t")];
    let (manifest, _) = create(&db, &mut cache, queries, "dir").unwrap();
    assert_eq!(manifest.queries, vec![get_key("DESCRIBE t", &Command::Json)]);
    assert_eq!(*db.json_calls.borrow(), 1);
    assert_eq!(*db.arrow_calls.borrow(), 0);
}

#[test]
fn engine_failure_aborts_the_bundle() {
    let mut db = FakeEngine::new();
    db.fail = true;
    let mut cache = CacheStore::new(10);
    let queries = vec![entry("CREATE TABLE t AS SELECT 1"), entry("SELECT 1")];
    // Engine failures land in the server-error class.
    assert!(matches!(
        create(&db, &mut cache, queries, "dir"),
        Err(AppError::Error(_))
    ));
}

#[test]
fn load_puts_every_blob_under_its_key() {
    let db = FakeEngine::new();
    let mut cache = CacheStore::new(10);
    let manifest = duckdb_server::Manifest {
        tables: vec![],
        queries: vec!["k1".to_string(), "k2".to_string()],
    };
    load(&db, &mut cache, &manifest, vec![vec![1], vec![2]], "dir").unwrap();
    assert_eq!(cache.len(), 2);
    assert_eq!(cache.get(&"k1".to_string()), Some(vec![1]));
    assert_eq!(cache.get(&"k2".to_string()), Some(vec![2]));
    assert!(db.statements.borrow().is_empty());
}
