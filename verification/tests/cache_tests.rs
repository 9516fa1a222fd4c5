use std::cell::RefCell;

use duckdb_server::{get_key, retrieve, AppError, CacheStore, Command, Database};

struct FakeEngine {
    statements: RefCell<Vec<String>>,
    json_result: Vec<u8>,
    arrow_result: Vec<u8>,
    calls: RefCell<usize>,
    fail: bool,
}

impl FakeEngine {
    fn new() -> FakeEngine {
        FakeEngine {
            statements: RefCell::new(Vec::new()),
            json_result: b"[{\"foo\":1}]".to_vec(),
            arrow_result: vec![1, 2, 3, 4],
            calls: RefCell::new(0),
            fail: false,
        }
    }
}

impl Database for FakeEngine {
    fn execute(&self, sql: &str) -> Result<(), String> {
        self.statements.borrow_mut().push(sql.to_string());
        if self.fail {
            Err("engine rejected the statement".to_string())
        } else {
            Ok(())
        }
    }

    fn get_json(&self, _sql: &str) -> Result<Vec<u8>, String> {
        *self.calls.borrow_mut() += 1;
        if self.fail {
            Err("engine rejected the query".to_string())
        } else {
            Ok(self.json_result.clone())
        }
    }

    fn get_arrow(&self, _sql: &str) -> Result<Vec<u8>, String> {
        *self.calls.borrow_mut() += 1;
        if self.fail {
            Err("engine rejected the query".to_string())
        } else {
            Ok(self.arrow_result.clone())
        }
    }
}

#[test]
fn key() {
    let key = get_key("SELECT 1", &Command::Arrow);
    assert_eq!(
        key,
        "e004ebd5b5532a4b85984a62f8ad48a81aa3460c1ca07701f386135d72cdecf5.arrow"
    );
}

#[test]
fn key_is_deterministic() {
    let a = get_key("SELECT a FROM b", &Command::Json);
    let b = get_key("SELECT a FROM b", &Command::Json);
    assert_eq!(a, b);
}

#[test]
fn key_differs_across_encodings() {
    let sql = "SELECT a FROM b";
    let arrow = get_key(sql, &Command::Arrow);
    let json = get_key(sql, &Command::Json);
    assert_ne!(arrow, json);
    assert!(arrow.ends_with(".arrow"));
    assert!(json.ends_with(".json"));
}

#[test]
fn key_carries_the_command_tag() {
    let sql = "SELECT 1";
    assert!(get_key(sql, &Command::Exec).ends_with(".exec"));
    assert!(get_key(sql, &Command::CreateBundle).ends_with(".create-bundle"));
    assert!(get_key(sql, &Command::LoadBundle).ends_with(".load-bundle"));
}

#[test]
fn store_put_and_get() {
    let mut cache = CacheStore::new(4);
    assert_eq!(cache.len(), 0);
    cache.put("k1".to_string(), vec![1, 2]);
    assert_eq!(cache.len(), 1);
    assert_eq!(cache.get(&"k1".to_string()), Some(vec![1, 2]));
    assert_eq!(cache.get(&"absent".to_string()), None);
}

#[test]
fn store_update_keeps_one_entry() {
    let mut cache = CacheStore::new(4);
    cache.put("k".to_string(), vec![1]);
    cache.put("k".to_string(), vec![2]);
    assert_eq!(cache.len(), 1);
    assert_eq!(cache.get(&"k".to_string()), Some(vec![2]));
}

#[test]
fn eviction_keeps_exactly_capacity() {
    // Three distinct keys into a two-entry store: the least recently used
    // one is gone, the two most recent stay.
    let mut cache = CacheStore::new(2);
    cache.put("a".to_string(), vec![1]);
    cache.put("b".to_string(), vec![2]);
    cache.put("c".to_string(), vec![3]);
    assert_eq!(cache.len(), 2);
    assert_eq!(cache.get(&"a".to_string()), None);
    assert_eq!(cache.get(&"b".to_string()), Some(vec![2]));
    assert_eq!(cache.get(&"c".to_string()), Some(vec![3]));
}

#[test]
fn get_counts_as_an_access() {
    let mut cache = CacheStore::new(2);
    cache.put("a".to_string(), vec![1]);
    cache.put("b".to_string(), vec![2]);
    // Touch `a`, making `b` the least recently used entry.
    assert_eq!(cache.get(&"a".to_string()), Some(vec![1]));
    cache.put("c".to_string(), vec![3]);
    assert_eq!(cache.get(&"b".to_string()), None);
    assert_eq!(cache.get(&"a".to_string()), Some(vec![1]));
    assert_eq!(cache.get(&"c".to_string()), Some(vec![3]));
}

#[test]
fn clear_empties_the_store() {
    let mut cache = CacheStore::new(2);
    cache.put("a".to_string(), vec![1]);
    cache.clear();
    assert_eq!(cache.len(), 0);
    assert_eq!(cache.get(&"a".to_string()), None);
}

#[test]
fn retrieve_computes_once_when_persisted() {
    let db = FakeEngine::new();
    let mut cache = CacheStore::new(10);
    let first = retrieve(&mut cache, &db, "SELECT 1 AS foo", &Command::Arrow, true).unwrap();
    let second = retrieve(&mut cache, &db, "SELECT 1 AS foo", &Command::Arrow, true).unwrap();
    assert_eq!(first, second);
    assert_eq!(*db.calls.borrow(), 1);
    assert_eq!(cache.len(), 1);
}

#[test]
fn retrieve_without_persist_stores_nothing() {
    let db = FakeEngine::new();
    let mut cache = CacheStore::new(10);
    let first = retrieve(&mut cache, &db, "SELECT 1 AS foo", &Command::Arrow, false).unwrap();
    assert_eq!(first, vec![1, 2, 3, 4]);
    assert_eq!(cache.len(), 0);
    let _ = retrieve(&mut cache, &db, "SELECT 1 AS foo", &Command::Arrow, false).unwrap();
    assert_eq!(*db.calls.borrow(), 2);
}

#[test]
fn retrieve_serves_a_preloaded_entry_without_the_engine() {
    let db = FakeEngine::new();
    let mut cache = CacheStore::new(10);
    let key = get_key("SELECT 2", &Command::Json);
    cache.put(key, b"preloaded".to_vec());
    let got = retrieve(&mut cache, &db, "SELECT 2", &Command::Json, true).unwrap();
    assert_eq!(got, b"preloaded".to_vec());
    assert_eq!(*db.calls.borrow(), 0);
}

#[test]
fn retrieve_failure_stores_nothing() {
    let mut db = FakeEngine::new();
    db.fail = true;
    let mut cache = CacheStore::new(10);
    let r = retrieve(&mut cache, &db, "SELECT 1", &Command::Arrow, true);
    // An engine failure surfaces in the server-error class, never as a
    // client error, and retains nothing.
    assert!(matches!(r, Err(AppError::Error(_))));
    assert_eq!(cache.len(), 0);
}

#[test]
fn key_length_is_fixed_by_the_tag() {
    // 64 hex digits, one dot, then the encoding tag.
    assert_eq!(get_key("SELECT 1", &Command::Arrow).chars().count(), 65 + 5);
    assert_eq!(get_key("SELECT 1", &Command::Json).chars().count(), 65 + 4);
}

#[test]
fn retrieve_uses_the_encoding_to_pick_the_engine_call() {
    let db = FakeEngine::new();
    let mut cache = CacheStore::new(10);
    let json = retrieve(&mut cache, &db, "SELECT 1", &Command::Json, true).unwrap();
    assert_eq!(json, b"[{\"foo\":1}]".to_vec());
    let arrow = retrieve(&mut cache, &db, "SELECT 1", &Command::Arrow, true).unwrap();
    assert_eq!(arrow, vec![1, 2, 3, 4]);
    // The same SQL under two encodings lives under two keys.
    assert_eq!(cache.len(), 2);
}
