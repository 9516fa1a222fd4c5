use duckdb_server::{parse_manifest, Manifest};

fn manifest(tables: &[&str], queries: &[&str]) -> Manifest {
    Manifest {
        tables: tables.iter().map(|s| s.to_string()).collect(),
        queries: queries.iter().map(|s| s.to_string()).collect(),
    }
}

#[test]
fn empty_manifest_renders_exactly() {
    let m = manifest(&[], &[]);
    let json = duckdb_server::bundle::manifest_to_json(&m);
    assert_eq!(json, "{\"tables\":[],\"queries\":[]}");
}

#[test]
fn manifest_round_trips() {
    let m = manifest(&["flights", "airports"], &["abc.arrow", "def.json"]);
    let json = duckdb_server::bundle::manifest_to_json(&m);
    let back = parse_manifest(&json).unwrap();
    assert_eq!(back, m);
}

#[test]
fn manifest_round_trips_with_escapes() {
    let m = manifest(&["odd\"name", "back\\slash"], &[]);
    let json = duckdb_server::bundle::manifest_to_json(&m);
    let back = parse_manifest(&json).unwrap();
    assert_eq!(back, m);
}

#[test]
fn manifest_round_trips_with_control_characters() {
    let m = manifest(&["line\nbreak", "tab\tname", "nul\u{0}end"], &[]);
    let json = duckdb_server::bundle::manifest_to_json(&m);
    // Control characters are written as four-digit escapes, keeping the
    // text plain JSON.
    assert!(json.contains("\\u000a"));
    assert!(json.contains("\\u0009"));
    assert!(json.contains("\\u0000"));
    let back = parse_manifest(&json).unwrap();
    assert_eq!(back, m);
    let v: serde_json::Value = serde_json::from_str(&json).unwrap();
    assert_eq!(v["tables"][0].as_str().unwrap(), "line\nbreak");
}

#[test]
fn manifest_json_is_real_json() {
    // The rendered text must satisfy a full JSON parser, escapes included.
    let m = manifest(&["odd\"name", "back\\slash"], &["k1"]);
    let json = duckdb_server::bundle::manifest_to_json(&m);
    let v: serde_json::Value = serde_json::from_str(&json).unwrap();
    assert_eq!(v["tables"][0].as_str().unwrap(), "odd\"name");
    assert_eq!(v["tables"][1].as_str().unwrap(), "back\\slash");
    assert_eq!(v["queries"][0].as_str().unwrap(), "k1");
}

#[test]
fn parse_rejects_garbage() {
    assert!(parse_manifest("not a manifest").is_err());
    assert!(parse_manifest("").is_err());
    assert!(parse_manifest("{\"tables\":[],\"queries\":[]").is_err());
    assert!(parse_manifest("{\"tables\":[],\"queries\":[]}trailing").is_err());
    assert!(parse_manifest("{\"tables\":[1],\"queries\":[]}").is_err());
}

#[test]
fn parse_reads_single_item_lists() {
    let back = parse_manifest("{\"tables\":[\"t\"],\"queries\":[\"k\"]}").unwrap();
    assert_eq!(back, manifest(&["t"], &["k"]));
}
