//! The bundle subsystem: classifying a named list of queries, precomputing
//! their results through the cache, and describing the produced snapshot in
//! a manifest that a later load replays.

use vstd::prelude::*;
use vstd::string::{StrSliceExecFns, StringExecFns};

use crate::cache::{
    after_retrieve, blobs_follow, cache_cap, cache_entries, get_key, hex_digit, hex_digit_char,
    key_spec, lemma_put_all_push, lemma_retrieve_all_push, lookup, push_char, put_all, retrieve,
    retrieve_all, CacheStore,
};
use crate::db::Database;
use crate::interfaces::{AppError, Command};

verus! {

/// The views of a vector of strings.
pub open spec fn views_of_strings(v: Seq<String>) -> Seq<Seq<char>> {
    Seq::new(v.len(), |i: int| v[i]@)
}

/// One entry of a bundle-creation request: the SQL text and, optionally, an
/// alias under which its result is materialized as a table snapshot.
#[derive(Debug, Clone)]
pub struct Query {
    pub sql: String,
    pub alias: Option<String>,
}

/// What one bundle entry looks like at the specification level.
pub struct QueryView {
    pub sql: Seq<char>,
    pub alias: Option<Seq<char>>,
}

impl View for Query {
    type V = QueryView;

    open spec fn view(&self) -> QueryView {
        QueryView {
            sql: self.sql@,
            alias: match self.alias {
                Some(a) => Some(a@),
                None => None,
            },
        }
    }
}

/// The durable index of one bundle: the names of the materialized tables
/// and the cache keys of the precomputed query results.
#[derive(Debug, Clone, PartialEq, Eq)]
pub struct Manifest {
    pub tables: Vec<String>,
    pub queries: Vec<String>,
}

/// What a manifest says, at the specification level.
pub struct ManifestView {
    pub tables: Seq<Seq<char>>,
    pub queries: Seq<Seq<char>>,
}

impl View for Manifest {
    type V = ManifestView;

    open spec fn view(&self) -> ManifestView {
        ManifestView {
            tables: views_of_strings(self.tables@),
            queries: views_of_strings(self.queries@),
        }
    }
}

/// One file the caller must write into the bundle directory: its name
/// within the directory and its contents.
#[derive(Debug, Clone, PartialEq, Eq)]
pub struct BundleFile {
    pub name: String,
    pub data: Vec<u8>,
}

// ---------------------------------------------------------------------------
// Statement classification
// ---------------------------------------------------------------------------
//
// Bundle entries are classified by fixed textual pattern matching on the
// statement head — a deliberately narrow heuristic: it makes no attempt to
// survive unusual whitespace, case variation, or multi-statement input.

/// The white-space class the classification patterns use (the Unicode
/// white-space characters).
pub open spec fn is_space(c: char) -> bool {
    ||| c == ' '
    ||| c == '\t'
    ||| c == '\n'
    ||| c == '\r'
    ||| (c as u32) == 0xB
    ||| (c as u32) == 0xC
    ||| (c as u32) == 0x85
    ||| (c as u32) == 0xA0
    ||| (c as u32) == 0x1680
    ||| (0x2000 <= (c as u32) && (c as u32) <= 0x200A)
    ||| (c as u32) == 0x2028
    ||| (c as u32) == 0x2029
    ||| (c as u32) == 0x202F
    ||| (c as u32) == 0x205F
    ||| (c as u32) == 0x3000
}

fn is_space_char(c: char) -> (r: bool)
    ensures
        r == is_space(c),
{
    let u = c as u32;
    u == 0x20 || u == 0x9 || u == 0xA || u == 0xD || u == 0xB || u == 0xC || u == 0x85
        || u == 0xA0 || u == 0x1680 || (0x2000 <= u && u <= 0x200A) || u == 0x2028 || u == 0x2029
        || u == 0x202F || u == 0x205F || u == 0x3000
}

/// Whether `s` begins with the characters of `p`.
pub open spec fn starts_with(s: Seq<char>, p: Seq<char>) -> bool {
    p.len() <= s.len() && s.take(p.len() as int) == p
}

/// Whether the text beginning at `s` starts with the prefix `p`.
fn str_starts_with(s: &str, p: &str) -> (r: bool)
    ensures
        r == starts_with(s@, p@),
{
    let sl = s.unicode_len();
    let pl = p.unicode_len();
    if pl > sl {
        assert(!starts_with(s@, p@));
        return false;
    }
    let mut i: usize = 0;
    while i < pl
        invariant
            i <= pl,
            pl <= sl,
            sl == s@.len(),
            pl == p@.len(),
            forall|j: int| 0 <= j < i ==> s@[j] == p@[j],
        decreases pl - i,
    {
        if s.get_char(i) != p.get_char(i) {
            proof {
                if starts_with(s@, p@) {
                    assert(s@.take(pl as int)[i as int] == s@[i as int]);
                }
            }
            return false;
        }
        i = i + 1;
    }
    proof {
        assert(s@.take(pl as int) =~= p@);
    }
    true
}

/// The end of the run of non-space characters beginning at `i`.
pub open spec fn token_end(s: Seq<char>, i: int) -> int
    decreases s.len() - i,
{
    if i < 0 || i >= s.len() || is_space(s[i]) {
        i
    } else {
        token_end(s, i + 1)
    }
}

/// The name captured after a literal statement head `p`: the maximal run of
/// non-space characters that immediately follows it, required to be
/// non-empty.
pub open spec fn name_after(s: Seq<char>, p: Seq<char>) -> Option<Seq<char>> {
    if starts_with(s, p) && p.len() < s.len() && !is_space(s[p.len() as int]) {
        Some(s.subrange(p.len() as int, token_end(s, p.len() as int)))
    } else {
        None
    }
}

/// A run of non-space characters bounded on the right ends exactly there.
proof fn lemma_token_end_at(s: Seq<char>, start: int, end: int)
    requires
        0 <= start <= end <= s.len(),
        forall|j: int| start <= j < end ==> !is_space(s[j]),
        end == s.len() || is_space(s[end]),
    ensures
        token_end(s, start) == end,
    decreases end - start,
{
    if start < end {
        lemma_token_end_at(s, start + 1, end);
    }
}

/// Extracts the name captured after the statement head `p`, if the text
/// matches that head.
fn name_after_head(sql: &str, p: &str) -> (r: Option<String>)
    ensures
        match name_after(sql@, p@) {
            Some(t) => r matches Some(n) && n@ == t,
            None => r is None,
        },
{
    if !str_starts_with(sql, p) {
        return None;
    }
    let n = sql.unicode_len();
    let pl = p.unicode_len();
    if pl >= n {
        return None;
    }
    if is_space_char(sql.get_char(pl)) {
        return None;
    }
    let mut i: usize = pl;
    let mut out = String::new();
    loop
        invariant
            pl <= i <= n,
            n == sql@.len(),
            pl == p@.len(),
            pl < n,
            out@ == sql@.subrange(pl as int, i as int),
            forall|j: int| pl <= j < i ==> !is_space(sql@[j]),
        ensures
            pl <= i <= n,
            out@ == sql@.subrange(pl as int, i as int),
            forall|j: int| pl <= j < i ==> !is_space(sql@[j]),
            i == n || is_space(sql@[i as int]),
        decreases n - i,
    {
        if i >= n {
            break;
        }
        let c = sql.get_char(i);
        if is_space_char(c) {
            break;
        }
        push_char(&mut out, c);
        proof {
            assert(sql@.subrange(pl as int, i + 1 as int) =~= sql@.subrange(
                pl as int,
                i as int,
            ).push(sql@[i as int]));
        }
        i = i + 1;
    }
    proof {
        lemma_token_end_at(sql@, pl as int, i as int);
    }
    Some(out)
}

/// Whether the statement is shaped like a view definition, temporary or
/// not. Views are transient by design and never snapshotted.
pub open spec fn is_view_stmt(s: Seq<char>) -> bool {
    ||| starts_with(s, "CREATE VIEW"@)
    ||| starts_with(s, "CREATE TEMP VIEW"@)
    ||| starts_with(s, "CREATE TEMPORARY VIEW"@)
}

fn is_view_sql(sql: &str) -> (r: bool)
    ensures
        r == is_view_stmt(sql@),
{
    str_starts_with(sql, "CREATE VIEW") || str_starts_with(sql, "CREATE TEMP VIEW")
        || str_starts_with(sql, "CREATE TEMPORARY VIEW")
}

/// The table name a CREATE TABLE statement materializes, when the statement
/// matches the narrow textual pattern: one of six literal heads — CREATE,
/// optionally TEMP or TEMPORARY, TABLE, optionally IF NOT EXISTS — followed
/// by at least one non-space character. Heads are tried with the longer
/// alternative first, the way a backtracking pattern would.
pub open spec fn spec_table_name(s: Seq<char>) -> Option<Seq<char>> {
    if name_after(s, "CREATE TEMP TABLE IF NOT EXISTS "@) is Some {
        name_after(s, "CREATE TEMP TABLE IF NOT EXISTS "@)
    } else if name_after(s, "CREATE TEMP TABLE "@) is Some {
        name_after(s, "CREATE TEMP TABLE "@)
    } else if name_after(s, "CREATE TEMPORARY TABLE IF NOT EXISTS "@) is Some {
        name_after(s, "CREATE TEMPORARY TABLE IF NOT EXISTS "@)
    } else if name_after(s, "CREATE TEMPORARY TABLE "@) is Some {
        name_after(s, "CREATE TEMPORARY TABLE "@)
    } else if name_after(s, "CREATE TABLE IF NOT EXISTS "@) is Some {
        name_after(s, "CREATE TABLE IF NOT EXISTS "@)
    } else if name_after(s, "CREATE TABLE "@) is Some {
        name_after(s, "CREATE TABLE "@)
    } else {
        None
    }
}

/// Extracts the table name of a CREATE TABLE statement, if the statement
/// matches the pattern [`spec_table_name`] describes.
fn table_name(sql: &str) -> (r: Option<String>)
    ensures
        match spec_table_name(sql@) {
            Some(t) => r matches Some(n) && n@ == t,
            None => r is None,
        },
{
    if let Some(n) = name_after_head(sql, "CREATE TEMP TABLE IF NOT EXISTS ") {
        return Some(n);
    }
    if let Some(n) = name_after_head(sql, "CREATE TEMP TABLE ") {
        return Some(n);
    }
    if let Some(n) = name_after_head(sql, "CREATE TEMPORARY TABLE IF NOT EXISTS ") {
        return Some(n);
    }
    if let Some(n) = name_after_head(sql, "CREATE TEMPORARY TABLE ") {
        return Some(n);
    }
    if let Some(n) = name_after_head(sql, "CREATE TABLE IF NOT EXISTS ") {
        return Some(n);
    }
    if let Some(n) = name_after_head(sql, "CREATE TABLE ") {
        return Some(n);
    }
    None
}

/// How one bundle entry is handled, at the specification level.
pub enum EntryAction {
    /// Snapshot the named table into the bundle directory.
    Table(Seq<char>),
    /// Run the statement through the result cache in this encoding and
    /// persist the bytes as a blob file.
    Cached(Command),
    /// Contribute nothing: views, pragmas, and unrecognized CREATE shapes.
    Skip,
}

/// Classifies one bundle entry. An alias marks a SELECT-shaped expression
/// whose result is exported under the alias; a CREATE is executed and its
/// table snapshotted unless it is a view or does not match the table
/// pattern; a PRAGMA is skipped; anything else is a plain query, cached in
/// the row-oriented encoding for DESCRIBE statements and the columnar one
/// otherwise.
pub open spec fn entry_class(q: QueryView) -> EntryAction {
    match q.alias {
        Some(a) => EntryAction::Table(a),
        None => {
            if starts_with(q.sql, "CREATE "@) {
                if is_view_stmt(q.sql) {
                    EntryAction::Skip
                } else {
                    match spec_table_name(q.sql) {
                        Some(t) => EntryAction::Table(t),
                        None => EntryAction::Skip,
                    }
                }
            } else if starts_with(q.sql, "PRAGMA "@) {
                EntryAction::Skip
            } else {
                EntryAction::Cached(
                    if starts_with(q.sql, "DESCRIBE "@) {
                        Command::Json
                    } else {
                        Command::Arrow
                    },
                )
            }
        },
    }
}

// ---------------------------------------------------------------------------
// The statements and paths a bundle uses
// ---------------------------------------------------------------------------

/// The file a table snapshot lives in: `<dir>/<name>.parquet`.
pub open spec fn parquet_path(dir: Seq<char>, name: Seq<char>) -> Seq<char> {
    dir + "/"@ + name + ".parquet"@
}

/// The statement exporting an aliased query's result set to `path`.
pub open spec fn copy_query_sql(sql: Seq<char>, path: Seq<char>) -> Seq<char> {
    "COPY ("@ + sql + ") TO '"@ + path + "' (FORMAT PARQUET)"@
}

/// The statement exporting a materialized table to `path`.
pub open spec fn copy_table_sql(table: Seq<char>, path: Seq<char>) -> Seq<char> {
    "COPY "@ + table + " TO '"@ + path + "' (FORMAT PARQUET)"@
}

/// The statement recreating a temporary table from its snapshot file.
pub open spec fn load_table_sql(table: Seq<char>, path: Seq<char>) -> Seq<char> {
    "CREATE TEMP TABLE IF NOT EXISTS "@ + table + " AS SELECT * FROM '"@ + path + "'"@
}

fn build_parquet_path(dir: &str, name: &str) -> (r: String)
    ensures
        r@ == parquet_path(dir@, name@),
{
    let mut r = String::from_str(dir);
    r.append("/");
    r.append(name);
    r.append(".parquet");
    proof {
        assert(r@ =~= parquet_path(dir@, name@));
    }
    r
}

fn build_copy_query_sql(sql: &str, path: &str) -> (r: String)
    ensures
        r@ == copy_query_sql(sql@, path@),
{
    let mut r = String::from_str("COPY (");
    r.append(sql);
    r.append(") TO '");
    r.append(path);
    r.append("' (FORMAT PARQUET)");
    proof {
        assert(r@ =~= copy_query_sql(sql@, path@));
    }
    r
}

fn build_copy_table_sql(table: &str, path: &str) -> (r: String)
    ensures
        r@ == copy_table_sql(table@, path@),
{
    let mut r = String::from_str("COPY ");
    r.append(table);
    r.append(" TO '");
    r.append(path);
    r.append("' (FORMAT PARQUET)");
    proof {
        assert(r@ =~= copy_table_sql(table@, path@));
    }
    r
}

fn build_load_table_sql(table: &str, path: &str) -> (r: String)
    ensures
        r@ == load_table_sql(table@, path@),
{
    let mut r = String::from_str("CREATE TEMP TABLE IF NOT EXISTS ");
    r.append(table);
    r.append(" AS SELECT * FROM '");
    r.append(path);
    r.append("'");
    proof {
        assert(r@ =~= load_table_sql(table@, path@));
    }
    r
}

// ---------------------------------------------------------------------------
// The manifest as JSON text
// ---------------------------------------------------------------------------

/// One character, escaped as the manifest's JSON string encoding demands:
/// quotes and backslashes get a backslash, control characters become a
/// four-digit escape, everything else stands as is.
pub open spec fn esc_char(c: char) -> Seq<char> {
    if c == '"' || c == '\\' {
        seq!['\\', c]
    } else if (c as u32) < 0x20 {
        seq![
            '\\',
            'u',
            '0',
            '0',
            hex_digit(((c as u32) / 16) as u8),
            hex_digit(((c as u32) % 16) as u8),
        ]
    } else {
        seq![c]
    }
}

/// The value of a lower-case hex digit; sixteen for any other character.
pub open spec fn hex_val(c: char) -> u8 {
    match c {
        '0' => 0,
        '1' => 1,
        '2' => 2,
        '3' => 3,
        '4' => 4,
        '5' => 5,
        '6' => 6,
        '7' => 7,
        '8' => 8,
        '9' => 9,
        'a' => 10,
        'b' => 11,
        'c' => 12,
        'd' => 13,
        'e' => 14,
        'f' => 15,
        _ => 16,
    }
}

fn hex_val_char(c: char) -> (r: u8)
    ensures
        r == hex_val(c),
{
    match c {
        '0' => 0,
        '1' => 1,
        '2' => 2,
        '3' => 3,
        '4' => 4,
        '5' => 5,
        '6' => 6,
        '7' => 7,
        '8' => 8,
        '9' => 9,
        'a' => 10,
        'b' => 11,
        'c' => 12,
        'd' => 13,
        'e' => 14,
        'f' => 15,
        _ => 16,
    }
}

/// Reading a digit back gives the value it was written from.
proof fn lemma_hex_val_digit(x: u8)
    requires
        x < 16,
    ensures
        hex_val(hex_digit(x)) == x,
{
}

/// A text, escaped for embedding in a JSON string literal.
pub open spec fn json_escape(s: Seq<char>) -> Seq<char>
    decreases s.len(),
{
    if s.len() == 0 {
        Seq::empty()
    } else {
        json_escape(s.drop_last()) + esc_char(s.last())
    }
}

/// A JSON string literal.
pub open spec fn json_string(s: Seq<char>) -> Seq<char> {
    seq!['"'] + json_escape(s) + seq!['"']
}

/// A JSON array body of string literals, comma-separated.
pub open spec fn json_string_list(items: Seq<Seq<char>>) -> Seq<char>
    decreases items.len(),
{
    if items.len() == 0 {
        Seq::empty()
    } else if items.len() == 1 {
        json_string(items[0])
    } else {
        json_string_list(items.drop_last()) + seq![','] + json_string(items.last())
    }
}

/// The manifest, rendered as one JSON object with its table names and its
/// cache keys.
pub open spec fn manifest_json(m: ManifestView) -> Seq<char> {
    "{\"tables\":["@ + json_string_list(m.tables) + "],\"queries\":["@ + json_string_list(
        m.queries,
    ) + "]}"@
}

/// Appends the JSON string literal for `s`.
fn append_json_string(out: &mut String, s: &str)
    ensures
        final(out)@ == old(out)@ + json_string(s@),
{
    push_char(out, '"');
    let n = s.unicode_len();
    let mut i: usize = 0;
    while i < n
        invariant
            i <= n,
            n == s@.len(),
            out@ == old(out)@ + seq!['"'] + json_escape(s@.take(i as int)),
        decreases n - i,
    {
        let c = s.get_char(i);
        if c == '"' || c == '\\' {
            push_char(out, '\\');
            push_char(out, c);
        } else if (c as u32) < 0x20 {
            let v = c as u32;
            push_char(out, '\\');
            push_char(out, 'u');
            push_char(out, '0');
            push_char(out, '0');
            push_char(out, hex_digit_char((v / 16) as u8));
            push_char(out, hex_digit_char((v % 16) as u8));
        } else {
            push_char(out, c);
        }
        proof {
            let t = s@.take(i + 1 as int);
            assert(t.drop_last() =~= s@.take(i as int));
            assert(t.last() == s@[i as int]);
            assert(out@ =~= old(out)@ + seq!['"'] + json_escape(t));
        }
        i = i + 1;
    }
    push_char(out, '"');
    proof {
        assert(s@.take(n as int) =~= s@);
        assert(out@ =~= old(out)@ + json_string(s@));
    }
}

/// Appends the comma-separated JSON string literals for `items`.
fn append_json_string_list(out: &mut String, items: &Vec<String>)
    ensures
        final(out)@ == old(out)@ + json_string_list(views_of_strings(items@)),
{
    let mut i: usize = 0;
    while i < items.len()
        invariant
            i <= items@.len(),
            out@ == old(out)@ + json_string_list(views_of_strings(items@.take(i as int))),
        decreases items@.len() - i,
    {
        if i > 0 {
            push_char(out, ',');
        }
        append_json_string(out, items[i].as_str());
        proof {
            let vs = views_of_strings(items@.take(i + 1 as int));
            assert(vs.drop_last() =~= views_of_strings(items@.take(i as int)));
            assert(vs.last() == items@[i as int]@);
            assert(out@ =~= old(out)@ + json_string_list(vs));
        }
        i = i + 1;
    }
    proof {
        assert(views_of_strings(items@.take(items@.len() as int)) =~= views_of_strings(items@));
    }
}

/// Renders the manifest as the JSON text that is written to `bundle.json`
/// and that [`parse_manifest`] reads back.
pub fn manifest_to_json(m: &Manifest) -> (r: String)
    ensures
        r@ == manifest_json(m@),
{
    let mut r = String::from_str("{\"tables\":[");
    append_json_string_list(&mut r, &m.tables);
    r.append("],\"queries\":[");
    append_json_string_list(&mut r, &m.queries);
    r.append("]}");
    proof {
        assert(r@ =~= manifest_json(m@));
    }
    r
}

// ---------------------------------------------------------------------------
// Reading a manifest back
// ---------------------------------------------------------------------------

/// Whether the characters of `p` stand in `s` at position `i`.
pub open spec fn has_at(s: Seq<char>, i: int, p: Seq<char>) -> bool {
    0 <= i && i + p.len() <= s.len() && s.subrange(i, i + p.len()) == p
}

/// Parses a JSON string literal's body beginning at `i`, just after the
/// opening quote: the decoded content and the position after the closing
/// quote. Only quote and backslash escapes exist in manifest text.
pub open spec fn parse_string_body(s: Seq<char>, i: int) -> Option<(Seq<char>, int)>
    decreases s.len() - i,
{
    if i < 0 || i >= s.len() {
        None
    } else if s[i] == '"' {
        Some((Seq::empty(), i + 1))
    } else if s[i] == '\\' {
        if i + 1 < s.len() && (s[i + 1] == '"' || s[i + 1] == '\\') {
            match parse_string_body(s, i + 2) {
                Some(p) => Some((seq![s[i + 1]] + p.0, p.1)),
                None => None,
            }
        } else if i + 5 < s.len() && s[i + 1] == 'u' && s[i + 2] == '0' && s[i + 3] == '0'
            && hex_val(s[i + 4]) < 16 && hex_val(s[i + 5]) < 16 {
            match parse_string_body(s, i + 6) {
                Some(p) => Some(
                    (seq![((hex_val(s[i + 4]) * 16 + hex_val(s[i + 5])) as u8) as char] + p.0, p.1),
                ),
                None => None,
            }
        } else {
            None
        }
    } else {
        match parse_string_body(s, i + 1) {
            Some(p) => Some((seq![s[i]] + p.0, p.1)),
            None => None,
        }
    }
}

/// A parsed string literal always moves the position forward.
proof fn lemma_psb_advances(s: Seq<char>, i: int)
    ensures
        parse_string_body(s, i) matches Some(p) ==> i < p.1 <= s.len(),
    decreases s.len() - i,
{
    if 0 <= i < s.len() {
        if s[i] == '"' {
        } else if s[i] == '\\' {
            if i + 1 < s.len() && (s[i + 1] == '"' || s[i + 1] == '\\') {
                lemma_psb_advances(s, i + 2);
            } else if i + 5 < s.len() && s[i + 1] == 'u' && s[i + 2] == '0' && s[i + 3] == '0'
                && hex_val(s[i + 4]) < 16 && hex_val(s[i + 5]) < 16 {
                lemma_psb_advances(s, i + 6);
            }
        } else {
            lemma_psb_advances(s, i + 1);
        }
    }
}

/// Parses a non-empty comma-separated run of string literals, consuming the
/// closing bracket: the contents and the position after the bracket.
pub open spec fn parse_items(s: Seq<char>, i: int) -> Option<(Seq<Seq<char>>, int)>
    decreases s.len() - i,
    via parse_items_decreases
{
    if i < 0 || i >= s.len() || s[i] != '"' {
        None
    } else {
        match parse_string_body(s, i + 1) {
            None => None,
            Some(p) => {
                if p.1 < s.len() && s[p.1] == ',' {
                    match parse_items(s, p.1 + 1) {
                        Some(q) => Some((seq![p.0] + q.0, q.1)),
                        None => None,
                    }
                } else if p.1 < s.len() && s[p.1] == ']' {
                    Some((seq![p.0], p.1 + 1))
                } else {
                    None
                }
            },
        }
    }
}

#[via_fn]
proof fn parse_items_decreases(s: Seq<char>, i: int) {
    lemma_psb_advances(s, i + 1);
}

/// Parses a JSON array of string literals whose opening bracket is already
/// consumed: the contents and the position after the closing bracket.
pub open spec fn parse_list(s: Seq<char>, i: int) -> Option<(Seq<Seq<char>>, int)> {
    if 0 <= i < s.len() && s[i] == ']' {
        Some((Seq::empty(), i + 1))
    } else {
        parse_items(s, i)
    }
}

/// Parses a whole manifest: the exact object shape [`manifest_json`]
/// renders, and nothing after it.
pub open spec fn parse_manifest_spec(s: Seq<char>) -> Option<ManifestView> {
    let head = "{\"tables\":["@;
    let mid = ",\"queries\":["@;
    if !has_at(s, 0, head) {
        None
    } else {
        match parse_list(s, head.len() as int) {
            None => None,
            Some(t) => {
                if !has_at(s, t.1, mid) {
                    None
                } else {
                    match parse_list(s, t.1 + mid.len()) {
                        None => None,
                        Some(q) => {
                            if q.1 < s.len() && s[q.1] == '}' && q.1 + 1 == s.len() {
                                Some(ManifestView { tables: t.0, queries: q.0 })
                            } else {
                                None
                            }
                        },
                    }
                }
            },
        }
    }
}

/// Whether the text `p` stands in `s` at character position `i`.
fn has_at_exec(s: &str, i: usize, p: &str) -> (r: bool)
    ensures
        r == has_at(s@, i as int, p@),
{
    let n = s.unicode_len();
    let pl = p.unicode_len();
    if i > n || pl > n - i {
        return false;
    }
    let mut k: usize = 0;
    while k < pl
        invariant
            k <= pl,
            i + pl <= n,
            n == s@.len(),
            pl == p@.len(),
            forall|j: int| 0 <= j < k ==> s@[i + j] == p@[j],
        decreases pl - k,
    {
        if s.get_char(i + k) != p.get_char(k) {
            proof {
                if has_at(s@, i as int, p@) {
                    assert(s@.subrange(i as int, i + pl as int)[k as int] == s@[i + k as int]);
                }
            }
            return false;
        }
        k = k + 1;
    }
    proof {
        assert(s@.subrange(i as int, i + pl as int) =~= p@);
    }
    true
}

/// Parses one string literal's body, mirroring [`parse_string_body`].
fn parse_string_body_exec(s: &str, i0: usize) -> (r: Option<(String, usize)>)
    ensures
        match parse_string_body(s@, i0 as int) {
            Some(p) => r matches Some(rp) && rp.0@ == p.0 && rp.1 == p.1,
            None => r is None,
        },
{
    let n = s.unicode_len();
    let mut out = String::new();
    let mut i: usize = i0;
    loop
        invariant
            i0 <= i <= n || i0 > n,
            i >= i0,
            n == s@.len(),
            ({
                let full = parse_string_body(s@, i0 as int);
                let rest = parse_string_body(s@, i as int);
                &&& (rest matches Some(p) ==> full matches Some(fp) && fp.0 =~= out@ + p.0
                    && fp.1 == p.1)
                &&& (rest is None ==> full is None)
            }),
        decreases n - i,
    {
        if i >= n {
            return None;
        }
        let c = s.get_char(i);
        if c == '"' {
            let r = Some((out, i + 1));
            proof {
                let full = parse_string_body(s@, i0 as int);
                assert(parse_string_body(s@, i as int) == Some((Seq::<char>::empty(), i + 1)));
                assert(full matches Some(fp) && fp.0 =~= out@ + Seq::<char>::empty());
            }
            return r;
        } else if c == '\\' {
            if i + 1 < n {
                let c2 = s.get_char(i + 1);
                if c2 == '"' || c2 == '\\' {
                    push_char(&mut out, c2);
                    proof {
                        let rest = parse_string_body(s@, i as int);
                        let next = parse_string_body(s@, i + 2 as int);
                        match next {
                            Some(p) => {
                                assert(rest matches Some(rp) && rp.0 == seq![s@[i + 1 as int]]
                                    + p.0);
                            },
                            None => {},
                        }
                    }
                    i = i + 2;
                } else if c2 == 'u' && n - i > 5 {
                    let z1 = s.get_char(i + 2);
                    let z2 = s.get_char(i + 3);
                    let h1 = hex_val_char(s.get_char(i + 4));
                    let h2 = hex_val_char(s.get_char(i + 5));
                    if z1 == '0' && z2 == '0' && h1 < 16 && h2 < 16 {
                        let decoded = ((h1 * 16 + h2) as u8) as char;
                        push_char(&mut out, decoded);
                        proof {
                            let rest = parse_string_body(s@, i as int);
                            let next = parse_string_body(s@, i + 6 as int);
                            match next {
                                Some(p) => {
                                    assert(rest matches Some(rp) && rp.0 == seq![decoded] + p.0);
                                },
                                None => {},
                            }
                        }
                        i = i + 6;
                    } else {
                        return None;
                    }
                } else {
                    return None;
                }
            } else {
                return None;
            }
        } else {
            push_char(&mut out, c);
            i = i + 1;
        }
    }
}

/// Parses a run of string literals up to the closing bracket, mirroring
/// [`parse_items`].
fn parse_items_exec(s: &str, i0: usize) -> (r: Option<(Vec<String>, usize)>)
    ensures
        match parse_items(s@, i0 as int) {
            Some(p) => r matches Some(rp) && views_of_strings(rp.0@) == p.0 && rp.1 == p.1,
            None => r is None,
        },
{
    let n = s.unicode_len();
    let mut items: Vec<String> = Vec::new();
    let mut i: usize = i0;
    loop
        invariant
            i >= i0,
            n == s@.len(),
            ({
                let full = parse_items(s@, i0 as int);
                let rest = parse_items(s@, i as int);
                &&& (rest matches Some(p) ==> full matches Some(fp) && fp.0
                    =~= views_of_strings(items@) + p.0 && fp.1 == p.1)
                &&& (rest is None ==> full is None)
            }),
        decreases n - i,
    {
        if i >= n {
            return None;
        }
        let c = s.get_char(i);
        if c != '"' {
            return None;
        }
        match parse_string_body_exec(s, i + 1) {
            None => {
                return None;
            },
            Some((item, j)) => {
                proof {
                    lemma_psb_advances(s@, i + 1 as int);
                }
                if j >= n {
                    return None;
                }
                let d = s.get_char(j);
                if d == ',' {
                    items.push(item);
                    proof {
                        let rest = parse_items(s@, i as int);
                        let next = parse_items(s@, j + 1 as int);
                        match next {
                            Some(q) => {
                                assert(rest matches Some(rp) && rp.0 == seq![item@] + q.0 && rp.1
                                    == q.1);
                                assert(views_of_strings(items@) =~= views_of_strings(
                                    items@.drop_last(),
                                ) + seq![item@]);
                            },
                            None => {},
                        }
                    }
                    i = j + 1;
                } else if d == ']' {
                    items.push(item);
                    let r = Some((items, j + 1));
                    proof {
                        let rest = parse_items(s@, i as int);
                        assert(rest matches Some(rp) && rp.0 == seq![item@] && rp.1 == j + 1);
                        assert(views_of_strings(r.unwrap().0@) =~= views_of_strings(
                            r.unwrap().0@.drop_last(),
                        ) + seq![item@]);
                    }
                    return r;
                } else {
                    return None;
                }
            },
        }
    }
}

/// Parses a JSON array of string literals, mirroring [`parse_list`].
fn parse_list_exec(s: &str, i: usize) -> (r: Option<(Vec<String>, usize)>)
    ensures
        match parse_list(s@, i as int) {
            Some(p) => r matches Some(rp) && views_of_strings(rp.0@) == p.0 && rp.1 == p.1,
            None => r is None,
        },
{
    let n = s.unicode_len();
    if i < n && s.get_char(i) == ']' {
        let empty: Vec<String> = Vec::new();
        proof {
            assert(views_of_strings(empty@) =~= Seq::<Seq<char>>::empty());
        }
        return Some((empty, i + 1));
    }
    parse_items_exec(s, i)
}

/// Reads a manifest back from the JSON text of `bundle.json`. Fails — as a
/// reported error, never a panic — exactly when the text is not a manifest
/// rendering.
pub fn parse_manifest(s: &str) -> (r: Result<Manifest, AppError>)
    ensures
        match parse_manifest_spec(s@) {
            Some(m) => r matches Ok(pm) && pm@ == m,
            None => r is Err,
        },
{
    let n = s.unicode_len();
    if !has_at_exec(s, 0, "{\"tables\":[") {
        return Err(AppError::Error(String::from_str("invalid bundle manifest")));
    }
    let head_len = "{\"tables\":[".unicode_len();
    let tables = parse_list_exec(s, head_len);
    match tables {
        None => Err(AppError::Error(String::from_str("invalid bundle manifest"))),
        Some((tables, t1)) => {
            if !has_at_exec(s, t1, ",\"queries\":[") {
                return Err(AppError::Error(String::from_str("invalid bundle manifest")));
            }
            let mid_len = ",\"queries\":[".unicode_len();
            let queries = parse_list_exec(s, t1 + mid_len);
            match queries {
                None => Err(AppError::Error(String::from_str("invalid bundle manifest"))),
                Some((queries, q1)) => {
                    if q1 < n && s.get_char(q1) == '}' && q1 + 1 == n {
                        Ok(Manifest { tables, queries })
                    } else {
                        Err(AppError::Error(String::from_str("invalid bundle manifest")))
                    }
                },
            }
        },
    }
}

// ---------------------------------------------------------------------------
// Creating a bundle
// ---------------------------------------------------------------------------

/// The views of the entries of a query list.
pub open spec fn views_of(qs: Seq<Query>) -> Seq<QueryView> {
    Seq::new(qs.len(), |i: int| qs[i]@)
}

/// The table names a bundle records, in order: one for each aliased entry
/// and each matched CREATE TABLE entry.
pub open spec fn spec_tables(qs: Seq<QueryView>) -> Seq<Seq<char>>
    decreases qs.len(),
{
    if qs.len() == 0 {
        Seq::empty()
    } else {
        spec_tables(qs.drop_last()) + match entry_class(qs.last()) {
            EntryAction::Table(t) => seq![t],
            _ => Seq::empty(),
        }
    }
}

/// The cache keys a bundle records, in order: one for each plain query
/// entry, derived from its SQL text and its encoding.
pub open spec fn spec_keys(qs: Seq<QueryView>) -> Seq<Seq<char>>
    decreases qs.len(),
{
    if qs.len() == 0 {
        Seq::empty()
    } else {
        spec_keys(qs.drop_last()) + match entry_class(qs.last()) {
            EntryAction::Cached(c) => seq![key_spec(qs.last().sql, c)],
            _ => Seq::empty(),
        }
    }
}

/// Creates a bundle: classifies each entry, executes the table-producing
/// statements against the engine, runs each plain query through the result
/// cache with persistence on, and returns the manifest together with every
/// file the caller must then write into the bundle directory — one blob per
/// cached query, named by its cache key, and the manifest itself as
/// `bundle.json`. A failure aborts the remaining entries. The caller
/// creates the directory beforehand, since the engine writes the table
/// snapshots straight into it.
pub fn create<D: Database>(
    db: &D,
    cache: &mut CacheStore,
    queries: Vec<Query>,
    bundle_dir: &str,
) -> (r: Result<(Manifest, Vec<BundleFile>), AppError>)
    ensures
        cache_cap(*final(cache)) == cache_cap(*old(cache)),
        r matches Ok(out) ==> ({
            let vs = views_of(queries@);
            &&& out.0@.tables == spec_tables(vs)
            &&& out.0@.queries == spec_keys(vs)
            &&& out.1@.len() == spec_keys(vs).len() + 1
            &&& forall|i: int|
                0 <= i < spec_keys(vs).len() ==> #[trigger] out.1@[i].name@ == spec_keys(vs)[i]
            &&& out.1@.last().name@ == "bundle.json"@
            &&& out.1@.last().data@ == vstd::utf8::encode_utf8(manifest_json(out.0@))
            &&& ({
                let ps = Seq::new(
                    spec_keys(vs).len(),
                    |i: int| (spec_keys(vs)[i], out.1@[i].data@),
                );
                &&& cache_entries(*final(cache)) == retrieve_all(
                    cache_entries(*old(cache)),
                    cache_cap(*old(cache)),
                    ps,
                )
                &&& blobs_follow(cache_entries(*old(cache)), cache_cap(*old(cache)), ps)
            })
        }),
        (forall|i: int| 0 <= i < queries@.len() ==> entry_class(#[trigger] queries@[i]@) is Skip)
            ==> r is Ok,
        r matches Err(e) ==> e matches AppError::Error(_),
{
    let mut tables: Vec<String> = Vec::new();
    let mut keys: Vec<String> = Vec::new();
    let mut files: Vec<BundleFile> = Vec::new();
    let mut idx: usize = 0;
    while idx < queries.len()
        invariant
            idx <= queries@.len(),
            cache_cap(*cache) == cache_cap(*old(cache)),
            views_of_strings(tables@) == spec_tables(views_of(queries@.take(idx as int))),
            views_of_strings(keys@) == spec_keys(views_of(queries@.take(idx as int))),
            files@.len() == keys@.len(),
            forall|i: int| 0 <= i < files@.len() ==> #[trigger] files@[i].name@ == keys@[i]@,
            ({
                let ps = Seq::new(files@.len(), |i: int| (keys@[i]@, files@[i].data@));
                &&& cache_entries(*cache) == retrieve_all(
                    cache_entries(*old(cache)),
                    cache_cap(*old(cache)),
                    ps,
                )
                &&& blobs_follow(cache_entries(*old(cache)), cache_cap(*old(cache)), ps)
            }),
        decreases queries@.len() - idx,
    {
        let q = &queries[idx];
        proof {
            let pre = views_of(queries@.take(idx as int));
            let post = views_of(queries@.take(idx as int + 1));
            assert(post.drop_last() =~= pre);
            assert(post.last() == queries@[idx as int]@);
        }
        if let Some(alias) = &q.alias {
            let path = build_parquet_path(bundle_dir, alias.as_str());
            let stmt = build_copy_query_sql(q.sql.as_str(), path.as_str());
            match db.execute(stmt.as_str()) {
                Ok(_) => {},
                Err(message) => {
                    proof {
                        assert(entry_class(queries@[idx as int]@) matches EntryAction::Table(_));
                    }
                    return Err(AppError::Error(message));
                },
            }
            tables.push(alias.clone());
            proof {
                let post = views_of(queries@.take(idx as int + 1));
                assert(views_of_strings(tables@) =~= spec_tables(post));
            }
        } else if str_starts_with(q.sql.as_str(), "CREATE ") {
            if is_view_sql(q.sql.as_str()) {
                // Views are transient by design: contribute nothing.
            } else if let Some(table) = table_name(q.sql.as_str()) {
                match db.execute(q.sql.as_str()) {
                    Ok(_) => {},
                    Err(message) => {
                        proof {
                            assert(entry_class(queries@[idx as int]@) matches EntryAction::Table(
                                _,
                            ));
                        }
                        return Err(AppError::Error(message));
                    },
                }
                let path = build_parquet_path(bundle_dir, table.as_str());
                let stmt = build_copy_table_sql(table.as_str(), path.as_str());
                match db.execute(stmt.as_str()) {
                    Ok(_) => {},
                    Err(message) => {
                        proof {
                            assert(entry_class(queries@[idx as int]@) matches EntryAction::Table(
                                _,
                            ));
                        }
                        return Err(AppError::Error(message));
                    },
                }
                tables.push(table);
                proof {
                    let post = views_of(queries@.take(idx as int + 1));
                    assert(views_of_strings(tables@) =~= spec_tables(post));
                }
            } else {
                // A CREATE that matches neither pattern contributes nothing.
            }
        } else if str_starts_with(q.sql.as_str(), "PRAGMA ") {
            // Pragmas are session settings, not reproducible data.
        } else {
            let command = if str_starts_with(q.sql.as_str(), "DESCRIBE ") {
                Command::Json
            } else {
                Command::Arrow
            };
            let key = get_key(q.sql.as_str(), &command);
            let ghost kv = key@;
            let ghost mid = cache_entries(*cache);
            let ghost ps_pre = Seq::new(files@.len(), |i: int| (keys@[i]@, files@[i].data@));
            let bytes = match retrieve(cache, db, q.sql.as_str(), &command, true) {
                Ok(b) => b,
                Err(e) => {
                    proof {
                        assert(entry_class(queries@[idx as int]@) matches EntryAction::Cached(_));
                    }
                    return Err(e);
                },
            };
            let ghost bv = bytes@;
            files.push(BundleFile { name: key.clone(), data: bytes });
            keys.push(key);
            proof {
                let cap0 = cache_cap(*old(cache));
                let e0 = cache_entries(*old(cache));
                let post = views_of(queries@.take(idx as int + 1));
                assert(views_of_strings(keys@) =~= spec_keys(post));
                let ps_new = Seq::new(files@.len(), |i: int| (keys@[i]@, files@[i].data@));
                assert(ps_new =~= ps_pre.push((kv, bv)));
                lemma_retrieve_all_push(e0, cap0, ps_pre, (kv, bv));
                // What the one get-or-compute call did to the store, by its
                // hit and miss cases.
                assert(cache_entries(*cache) == after_retrieve(mid, cap0, kv, bv));
                assert(match lookup(mid, kv) {
                    Some(v) => bv == v,
                    None => true,
                });
                assert(cache_entries(*cache) == retrieve_all(e0, cap0, ps_new));
                assert(blobs_follow(e0, cap0, ps_new));
            }
        }
        proof {
            let pre = views_of(queries@.take(idx as int));
            let post = views_of(queries@.take(idx as int + 1));
            assert(views_of_strings(tables@) =~= spec_tables(post));
            assert(views_of_strings(keys@) =~= spec_keys(post));
        }
        idx = idx + 1;
    }
    proof {
        assert(views_of(queries@.take(queries@.len() as int)) =~= views_of(queries@));
    }
    let ghost ps_done = Seq::new(files@.len(), |i: int| (keys@[i]@, files@[i].data@));
    let manifest = Manifest { tables, queries: keys };
    let json = manifest_to_json(&manifest);
    let data = json.as_str().as_bytes_vec();
    files.push(BundleFile { name: "bundle.json".to_owned(), data });
    proof {
        let vs = views_of(queries@);
        assert(Seq::new(spec_keys(vs).len(), |i: int| (spec_keys(vs)[i], files@[i].data@))
            =~= ps_done);
    }
    Ok((manifest, files))
}

/// Law: bundle round trip, the cache half. Creating a bundle leaves the
/// cache in `retrieve_all` of its recorded keys and emitted blobs, with
/// those blobs agreeing with the store; replaying the same keys and blobs
/// oldest-first into a cache cleared back to empty — which is exactly what
/// a later load does — rebuilds exactly the store the creation left. The
/// warm cache returns without any recomputation.
pub proof fn lemma_bundle_round_trip(cap: nat, ps: Seq<(Seq<char>, Seq<u8>)>)
    requires
        blobs_follow(Seq::empty(), cap, ps),
    ensures
        put_all(Seq::empty(), cap, ps) == retrieve_all(Seq::empty(), cap, ps),
{
    crate::cache::lemma_retrieves_act_as_inserts(Seq::empty(), cap, ps);
}

// ---------------------------------------------------------------------------
// The manifest round trip
// ---------------------------------------------------------------------------

/// Escaping a text is escaping its first character and then the rest.
proof fn lemma_json_escape_first(s: Seq<char>)
    requires
        s.len() > 0,
    ensures
        json_escape(s) == esc_char(s[0]) + json_escape(s.drop_first()),
    decreases s.len(),
{
    if s.len() == 1 {
        assert(s.drop_last() =~= Seq::<char>::empty());
        assert(s.drop_first() =~= Seq::<char>::empty());
        assert(json_escape(s) =~= esc_char(s[0]) + json_escape(s.drop_first()));
    } else {
        let d = s.drop_last();
        lemma_json_escape_first(d);
        assert(s.drop_first().drop_last() =~= d.drop_first());
        assert(s.drop_first().last() == s.last());
        assert(json_escape(s.drop_first()) == json_escape(d.drop_first()) + esc_char(s.last()));
        assert(json_escape(s) == (esc_char(s[0]) + json_escape(d.drop_first())) + esc_char(
            s.last(),
        ));
        assert((esc_char(s[0]) + json_escape(d.drop_first())) + esc_char(s.last()) =~= esc_char(
            s[0],
        ) + (json_escape(d.drop_first()) + esc_char(s.last())));
    }
}

/// A string literal's escaped body followed by its closing quote parses
/// back to exactly the text that was escaped.
proof fn lemma_parse_escaped(s: Seq<char>, i: int, content: Seq<char>)
    requires
        has_at(s, i, json_escape(content) + seq!['"']),
    ensures
        parse_string_body(s, i) == Some((content, i + json_escape(content).len() + 1)),
    decreases content.len(),
{
    let esc = json_escape(content);
    let pat = esc + seq!['"'];
    assert forall|k: int| 0 <= k < pat.len() implies s[i + k] == pat[k] by {
        assert(s.subrange(i, i + pat.len())[k] == s[i + k]);
    }
    if content.len() == 0 {
        assert(esc =~= Seq::<char>::empty());
        assert(s[i + 0] == pat[0]);
        assert(s[i] == '"');
    } else {
        lemma_json_escape_first(content);
        let c0 = content[0];
        let rest = content.drop_first();
        let esc_rest = json_escape(rest);
        let rest_pat = esc_rest + seq!['"'];
        if c0 == '"' || c0 == '\\' {
            assert(esc == seq!['\\', c0] + esc_rest);
            assert(s[i + 0] == pat[0]);
            assert(s[i] == '\\');
            assert(s[i + 1] == pat[1]);
            assert(s[i + 1] == c0);
            assert(s.subrange(i + 2, i + 2 + rest_pat.len()) =~= rest_pat) by {
                assert forall|k: int| 0 <= k < rest_pat.len() implies s[i + 2 + k] == rest_pat[k]
                    by {
                    assert(pat[k + 2] == rest_pat[k]);
                }
            }
            lemma_parse_escaped(s, i + 2, rest);
            assert(seq![s[i + 1]] + rest =~= content);
        } else if (c0 as u32) < 0x20 {
            let u = c0 as u32;
            let d1 = hex_digit((u / 16) as u8);
            let d2 = hex_digit((u % 16) as u8);
            assert(esc == seq!['\\', 'u', '0', '0', d1, d2] + esc_rest);
            assert(s[i + 0] == pat[0]);
            assert(s[i + 1] == pat[1]);
            assert(s[i + 2] == pat[2]);
            assert(s[i + 3] == pat[3]);
            assert(s[i + 4] == pat[4]);
            assert(s[i + 5] == pat[5]);
            assert(s[i] == '\\' && s[i + 1] == 'u' && s[i + 2] == '0' && s[i + 3] == '0');
            assert(s[i + 4] == d1 && s[i + 5] == d2);
            lemma_hex_val_digit((u / 16) as u8);
            lemma_hex_val_digit((u % 16) as u8);
            assert(hex_val(s[i + 4]) == u / 16 && hex_val(s[i + 5]) == u % 16);
            assert(s.subrange(i + 6, i + 6 + rest_pat.len()) =~= rest_pat) by {
                assert forall|k: int| 0 <= k < rest_pat.len() implies s[i + 6 + k] == rest_pat[k]
                    by {
                    assert(pat[k + 6] == rest_pat[k]);
                }
            }
            lemma_parse_escaped(s, i + 6, rest);
            // The four-digit escape decodes back to the character it was
            // written from.
            let b = (hex_val(s[i + 4]) * 16 + hex_val(s[i + 5])) as u8;
            assert(b == u);
            assert((b as char) == c0) by {
                let cc = b as char;
                assert((cc as u32) == b);
                vstd::utf8::char_u32_cast(cc, cc as u32);
                vstd::utf8::char_u32_cast(c0, c0 as u32);
            }
            assert(seq![(b as char)] + rest =~= content);
        } else {
            assert(esc == seq![c0] + esc_rest);
            assert(s[i + 0] == pat[0]);
            assert(s[i] == c0);
            assert(s.subrange(i + 1, i + 1 + rest_pat.len()) =~= rest_pat) by {
                assert forall|k: int| 0 <= k < rest_pat.len() implies s[i + 1 + k] == rest_pat[k]
                    by {
                    assert(pat[k + 1] == rest_pat[k]);
                }
            }
            lemma_parse_escaped(s, i + 1, rest);
            assert(seq![s[i]] + rest =~= content);
        }
    }
}

/// Rendering a list is rendering its first literal, a comma, and the rest.
proof fn lemma_json_string_list_first(items: Seq<Seq<char>>)
    requires
        items.len() >= 2,
    ensures
        json_string_list(items) == json_string(items[0]) + seq![','] + json_string_list(
            items.drop_first(),
        ),
    decreases items.len(),
{
    if items.len() == 2 {
        assert(items.drop_last() =~= seq![items[0]]);
        assert(items.drop_first() =~= seq![items[1]]);
        assert(json_string_list(seq![items[0]]) == json_string(items[0])) by {
            assert(seq![items[0]][0] == items[0]);
        }
        assert(json_string_list(seq![items[1]]) == json_string(items[1])) by {
            assert(seq![items[1]][0] == items[1]);
        }
        assert(json_string_list(items) == json_string_list(items.drop_last()) + seq![',']
            + json_string(items.last()));
        assert(json_string_list(items) =~= json_string(items[0]) + seq![','] + json_string_list(
            items.drop_first(),
        ));
    } else {
        let d = items.drop_last();
        lemma_json_string_list_first(d);
        assert(items.drop_first().drop_last() =~= d.drop_first());
        assert(items.drop_first().last() == items.last());
        assert(items.drop_first().len() >= 2);
        assert(json_string_list(items.drop_first()) == json_string_list(d.drop_first())
            + seq![','] + json_string(items.last()));
        assert(json_string_list(items) == ((json_string(items[0]) + seq![','] + json_string_list(
            d.drop_first(),
        ))) + seq![','] + json_string(items.last()));
        assert((json_string(items[0]) + seq![','] + json_string_list(d.drop_first())) + seq![',']
            + json_string(items.last()) =~= json_string(items[0]) + seq![','] + (json_string_list(
            d.drop_first(),
        ) + seq![','] + json_string(items.last())));
    }
}

/// A non-empty rendered list followed by its closing bracket parses back to
/// exactly its items.
proof fn lemma_parse_items_of_list(s: Seq<char>, i: int, items: Seq<Seq<char>>)
    requires
        items.len() >= 1,
        has_at(s, i, json_string_list(items) + seq![']']),
    ensures
        parse_items(s, i) == Some((items, i + json_string_list(items).len() + 1)),
    decreases items.len(),
{
    let lst = json_string_list(items);
    let pat = lst + seq![']'];
    assert forall|k: int| 0 <= k < pat.len() implies s[i + k] == pat[k] by {
        assert(s.subrange(i, i + pat.len())[k] == s[i + k]);
    }
    let first = items[0];
    let esc = json_escape(first);
    if items.len() == 1 {
        assert(lst == json_string(first));
        assert(lst[0] == '"');
        assert(s[i + 0] == pat[0]);
        assert(s[i] == '"');
        let body_pat = esc + seq!['"'];
        assert(s.subrange(i + 1, i + 1 + body_pat.len()) =~= body_pat) by {
            assert forall|k: int| 0 <= k < body_pat.len() implies s[i + 1 + k] == body_pat[k] by {
                assert(pat[k + 1] == body_pat[k]);
            }
        }
        lemma_parse_escaped(s, i + 1, first);
        let j = i + 1 + esc.len() + 1;
        assert(s[i + (j - i)] == pat[j - i]);
        assert(s[j] == ']');
        assert(seq![first] =~= items);
    } else {
        lemma_json_string_list_first(items);
        let rest = items.drop_first();
        let rest_lst = json_string_list(rest);
        assert(lst == json_string(first) + seq![','] + rest_lst);
        assert(lst[0] == '"');
        assert(s[i + 0] == pat[0]);
        assert(s[i] == '"');
        let body_pat = esc + seq!['"'];
        assert(s.subrange(i + 1, i + 1 + body_pat.len()) =~= body_pat) by {
            assert forall|k: int| 0 <= k < body_pat.len() implies s[i + 1 + k] == body_pat[k] by {
                assert(pat[k + 1] == body_pat[k]);
            }
        }
        lemma_parse_escaped(s, i + 1, first);
        let j = i + 1 + esc.len() + 1;
        assert(s[i + (j - i)] == pat[j - i]);
        assert(s[j] == ',');
        let rest_pat = rest_lst + seq![']'];
        assert(s.subrange(j + 1, j + 1 + rest_pat.len()) =~= rest_pat) by {
            assert forall|k: int| 0 <= k < rest_pat.len() implies s[j + 1 + k] == rest_pat[k] by {
                assert(pat[k + (j + 1 - i)] == rest_pat[k]);
            }
        }
        lemma_parse_items_of_list(s, j + 1, rest);
        assert(seq![first] + rest =~= items);
    }
}

/// A rendered list followed by its closing bracket parses back to exactly
/// its items.
proof fn lemma_parse_list_of_list(s: Seq<char>, i: int, items: Seq<Seq<char>>)
    requires
        has_at(s, i, json_string_list(items) + seq![']']),
    ensures
        parse_list(s, i) == Some((items, i + json_string_list(items).len() + 1)),
{
    let lst = json_string_list(items);
    let pat = lst + seq![']'];
    assert forall|k: int| 0 <= k < pat.len() implies s[i + k] == pat[k] by {
        assert(s.subrange(i, i + pat.len())[k] == s[i + k]);
    }
    if items.len() == 0 {
        assert(lst =~= Seq::<char>::empty());
        assert(s[i + 0] == pat[0]);
        assert(s[i] == ']');
        assert(Seq::<Seq<char>>::empty() =~= items);
    } else {
        if items.len() == 1 {
            assert(lst == json_string(items[0]));
            assert(lst[0] == '"');
        } else {
            lemma_json_string_list_first(items);
            assert(lst[0] == '"');
        }
        assert(s[i + 0] == pat[0]);
        assert(s[i] == '"');
        lemma_parse_items_of_list(s, i, items);
    }
}

/// Law: bundle manifest round trip. The JSON text [`manifest_to_json`]
/// renders for any manifest parses back — through [`parse_manifest`] — to
/// exactly that manifest, whatever its table names and keys hold.
pub proof fn lemma_manifest_round_trip(m: ManifestView)
    ensures
        parse_manifest_spec(manifest_json(m)) == Some(m),
{
    let head = "{\"tables\":["@;
    let mid = ",\"queries\":["@;
    let sep = "],\"queries\":["@;
    let tail = "]}"@;
    let lt = json_string_list(m.tables);
    let lq = json_string_list(m.queries);
    let s = manifest_json(m);
    reveal_strlit("{\"tables\":[");
    reveal_strlit(",\"queries\":[");
    reveal_strlit("],\"queries\":[");
    reveal_strlit("]}");
    assert(head.len() == 11);
    assert(mid.len() == 12);
    assert(sep.len() == 13);
    assert(tail.len() == 2);
    assert(sep =~= seq![']'] + mid);
    assert(tail =~= seq![']'] + seq!['}']);
    assert(s == head + lt + sep + lq + tail);
    assert(s.len() == head.len() + lt.len() + sep.len() + lq.len() + tail.len());
    // The head stands at the start.
    assert(has_at(s, 0, head)) by {
        assert(s.subrange(0, 11) =~= head);
    }
    let ltl = lt.len() as int;
    let lql = lq.len() as int;
    // The tables list, with its bracket, follows the head.
    assert(has_at(s, 11, lt + seq![']'])) by {
        assert(s.subrange(11, 11 + ltl + 1) =~= lt + seq![']']);
    }
    lemma_parse_list_of_list(s, 11, m.tables);
    let t1: int = 11 + ltl + 1;
    // The separator follows the tables list.
    assert(has_at(s, t1, mid)) by {
        assert(s.subrange(t1, t1 + 12) =~= mid);
    }
    let i2: int = t1 + 12;
    // The queries list, with its bracket, follows the separator.
    assert(has_at(s, i2, lq + seq![']'])) by {
        assert(s.subrange(i2, i2 + lql + 1) =~= lq + seq![']']);
    }
    lemma_parse_list_of_list(s, i2, m.queries);
    let q1: int = i2 + lql + 1;
    assert(s[q1] == '}');
    assert(q1 + 1 == s.len());
    assert(parse_manifest_spec(s) == Some(ManifestView { tables: m.tables, queries: m.queries }));
    assert(ManifestView { tables: m.tables, queries: m.queries } == m);
}

// ---------------------------------------------------------------------------
// Exclusion of pragmas and views
// ---------------------------------------------------------------------------

/// Law: pragma and view exclusion, part one. An unaliased entry whose SQL
/// is a PRAGMA statement or a view definition is classified as
/// contributing nothing.
pub proof fn lemma_pragma_view_skipped(q: QueryView)
    requires
        q.alias is None,
        starts_with(q.sql, "PRAGMA "@) || is_view_stmt(q.sql),
    ensures
        entry_class(q) is Skip,
{
    reveal_strlit("CREATE ");
    reveal_strlit("CREATE VIEW");
    reveal_strlit("CREATE TEMP VIEW");
    reveal_strlit("CREATE TEMPORARY VIEW");
    reveal_strlit("PRAGMA ");
    if is_view_stmt(q.sql) {
        // Every view head begins with the CREATE head, so the CREATE branch
        // is the one taken, and it skips views.
        assert(starts_with(q.sql, "CREATE "@)) by {
            if starts_with(q.sql, "CREATE VIEW"@) {
                assert forall|k: int| 0 <= k < 7 implies q.sql[k] == "CREATE "@[k] by {
                    assert(q.sql.take(11)[k] == q.sql[k]);
                }
                assert(q.sql.take(7) =~= "CREATE "@);
            } else if starts_with(q.sql, "CREATE TEMP VIEW"@) {
                assert forall|k: int| 0 <= k < 7 implies q.sql[k] == "CREATE "@[k] by {
                    assert(q.sql.take(16)[k] == q.sql[k]);
                }
                assert(q.sql.take(7) =~= "CREATE "@);
            } else {
                assert forall|k: int| 0 <= k < 7 implies q.sql[k] == "CREATE "@[k] by {
                    assert(q.sql.take(21)[k] == q.sql[k]);
                }
                assert(q.sql.take(7) =~= "CREATE "@);
            }
        }
    } else {
        // A PRAGMA never carries the CREATE head: the first character
        // already differs.
        assert(q.sql[0] == 'P') by {
            assert(q.sql.take(7)[0] == q.sql[0]);
        }
        assert(!starts_with(q.sql, "CREATE "@)) by {
            if starts_with(q.sql, "CREATE "@) {
                assert(q.sql.take(7)[0] == q.sql[0]);
            }
        }
    }
}

/// Law: pragma and view exclusion, part two. An entry classified as
/// contributing nothing leaves both manifest lists exactly as they would be
/// without it: the manifest records neither a table nor a cache key for it.
pub proof fn lemma_skip_contributes_nothing(qs: Seq<QueryView>, i: int)
    requires
        0 <= i < qs.len(),
        entry_class(qs[i]) is Skip,
    ensures
        spec_tables(qs) == spec_tables(qs.remove(i)),
        spec_keys(qs) == spec_keys(qs.remove(i)),
    decreases qs.len(),
{
    if i == qs.len() - 1 {
        assert(qs.remove(i) =~= qs.drop_last());
        assert(spec_tables(qs) =~= spec_tables(qs.drop_last()));
        assert(spec_keys(qs) =~= spec_keys(qs.drop_last()));
    } else {
        lemma_skip_contributes_nothing(qs.drop_last(), i);
        assert(qs.remove(i).drop_last() =~= qs.drop_last().remove(i));
        assert(qs.remove(i).last() == qs.last());
        assert(qs.remove(i).len() > 0);
    }
}

// ---------------------------------------------------------------------------
// Loading a bundle
// ---------------------------------------------------------------------------

/// The (key, payload) pairs a load inserts, in manifest order.
pub open spec fn load_pairs(keys: Seq<Seq<char>>, blobs: Seq<Vec<u8>>) -> Seq<
    (Seq<char>, Seq<u8>),
> {
    Seq::new(keys.len(), |i: int| (keys[i], blobs[i]@))
}

/// Loads a bundle back: inserts every recorded blob into the result cache
/// under its recorded key — a pure insert, bypassing recomputation — and
/// then asks the engine to recreate each recorded table as a temporary
/// table read from its snapshot file. The caller reads the manifest and the
/// blob files beforehand and hands the blobs in aligned with the manifest's
/// key list. The cache is reloaded in full before any table work, so it is
/// warm even when a table recreation fails.
pub fn load<D: Database>(
    db: &D,
    cache: &mut CacheStore,
    manifest: &Manifest,
    blobs: Vec<Vec<u8>>,
    bundle_dir: &str,
) -> (r: Result<(), AppError>)
    requires
        blobs@.len() == manifest.queries@.len(),
    ensures
        cache_cap(*final(cache)) == cache_cap(*old(cache)),
        cache_entries(*final(cache)) == put_all(
            cache_entries(*old(cache)),
            cache_cap(*old(cache)),
            load_pairs(manifest@.queries, blobs@),
        ),
        manifest.tables@.len() == 0 ==> r is Ok,
        r matches Err(e) ==> e matches AppError::Error(_),
{
    let mut i: usize = 0;
    while i < manifest.queries.len()
        invariant
            i <= manifest.queries@.len(),
            blobs@.len() == manifest.queries@.len(),
            cache_cap(*cache) == cache_cap(*old(cache)),
            cache_entries(*cache) == put_all(
                cache_entries(*old(cache)),
                cache_cap(*old(cache)),
                load_pairs(manifest@.queries, blobs@).take(i as int),
            ),
        decreases manifest.queries@.len() - i,
    {
        let key = manifest.queries[i].clone();
        let data = vstd::slice::slice_to_vec(blobs[i].as_slice());
        cache.put(key, data);
        proof {
            let ps = load_pairs(manifest@.queries, blobs@);
            assert(ps.take(i as int + 1) =~= ps.take(i as int).push(ps[i as int]));
            lemma_put_all_push(
                cache_entries(*old(cache)),
                cache_cap(*old(cache)),
                ps.take(i as int),
                ps[i as int],
            );
        }
        i = i + 1;
    }
    proof {
        let ps = load_pairs(manifest@.queries, blobs@);
        assert(ps.take(ps.len() as int) =~= ps);
    }
    let mut t: usize = 0;
    while t < manifest.tables.len()
        invariant
            cache_cap(*cache) == cache_cap(*old(cache)),
            cache_entries(*cache) == put_all(
                cache_entries(*old(cache)),
                cache_cap(*old(cache)),
                load_pairs(manifest@.queries, blobs@),
            ),
        decreases manifest.tables@.len() - t,
    {
        let path = build_parquet_path(bundle_dir, manifest.tables[t].as_str());
        let stmt = build_load_table_sql(manifest.tables[t].as_str(), path.as_str());
        match db.execute(stmt.as_str()) {
            Ok(_) => {},
            Err(message) => {
                return Err(AppError::Error(message));
            },
        }
        t = t + 1;
    }
    Ok(())
}

} // verus!
