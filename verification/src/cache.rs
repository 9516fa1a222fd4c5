//! The content-addressed result cache: key derivation from SQL text and
//! encoding tag, a bounded least-recently-used store, and get-or-compute
//! retrieval on top of the engine gateway.

use std::num::NonZeroUsize;

use sha2::{Digest, Sha256};
use vstd::prelude::*;
use vstd::string::StringExecFns;
use vstd::string::StringSliceAdditionalSpecFns;

use crate::db::{fetch, Database};
use crate::interfaces::{AppError, Command};

verus! {

// ---------------------------------------------------------------------------
// Cache keys
// ---------------------------------------------------------------------------

/// The SHA-256 digest of a byte string. The digest is a pure function of its
/// input, so it can be named here; nothing else is assumed about it.
pub uninterp spec fn sha256_of(bytes: Seq<u8>) -> Seq<u8>;

/// Relies on `sha2::Sha256` through `Digest::digest`: the digest depends on
/// the input bytes alone and is always 32 bytes long.
#[verifier::external_body]
fn sha256(data: &[u8]) -> (r: Vec<u8>)
    ensures
        r@ == sha256_of(data@),
        r@.len() == 32,
{
    Sha256::digest(data).to_vec()
}

/// The lower-case hex digit for one value below sixteen.
pub open spec fn hex_digit(n: u8) -> char {
    match n {
        0 => '0',
        1 => '1',
        2 => '2',
        3 => '3',
        4 => '4',
        5 => '5',
        6 => '6',
        7 => '7',
        8 => '8',
        9 => '9',
        10 => 'a',
        11 => 'b',
        12 => 'c',
        13 => 'd',
        14 => 'e',
        _ => 'f',
    }
}

/// The lower-case hex rendering of a byte string, two digits per byte.
pub open spec fn hex_of(bytes: Seq<u8>) -> Seq<char>
    decreases bytes.len(),
{
    if bytes.len() == 0 {
        Seq::empty()
    } else {
        hex_of(bytes.drop_last()) + seq![
            hex_digit(bytes.last() / 16),
            hex_digit(bytes.last() % 16),
        ]
    }
}

/// The hex rendering is two characters per byte.
pub proof fn lemma_hex_of_len(bytes: Seq<u8>)
    ensures
        hex_of(bytes).len() == 2 * bytes.len(),
    decreases bytes.len(),
{
    if bytes.len() > 0 {
        lemma_hex_of_len(bytes.drop_last());
    }
}

pub(crate) fn hex_digit_char(n: u8) -> (c: char)
    requires
        n < 16,
    ensures
        c == hex_digit(n),
{
    match n {
        0 => '0',
        1 => '1',
        2 => '2',
        3 => '3',
        4 => '4',
        5 => '5',
        6 => '6',
        7 => '7',
        8 => '8',
        9 => '9',
        10 => 'a',
        11 => 'b',
        12 => 'c',
        13 => 'd',
        14 => 'e',
        _ => 'f',
    }
}

/// Relies on `String::push`: appends the one character at the end.
#[verifier::external_body]
pub(crate) fn push_char(s: &mut String, c: char)
    ensures
        final(s)@ == old(s)@.push(c),
{
    s.push(c);
}

/// Renders a byte string as lower-case hex text.
fn to_hex(bytes: &Vec<u8>) -> (r: String)
    ensures
        r@ == hex_of(bytes@),
{
    let mut r = String::new();
    let mut i: usize = 0;
    while i < bytes.len()
        invariant
            i <= bytes@.len(),
            r@ == hex_of(bytes@.take(i as int)),
        decreases bytes@.len() - i,
    {
        let b = bytes[i];
        push_char(&mut r, hex_digit_char(b / 16));
        push_char(&mut r, hex_digit_char(b % 16));
        proof {
            let t = bytes@.take(i + 1 as int);
            assert(t.drop_last() =~= bytes@.take(i as int));
            assert(t.last() == bytes@[i as int]);
            assert(r@ =~= hex_of(t));
        }
        i = i + 1;
    }
    proof {
        assert(bytes@.take(bytes@.len() as int) =~= bytes@);
    }
    r
}

/// The cache key for one (SQL, encoding) pair: the lower-case hex SHA-256
/// digest of the SQL text's UTF-8 bytes, then a dot, then the encoding tag.
/// The key is stable across processes, so it can double as a file name
/// inside bundle directories.
pub open spec fn key_spec(sql: Seq<char>, command: Command) -> Seq<char> {
    hex_of(sha256_of(vstd::utf8::encode_utf8(sql))) + "."@ + command.tag_spec()
}

/// Derives the content-addressed cache key for `sql` requested in the
/// encoding of `command`.
pub fn get_key(sql: &str, command: &Command) -> (r: String)
    ensures
        r@ == key_spec(sql@, *command),
        r@.len() == 65 + command.tag_spec().len(),
{
    let digest = sha256(sql.as_bytes());
    let mut r = to_hex(&digest);
    r.append(".");
    r.append(command.tag());
    proof {
        reveal_strlit(".");
        lemma_hex_of_len(digest@);
        assert(r@ =~= key_spec(sql@, *command));
    }
    r
}

/// Law: cache key determinism. `key_spec` is a function of the SQL text and
/// the encoding alone — repeated calls of [`get_key`] on one pair therefore
/// return identical keys — and with the SQL text fixed, different command
/// kinds always yield different keys, so the two encodings of one query
/// never collide in the cache.
pub proof fn lemma_key_distinguishes_encodings(sql: Seq<char>, c1: Command, c2: Command)
    requires
        c1 != c2,
    ensures
        key_spec(sql, c1) != key_spec(sql, c2),
{
    lemma_tags_distinct(c1, c2);
    let h = hex_of(sha256_of(vstd::utf8::encode_utf8(sql))) + "."@;
    let t1 = c1.tag_spec();
    let t2 = c2.tag_spec();
    assert(key_spec(sql, c1) == h + t1);
    assert(key_spec(sql, c2) == h + t2);
    if h + t1 == h + t2 {
        assert(t1.len() == t2.len());
        assert forall|i: int| 0 <= i < t1.len() implies t1[i] == t2[i] by {
            assert((h + t1)[h.len() + i] == t1[i]);
            assert((h + t2)[h.len() + i] == t2[i]);
        }
        assert(t1 =~= t2);
    }
}

/// The five wire names are pairwise distinct.
proof fn lemma_tags_distinct(c1: Command, c2: Command)
    requires
        c1 != c2,
    ensures
        c1.tag_spec() != c2.tag_spec(),
{
    reveal_strlit("arrow");
    reveal_strlit("exec");
    reveal_strlit("json");
    reveal_strlit("create-bundle");
    reveal_strlit("load-bundle");
    assert("arrow"@.len() == 5);
    assert("exec"@.len() == 4);
    assert("json"@.len() == 4);
    assert("create-bundle"@.len() == 13);
    assert("load-bundle"@.len() == 11);
    assert("exec"@[0] == 'e');
    assert("json"@[0] == 'j');
}

// ---------------------------------------------------------------------------
// The bounded least-recently-used store
// ---------------------------------------------------------------------------

#[verifier::external_type_specification]
#[verifier::external_body]
#[verifier::reject_recursive_types(K)]
#[verifier::reject_recursive_types(V)]
#[verifier::reject_recursive_types(S)]
pub struct ExLruCache<K, V, S>(lru::LruCache<K, V, S>);

#[verifier::external_type_specification]
#[verifier::external_body]
pub struct ExLruDefaultHasher(lru::DefaultHasher);

/// The bounded key-to-payload store behind the result cache, keyed by cache
/// key and holding opaque result bytes.
pub struct CacheStore {
    store: lru::LruCache<String, Vec<u8>>,
}

/// What the store holds: its entries as (key, payload) pairs in recency
/// order, the most recently used entry first.
pub uninterp spec fn cache_entries(c: CacheStore) -> Seq<(Seq<char>, Seq<u8>)>;

/// The fixed entry bound the store was configured with.
pub uninterp spec fn cache_cap(c: CacheStore) -> nat;

/// The payload stored under `k`, searching from the most recent entry.
pub open spec fn lookup(s: Seq<(Seq<char>, Seq<u8>)>, k: Seq<char>) -> Option<Seq<u8>>
    decreases s.len(),
{
    if s.len() == 0 {
        None
    } else if s[0].0 == k {
        Some(s[0].1)
    } else {
        lookup(s.drop_first(), k)
    }
}

/// Every entry except those bearing the key `k`, in their old order.
pub open spec fn remove_key(s: Seq<(Seq<char>, Seq<u8>)>, k: Seq<char>) -> Seq<
    (Seq<char>, Seq<u8>),
>
    decreases s.len(),
{
    if s.len() == 0 {
        Seq::empty()
    } else if s[0].0 == k {
        remove_key(s.drop_first(), k)
    } else {
        seq![s[0]] + remove_key(s.drop_first(), k)
    }
}

/// How a hit reorders the store: the entry under `k` moves to the front,
/// its payload unchanged. A miss changes nothing.
pub open spec fn touch(s: Seq<(Seq<char>, Seq<u8>)>, k: Seq<char>) -> Seq<
    (Seq<char>, Seq<u8>),
> {
    match lookup(s, k) {
        Some(v) => seq![(k, v)] + remove_key(s, k),
        None => s,
    }
}

/// How an insert transforms the store: an existing key is updated in place
/// and moved to the front; a new key is pushed at the front, evicting the
/// least recently used entry first when the store is full.
pub open spec fn put_model(
    s: Seq<(Seq<char>, Seq<u8>)>,
    cap: nat,
    k: Seq<char>,
    v: Seq<u8>,
) -> Seq<(Seq<char>, Seq<u8>)> {
    if lookup(s, k) is Some {
        seq![(k, v)] + remove_key(s, k)
    } else if cap <= s.len() && 0 < s.len() {
        seq![(k, v)] + s.drop_last()
    } else {
        seq![(k, v)] + s
    }
}

impl CacheStore {
    /// Relies on `lru::LruCache::new`: a fresh cache is empty and holds at
    /// most `cap` entries thereafter.
    #[verifier::external_body]
    pub fn new(cap: usize) -> (r: CacheStore)
        requires
            1 <= cap,
        ensures
            cache_entries(r) == Seq::<(Seq<char>, Seq<u8>)>::empty(),
            cache_cap(r) == cap,
    {
        CacheStore { store: lru::LruCache::new(NonZeroUsize::new(cap).unwrap()) }
    }

    /// Relies on `lru::LruCache::get`: a hit hands back the payload and
    /// moves the entry to the head of the recency order; a miss changes
    /// nothing.
    #[verifier::external_body]
    pub fn get(&mut self, key: &String) -> (r: Option<Vec<u8>>)
        ensures
            cache_cap(*final(self)) == cache_cap(*old(self)),
            match lookup(cache_entries(*old(self)), key@) {
                Some(v) => {
                    &&& r matches Some(b) && b@ == v
                    &&& cache_entries(*final(self)) == touch(cache_entries(*old(self)), key@)
                },
                None => {
                    &&& r is None
                    &&& cache_entries(*final(self)) == cache_entries(*old(self))
                },
            },
    {
        self.store.get(key).cloned()
    }

    /// Relies on `lru::LruCache::put`: updates or inserts at the head of
    /// the recency order, evicting the least recently used entry when a new
    /// key would exceed the bound.
    #[verifier::external_body]
    pub fn put(&mut self, key: String, value: Vec<u8>)
        ensures
            cache_cap(*final(self)) == cache_cap(*old(self)),
            cache_entries(*final(self)) == put_model(
                cache_entries(*old(self)),
                cache_cap(*old(self)),
                key@,
                value@,
            ),
    {
        self.store.put(key, value);
    }

    /// Relies on `lru::LruCache::len`: the number of entries held.
    #[verifier::external_body]
    pub fn len(&self) -> (r: usize)
        ensures
            r == cache_entries(*self).len(),
    {
        self.store.len()
    }

    /// Relies on `lru::LruCache::clear`: empties the store; the bound stays.
    #[verifier::external_body]
    pub fn clear(&mut self)
        ensures
            cache_cap(*final(self)) == cache_cap(*old(self)),
            cache_entries(*final(self)) == Seq::<(Seq<char>, Seq<u8>)>::empty(),
    {
        self.store.clear();
    }
}

// ---------------------------------------------------------------------------
// Get-or-compute retrieval
// ---------------------------------------------------------------------------

/// A byte-buffer result, seen at the specification level.
pub open spec fn result_view(r: Result<Vec<u8>, AppError>) -> Result<Seq<u8>, AppError> {
    match r {
        Ok(b) => Ok(b@),
        Err(e) => Err(e),
    }
}

/// What one get-or-compute call does to the store. On a hit the stored
/// payload comes back and the entry is touched; on a miss the store is
/// unchanged unless the computed bytes arrived and persistence was asked
/// for, in which case they are inserted under the key.
pub open spec fn retrieve_post(
    entries0: Seq<(Seq<char>, Seq<u8>)>,
    cap: nat,
    key: Seq<char>,
    persist: bool,
    entries1: Seq<(Seq<char>, Seq<u8>)>,
    r: Result<Seq<u8>, AppError>,
) -> bool {
    match lookup(entries0, key) {
        Some(v) => r == Ok::<Seq<u8>, AppError>(v) && entries1 == touch(entries0, key),
        None => match r {
            Ok(b) => entries1 == if persist {
                put_model(entries0, cap, key, b)
            } else {
                entries0
            },
            Err(e) => entries1 == entries0 && e matches AppError::Error(_),
        },
    }
}

/// Looks the key for `(sql, command)` up in the cache; on a hit returns the
/// stored bytes without consulting the engine. On a miss asks the engine —
/// the columnar encoding for `Arrow`, the row-oriented one otherwise — and,
/// if the engine answered and `persist` is set, stores the bytes under the
/// key before returning them. A failed computation stores nothing.
pub fn retrieve<D: Database>(
    cache: &mut CacheStore,
    db: &D,
    sql: &str,
    command: &Command,
    persist: bool,
) -> (r: Result<Vec<u8>, AppError>)
    ensures
        cache_cap(*final(cache)) == cache_cap(*old(cache)),
        retrieve_post(
            cache_entries(*old(cache)),
            cache_cap(*old(cache)),
            key_spec(sql@, *command),
            persist,
            cache_entries(*final(cache)),
            result_view(r),
        ),
{
    let key = get_key(sql, command);
    if let Some(cached) = cache.get(&key) {
        return Ok(cached);
    }
    match fetch(db, sql, command) {
        Ok(bytes) => {
            if persist {
                cache.put(key, bytes.clone());
            }
            Ok(bytes)
        },
        Err(e) => Err(e),
    }
}

/// The store after one get-or-compute call with persistence on whose
/// computed bytes were `b`: a hit touches the entry (and served the stored
/// payload), a miss inserts the computed bytes.
pub open spec fn after_retrieve(
    e: Seq<(Seq<char>, Seq<u8>)>,
    cap: nat,
    k: Seq<char>,
    b: Seq<u8>,
) -> Seq<(Seq<char>, Seq<u8>)> {
    if lookup(e, k) is Some {
        touch(e, k)
    } else {
        put_model(e, cap, k, b)
    }
}

/// The store after a run of such calls, oldest first; `ps` holds each
/// call's key and its returned bytes.
pub open spec fn retrieve_all(
    e: Seq<(Seq<char>, Seq<u8>)>,
    cap: nat,
    ps: Seq<(Seq<char>, Seq<u8>)>,
) -> Seq<(Seq<char>, Seq<u8>)>
    decreases ps.len(),
{
    if ps.len() == 0 {
        e
    } else {
        retrieve_all(after_retrieve(e, cap, ps[0].0, ps[0].1), cap, ps.drop_first())
    }
}

/// Whether each call's returned bytes agree with the store it ran against:
/// wherever a call hit, its bytes equal the payload already stored under
/// its key — which is exactly what get-or-compute guarantees.
pub open spec fn blobs_follow(
    e: Seq<(Seq<char>, Seq<u8>)>,
    cap: nat,
    ps: Seq<(Seq<char>, Seq<u8>)>,
) -> bool
    decreases ps.len(),
{
    ps.len() == 0 || ({
        &&& match lookup(e, ps[0].0) {
            Some(v) => ps[0].1 == v,
            None => true,
        }
        &&& blobs_follow(after_retrieve(e, cap, ps[0].0, ps[0].1), cap, ps.drop_first())
    })
}

// ---------------------------------------------------------------------------
// Laws of the store
// ---------------------------------------------------------------------------

/// An entry at the front of the store is what a lookup finds.
proof fn lemma_lookup_front(rest: Seq<(Seq<char>, Seq<u8>)>, k: Seq<char>, v: Seq<u8>)
    ensures
        lookup(seq![(k, v)] + rest, k) == Some(v),
{
    let s = seq![(k, v)] + rest;
    assert(s[0] == (k, v));
}

/// A key stored by an insert is found afterwards, bearing the inserted
/// payload, whatever the store held before.
pub proof fn lemma_lookup_after_put(
    s: Seq<(Seq<char>, Seq<u8>)>,
    cap: nat,
    k: Seq<char>,
    v: Seq<u8>,
)
    ensures
        lookup(put_model(s, cap, k, v), k) == Some(v),
{
    if lookup(s, k) is Some {
        lemma_lookup_front(remove_key(s, k), k, v);
    } else if cap <= s.len() && 0 < s.len() {
        lemma_lookup_front(s.drop_last(), k, v);
    } else {
        lemma_lookup_front(s, k, v);
    }
}

/// A hit does not change what the store answers for the key it touched.
pub proof fn lemma_lookup_after_touch(s: Seq<(Seq<char>, Seq<u8>)>, k: Seq<char>, v: Seq<u8>)
    requires
        lookup(s, k) == Some(v),
    ensures
        lookup(touch(s, k), k) == Some(v),
{
    lemma_lookup_front(remove_key(s, k), k, v);
}

/// Law: cache correctness. If a first get-or-compute call for a key came
/// back with bytes `b` and retained them (`persist` set), then a second call
/// for the same key is a hit: it answers exactly `b`, without any second
/// computation being visible in its outcome.
pub proof fn lemma_get_or_compute_twice(
    e0: Seq<(Seq<char>, Seq<u8>)>,
    cap: nat,
    key: Seq<char>,
    b: Seq<u8>,
    e1: Seq<(Seq<char>, Seq<u8>)>,
    persist2: bool,
    e2: Seq<(Seq<char>, Seq<u8>)>,
    r2: Result<Seq<u8>, AppError>,
)
    requires
        retrieve_post(e0, cap, key, true, e1, Ok(b)),
        retrieve_post(e1, cap, key, persist2, e2, r2),
    ensures
        r2 == Ok::<Seq<u8>, AppError>(b),
        e2 == touch(e1, key),
{
    match lookup(e0, key) {
        Some(v) => {
            lemma_lookup_after_touch(e0, key, v);
        },
        None => {
            lemma_lookup_after_put(e0, cap, key, b);
        },
    }
}

/// Whether the keys of `s` are pairwise distinct.
pub open spec fn distinct_keys(s: Seq<(Seq<char>, Seq<u8>)>) -> bool {
    forall|i: int, j: int| 0 <= i < j < s.len() ==> s[i].0 != s[j].0
}

/// Whether no key of `es` occurs in `s`.
pub open spec fn disjoint_keys(
    s: Seq<(Seq<char>, Seq<u8>)>,
    es: Seq<(Seq<char>, Seq<u8>)>,
) -> bool {
    forall|p: int, j: int| 0 <= p < s.len() && 0 <= j < es.len() ==> s[p].0 != es[j].0
}

/// The store after inserting each pair of `es` in turn, oldest first.
pub open spec fn put_all(
    s: Seq<(Seq<char>, Seq<u8>)>,
    cap: nat,
    es: Seq<(Seq<char>, Seq<u8>)>,
) -> Seq<(Seq<char>, Seq<u8>)>
    decreases es.len(),
{
    if es.len() == 0 {
        s
    } else {
        put_all(put_model(s, cap, es[0].0, es[0].1), cap, es.drop_first())
    }
}

/// A run of inserts followed by one more insert is the insert applied to
/// the run's outcome.
pub proof fn lemma_put_all_push(
    s: Seq<(Seq<char>, Seq<u8>)>,
    cap: nat,
    es: Seq<(Seq<char>, Seq<u8>)>,
    e: (Seq<char>, Seq<u8>),
)
    ensures
        put_all(s, cap, es.push(e)) == put_model(put_all(s, cap, es), cap, e.0, e.1),
    decreases es.len(),
{
    if es.len() == 0 {
        let s1 = put_model(s, cap, e.0, e.1);
        assert(es.push(e)[0] == e);
        assert(es.push(e).drop_first() =~= Seq::<(Seq<char>, Seq<u8>)>::empty());
        assert(put_all(s, cap, es.push(e)) == put_all(s1, cap, es.push(e).drop_first()));
        assert(put_all(s1, cap, es.push(e).drop_first()) == s1);
        assert(put_all(s, cap, es) == s);
    } else {
        let s1 = put_model(s, cap, es[0].0, es[0].1);
        assert(es.push(e)[0] == es[0]);
        assert(es.push(e).drop_first() =~= es.drop_first().push(e));
        assert(put_all(s, cap, es.push(e)) == put_all(s1, cap, es.drop_first().push(e)));
        lemma_put_all_push(s1, cap, es.drop_first(), e);
        assert(put_all(s, cap, es) == put_all(s1, cap, es.drop_first()));
    }
}

/// A run of get-or-compute calls followed by one more is that call applied
/// to the run's outcome.
pub proof fn lemma_retrieve_all_push(
    e: Seq<(Seq<char>, Seq<u8>)>,
    cap: nat,
    ps: Seq<(Seq<char>, Seq<u8>)>,
    p: (Seq<char>, Seq<u8>),
)
    ensures
        retrieve_all(e, cap, ps.push(p)) == after_retrieve(
            retrieve_all(e, cap, ps),
            cap,
            p.0,
            p.1,
        ),
        blobs_follow(e, cap, ps.push(p)) <==> (blobs_follow(e, cap, ps) && match lookup(
            retrieve_all(e, cap, ps),
            p.0,
        ) {
            Some(v) => p.1 == v,
            None => true,
        }),
    decreases ps.len(),
{
    if ps.len() == 0 {
        assert(ps.push(p)[0] == p);
        assert(ps.push(p).drop_first() =~= Seq::<(Seq<char>, Seq<u8>)>::empty());
        assert(retrieve_all(after_retrieve(e, cap, p.0, p.1), cap, ps.push(p).drop_first())
            == after_retrieve(e, cap, p.0, p.1));
        assert(blobs_follow(after_retrieve(e, cap, p.0, p.1), cap, ps.push(p).drop_first()));
    } else {
        let s1 = after_retrieve(e, cap, ps[0].0, ps[0].1);
        assert(ps.push(p)[0] == ps[0]);
        assert(ps.push(p).drop_first() =~= ps.drop_first().push(p));
        lemma_retrieve_all_push(s1, cap, ps.drop_first(), p);
        assert(retrieve_all(e, cap, ps.push(p)) == retrieve_all(s1, cap, ps.drop_first().push(p)));
        assert(retrieve_all(e, cap, ps) == retrieve_all(s1, cap, ps.drop_first()));
    }
}

/// A key that occurs nowhere in a store is not found in it.
proof fn lemma_lookup_absent(s: Seq<(Seq<char>, Seq<u8>)>, k: Seq<char>)
    requires
        forall|i: int| 0 <= i < s.len() ==> s[i].0 != k,
    ensures
        lookup(s, k) is None,
    decreases s.len(),
{
    if s.len() > 0 {
        lemma_lookup_absent(s.drop_first(), k);
    }
}

/// In a store with distinct keys, looking any position's key up finds that
/// position's payload.
proof fn lemma_lookup_position(s: Seq<(Seq<char>, Seq<u8>)>, p: int)
    requires
        distinct_keys(s),
        0 <= p < s.len(),
    ensures
        lookup(s, s[p].0) == Some(s[p].1),
    decreases s.len(),
{
    if p > 0 {
        lemma_lookup_position(s.drop_first(), p - 1);
    }
}

/// Dropping the entries under one key never lets another key appear.
proof fn lemma_remove_key_keeps_absent(s: Seq<(Seq<char>, Seq<u8>)>, k: Seq<char>, k2: Seq<char>)
    requires
        forall|i: int| 0 <= i < s.len() ==> s[i].0 != k2,
    ensures
        forall|i: int| 0 <= i < remove_key(s, k).len() ==> remove_key(s, k)[i].0 != k2,
    decreases s.len(),
{
    if s.len() > 0 {
        assert(forall|i: int| 0 <= i < s.drop_first().len() ==> s.drop_first()[i].0 != k2);
        lemma_remove_key_keeps_absent(s.drop_first(), k, k2);
        if s[0].0 != k {
            let r = seq![s[0]] + remove_key(s.drop_first(), k);
            assert forall|i: int| 0 <= i < r.len() implies r[i].0 != k2 by {
                if i > 0 {
                    assert(r[i] == remove_key(s.drop_first(), k)[i - 1]);
                }
            }
        }
    }
}

/// An insert under some other key never lets an absent key appear.
proof fn lemma_put_model_keeps_absent(
    s: Seq<(Seq<char>, Seq<u8>)>,
    cap: nat,
    k2: Seq<char>,
    v: Seq<u8>,
    k: Seq<char>,
)
    requires
        k2 != k,
        forall|i: int| 0 <= i < s.len() ==> s[i].0 != k,
    ensures
        forall|i: int|
            0 <= i < put_model(s, cap, k2, v).len() ==> put_model(s, cap, k2, v)[i].0 != k,
{
    let s1 = put_model(s, cap, k2, v);
    if lookup(s, k2) is Some {
        lemma_remove_key_keeps_absent(s, k2, k);
        assert forall|i: int| 0 <= i < s1.len() implies s1[i].0 != k by {
            if i > 0 {
                assert(s1[i] == remove_key(s, k2)[i - 1]);
            }
        }
    } else if cap <= s.len() && 0 < s.len() {
        assert forall|i: int| 0 <= i < s1.len() implies s1[i].0 != k by {
            if i > 0 {
                assert(s1[i] == s.drop_last()[i - 1]);
            }
        }
    } else {
        assert forall|i: int| 0 <= i < s1.len() implies s1[i].0 != k by {
            if i > 0 {
                assert(s1[i] == s[i - 1]);
            }
        }
    }
}

/// A key absent from the store and from the inserted pairs stays absent.
proof fn lemma_put_all_absent(
    s: Seq<(Seq<char>, Seq<u8>)>,
    cap: nat,
    es: Seq<(Seq<char>, Seq<u8>)>,
    k: Seq<char>,
)
    requires
        forall|i: int| 0 <= i < s.len() ==> s[i].0 != k,
        forall|j: int| 0 <= j < es.len() ==> es[j].0 != k,
    ensures
        lookup(put_all(s, cap, es), k) is None,
    decreases es.len(),
{
    if es.len() == 0 {
        lemma_lookup_absent(s, k);
    } else {
        let s1 = put_model(s, cap, es[0].0, es[0].1);
        lemma_put_model_keeps_absent(s, cap, es[0].0, es[0].1, k);
        assert(forall|j: int| 0 <= j < es.drop_first().len() ==> es.drop_first()[j].0 != k);
        lemma_put_all_absent(s1, cap, es.drop_first(), k);
    }
}

/// The shape of a store after a run of inserts with fresh, distinct keys:
/// its size grows to the capacity and stops there; an inserted pair
/// survives exactly when fewer than `cap` inserts followed it; a prior
/// entry survives exactly when fewer than `cap` entries stand above it at
/// the end.
pub proof fn lemma_put_all_shape(
    s: Seq<(Seq<char>, Seq<u8>)>,
    cap: nat,
    es: Seq<(Seq<char>, Seq<u8>)>,
)
    requires
        1 <= cap,
        s.len() <= cap,
        distinct_keys(s),
        distinct_keys(es),
        disjoint_keys(s, es),
    ensures
        put_all(s, cap, es).len() == if s.len() + es.len() <= cap {
            s.len() + es.len()
        } else {
            cap
        },
        forall|j: int|
            0 <= j < es.len() ==> lookup(put_all(s, cap, es), es[j].0) == (if j + cap
                >= es.len() {
                Some(es[j].1)
            } else {
                None::<Seq<u8>>
            }),
        forall|p: int|
            0 <= p < s.len() ==> lookup(put_all(s, cap, es), s[p].0) == (if p + es.len() < cap {
                Some(s[p].1)
            } else {
                None::<Seq<u8>>
            }),
    decreases es.len(),
{
    if es.len() == 0 {
        assert forall|p: int| 0 <= p < s.len() implies lookup(s, s[p].0) == Some(s[p].1) by {
            lemma_lookup_position(s, p);
        }
    } else {
        let e0 = es[0];
        let rest = es.drop_first();
        lemma_lookup_absent(s, e0.0);
        let s1 = put_model(s, cap, e0.0, e0.1);
        assert(s1[0] == (e0.0, e0.1));
        if s.len() >= cap {
            assert(s1 =~= seq![(e0.0, e0.1)] + s.drop_last());
            assert(forall|p: int| 0 <= p < s.len() - 1 ==> s1[p + 1] == s[p]);
        } else {
            assert(s1 =~= seq![(e0.0, e0.1)] + s);
            assert(forall|p: int| 0 <= p < s.len() ==> s1[p + 1] == s[p]);
        }
        assert(distinct_keys(s1));
        assert(disjoint_keys(s1, rest));
        lemma_put_all_shape(s1, cap, rest);
        assert(put_all(s, cap, es) == put_all(s1, cap, rest));
        // The pair inserted first survives exactly when the rest fits above it.
        assert(lookup(put_all(s1, cap, rest), s1[0].0) == (if 0 + rest.len() < cap {
            Some(s1[0].1)
        } else {
            None::<Seq<u8>>
        }));
        // Later pairs carry over from the induction hypothesis.
        assert forall|j: int| 1 <= j < es.len() implies lookup(put_all(s, cap, es), es[j].0) == (
        if j + cap >= es.len() {
            Some(es[j].1)
        } else {
            None::<Seq<u8>>
        }) by {
            assert(rest[j - 1] == es[j]);
        }
        // Prior entries: either still in `s1`, one position deeper, or evicted.
        assert forall|p: int| 0 <= p < s.len() implies lookup(put_all(s, cap, es), s[p].0) == (
        if p + es.len() < cap {
            Some(s[p].1)
        } else {
            None::<Seq<u8>>
        }) by {
            if s.len() >= cap && p == s.len() - 1 {
                lemma_put_all_absent(s1, cap, rest, s[p].0);
            } else {
                assert(s1[p + 1] == s[p]);
                assert(lookup(put_all(s1, cap, rest), s1[p + 1].0) == (if p + 1 + rest.len()
                    < cap {
                    Some(s1[p + 1].1)
                } else {
                    None::<Seq<u8>>
                }));
            }
        }
    }
}

/// Law: eviction bound. Filling a fresh store of capacity `cap` with more
/// distinct keys than it can hold leaves exactly `cap` entries: the most
/// recently inserted `cap` pairs are all present, and the surplus — the
/// least recently used keys, in access order — is gone.
pub proof fn lemma_eviction_bound(cap: nat, es: Seq<(Seq<char>, Seq<u8>)>)
    requires
        1 <= cap,
        cap < es.len(),
        distinct_keys(es),
    ensures
        put_all(Seq::empty(), cap, es).len() == cap,
        forall|j: int|
            0 <= j < es.len() - cap ==> lookup(put_all(Seq::empty(), cap, es), es[j].0) is None,
        forall|j: int|
            es.len() - cap <= j < es.len() ==> lookup(put_all(Seq::empty(), cap, es), es[j].0)
                == Some(es[j].1),
{
    lemma_put_all_shape(Seq::empty(), cap, es);
}

/// A run of get-or-compute calls whose returned bytes agree with the store
/// acts exactly like a run of plain inserts of those bytes.
pub proof fn lemma_retrieves_act_as_inserts(
    e: Seq<(Seq<char>, Seq<u8>)>,
    cap: nat,
    ps: Seq<(Seq<char>, Seq<u8>)>,
)
    requires
        blobs_follow(e, cap, ps),
    ensures
        retrieve_all(e, cap, ps) == put_all(e, cap, ps),
    decreases ps.len(),
{
    if ps.len() > 0 {
        assert(after_retrieve(e, cap, ps[0].0, ps[0].1) == put_model(e, cap, ps[0].0, ps[0].1))
            by {
            match lookup(e, ps[0].0) {
                Some(v) => {
                    assert(ps[0].1 == v);
                },
                None => {},
            }
        }
        lemma_retrieves_act_as_inserts(put_model(e, cap, ps[0].0, ps[0].1), cap, ps.drop_first());
    }
}

/// Get-or-compute calls over pairwise distinct keys none of which the
/// store holds are all misses, so their bytes trivially agree with it.
proof fn lemma_fresh_keys_follow(
    e: Seq<(Seq<char>, Seq<u8>)>,
    cap: nat,
    ps: Seq<(Seq<char>, Seq<u8>)>,
)
    requires
        distinct_keys(ps),
        disjoint_keys(e, ps),
    ensures
        blobs_follow(e, cap, ps),
    decreases ps.len(),
{
    if ps.len() > 0 {
        lemma_lookup_absent(e, ps[0].0);
        let s1 = put_model(e, cap, ps[0].0, ps[0].1);
        let rest = ps.drop_first();
        assert forall|p: int, i: int|
            0 <= p < s1.len() && 0 <= i < rest.len() implies s1[p].0 != rest[i].0 by {
            assert(rest[i] == ps[i + 1]);
            lemma_put_model_keeps_absent(e, cap, ps[0].0, ps[0].1, rest[i].0);
        }
        assert(distinct_keys(rest)) by {
            assert(forall|i: int, j: int|
                0 <= i < j < rest.len() ==> rest[i] == ps[i + 1] && rest[j] == ps[j + 1]);
        }
        lemma_fresh_keys_follow(s1, cap, rest);
    }
}

/// Law: eviction bound for a run of get-or-compute calls. Filling a cold
/// store by get-or-compute with persistence on, over pairwise distinct
/// keys, acts exactly like the run of plain inserts — so with more keys
/// than the capacity, the insert-level eviction bound carries over: exactly
/// `cap` entries remain and the surplus least recently used keys are gone.
pub proof fn lemma_retrieve_eviction_bound(cap: nat, ps: Seq<(Seq<char>, Seq<u8>)>)
    requires
        1 <= cap,
        distinct_keys(ps),
    ensures
        blobs_follow(Seq::empty(), cap, ps),
        retrieve_all(Seq::empty(), cap, ps) == put_all(Seq::empty(), cap, ps),
{
    lemma_fresh_keys_follow(Seq::empty(), cap, ps);
    lemma_retrieves_act_as_inserts(Seq::empty(), cap, ps);
}

} // verus!
