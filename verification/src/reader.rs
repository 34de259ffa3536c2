//! The image reader's data: sessions, listing entries, and the cache of
//! decoded pages kept in least-recently-used order.
use vstd::prelude::*;

verus! {

/// What a reading session was opened on.
#[derive(Debug, Clone, Copy, PartialEq, Eq, Structural)]
pub enum SourceKind {
    Image,
    Folder,
    Archive,
}

/// An open reading session.
#[derive(Debug, Clone)]
pub struct ReaderSession {
    pub id: String,
    pub source_path: String,
    pub source_name: String,
    pub source_kind: SourceKind,
    pub current_index: usize,
    pub total_count: usize,
}

/// One readable image of a listing, with its place in reading order.
#[derive(Debug, Clone)]
pub struct ImageEntry {
    pub index: usize,
    pub path: String,
    pub name: String,
}

/// One row of the file explorer.
#[derive(Debug, Clone)]
pub struct ExplorerNode {
    pub path: String,
    pub name: String,
    pub is_directory: bool,
    pub is_supported_file: bool,
}

/// How many pages around the current one are decoded ahead of time.
#[derive(Debug, Clone)]
pub struct PrefetchWindow {
    pub backward: usize,
    pub forward: usize,
    pub max_concurrent_jobs: usize,
}

/// The limits the page cache works within.
#[derive(Debug, Clone)]
pub struct CachePolicy {
    pub memory_limit_bytes: u64,
    pub disk_limit_bytes: u64,
    pub full_cache_threshold_bytes: u64,
    pub prefetch_window: PrefetchWindow,
}

/// One cached page, found again by its key.
#[derive(Debug, Clone)]
pub struct CacheEntry {
    pub key: String,
    pub source_path: String,
    pub source_name: String,
    pub image_index: usize,
    pub image_path: String,
    pub last_accessed_at_ms: u64,
}

/// The value of a cached page.
pub ghost struct CacheEntryView {
    pub key: Seq<char>,
    pub source_path: Seq<char>,
    pub source_name: Seq<char>,
    pub image_index: usize,
    pub image_path: Seq<char>,
    pub last_accessed_at_ms: u64,
}

impl View for CacheEntry {
    type V = CacheEntryView;

    open spec fn view(&self) -> CacheEntryView {
        CacheEntryView {
            key: self.key@,
            source_path: self.source_path@,
            source_name: self.source_name@,
            image_index: self.image_index,
            image_path: self.image_path@,
            last_accessed_at_ms: self.last_accessed_at_ms,
        }
    }
}

impl CacheEntry {
    /// A copy of the entry.
    pub fn duplicate(&self) -> (r: CacheEntry)
        ensures
            r@ == self@,
    {
        CacheEntry {
            key: self.key.clone(),
            source_path: self.source_path.clone(),
            source_name: self.source_name.clone(),
            image_index: self.image_index,
            image_path: self.image_path.clone(),
            last_accessed_at_ms: self.last_accessed_at_ms,
        }
    }
}

/// The values of a list of cached pages.
pub open spec fn entry_views(v: Seq<CacheEntry>) -> Seq<CacheEntryView> {
    v.map_values(|e: CacheEntry| e@)
}

/// No key occurs twice.
pub open spec fn keys_distinct(s: Seq<CacheEntryView>) -> bool {
    forall|i: int, j: int| 0 <= i < s.len() && 0 <= j < s.len() && i != j ==> #[trigger] s[i].key != #[trigger] s[j].key
}

/// Whether some entry has `key`.
pub open spec fn has_key(s: Seq<CacheEntryView>, key: Seq<char>) -> bool {
    exists|i: int| 0 <= i < s.len() && (#[trigger] s[i]).key == key
}

/// Where the last entry under `key` stands, or -1.
pub open spec fn key_index(s: Seq<CacheEntryView>, key: Seq<char>) -> int
    decreases s.len(),
{
    if s.len() == 0 {
        -1
    } else if s.last().key == key {
        s.len() - 1
    } else {
        key_index(s.drop_last(), key)
    }
}

/// The entries without the one under `key`, the others in their order.
pub open spec fn without_key(s: Seq<CacheEntryView>, key: Seq<char>) -> Seq<CacheEntryView> {
    if key_index(s, key) >= 0 {
        s.remove(key_index(s, key))
    } else {
        s
    }
}

/// What `insert` leaves: the entry last, no other entry under its key.
pub open spec fn inserted(s: Seq<CacheEntryView>, e: CacheEntryView) -> Seq<CacheEntryView> {
    without_key(s, e.key).push(e)
}

/// What a hit of `get` leaves: the entry under `key` moved last.
pub open spec fn touched(s: Seq<CacheEntryView>, key: Seq<char>) -> Seq<CacheEntryView> {
    if key_index(s, key) >= 0 {
        without_key(s, key).push(s[key_index(s, key)])
    } else {
        s
    }
}

pub proof fn lemma_key_index(s: Seq<CacheEntryView>, key: Seq<char>)
    ensures
        -1 <= key_index(s, key) < s.len(),
        key_index(s, key) >= 0 ==> s[key_index(s, key)].key == key,
        key_index(s, key) == -1 <==> !has_key(s, key),
        forall|j: int| key_index(s, key) < j < s.len() ==> (#[trigger] s[j]).key != key,
    decreases s.len(),
{
    if s.len() > 0 {
        lemma_key_index(s.drop_last(), key);
        if s.last().key != key {
            assert forall|j: int| key_index(s, key) < j < s.len() implies (#[trigger] s[j]).key != key by {
                if j < s.len() - 1 {
                    assert(s[j] == s.drop_last()[j]);
                }
            }
            if has_key(s, key) {
                let i = choose|i: int| 0 <= i < s.len() && (#[trigger] s[i]).key == key;
                assert(s.drop_last()[i] == s[i]);
            }
            if has_key(s.drop_last(), key) {
                let i = choose|i: int| 0 <= i < s.drop_last().len() && (#[trigger] s.drop_last()[i]).key == key;
                assert(s[i] == s.drop_last()[i]);
            }
        }
    }
}

/// With one entry per key, the entry under `key` is the one at any position holding it.
pub proof fn lemma_key_index_at(s: Seq<CacheEntryView>, key: Seq<char>, i: int)
    requires
        keys_distinct(s),
        0 <= i < s.len(),
        s[i].key == key,
    ensures
        key_index(s, key) == i,
{
    lemma_key_index(s, key);
}

proof fn lemma_remove_distinct(s: Seq<CacheEntryView>, i: int)
    requires
        keys_distinct(s),
        0 <= i < s.len(),
    ensures
        keys_distinct(s.remove(i)),
        !has_key(s.remove(i), s[i].key),
{
    let r = s.remove(i);
    assert forall|a: int, b: int| 0 <= a < r.len() && 0 <= b < r.len() && a != b implies #[trigger] r[a].key != #[trigger] r[b].key by {
        let a2 = if a < i { a } else { a + 1 };
        let b2 = if b < i { b } else { b + 1 };
        assert(r[a] == s[a2] && r[b] == s[b2]);
    }
    assert forall|j: int| 0 <= j < r.len() implies (#[trigger] r[j]).key != s[i].key by {
        let j2 = if j < i { j } else { j + 1 };
        assert(r[j] == s[j2]);
    }
}

proof fn lemma_push_fresh(s: Seq<CacheEntryView>, e: CacheEntryView)
    requires
        keys_distinct(s),
        !has_key(s, e.key),
    ensures
        keys_distinct(s.push(e)),
{
    let t = s.push(e);
    assert forall|a: int, b: int| 0 <= a < t.len() && 0 <= b < t.len() && a != b implies #[trigger] t[a].key != #[trigger] t[b].key by {
        if a < s.len() && b < s.len() {
            assert(t[a] == s[a] && t[b] == s[b]);
        } else if a < s.len() {
            assert(t[a] == s[a]);
            assert(!(0 <= a < s.len() && s[a].key == e.key));
        } else {
            assert(t[b] == s[b]);
            assert(!(0 <= b < s.len() && s[b].key == e.key));
        }
    }
}

/// `without_key` leaves no entry under the key and keeps the others distinct.
proof fn lemma_without_key(s: Seq<CacheEntryView>, key: Seq<char>)
    requires
        keys_distinct(s),
    ensures
        keys_distinct(without_key(s, key)),
        !has_key(without_key(s, key), key),
{
    lemma_key_index(s, key);
    if key_index(s, key) >= 0 {
        lemma_remove_distinct(s, key_index(s, key));
    }
}

/// A lookup after an insert finds the inserted entry, and the lookup leaves the
/// order as the insert left it (the entry is already the most recent).
pub proof fn law_get_after_insert(s: Seq<CacheEntryView>, e: CacheEntryView)
    requires
        keys_distinct(s),
    ensures
        key_index(inserted(s, e), e.key) == inserted(s, e).len() - 1,
        inserted(s, e)[key_index(inserted(s, e), e.key)] == e,
        touched(inserted(s, e), e.key) == inserted(s, e),
        keys_distinct(inserted(s, e)),
{
    lemma_without_key(s, e.key);
    lemma_push_fresh(without_key(s, e.key), e);
    let t = inserted(s, e);
    lemma_key_index_at(t, e.key, t.len() - 1);
    assert(t.remove(t.len() - 1) =~= without_key(s, e.key));
}

/// An insert adds one entry for a new key and none for a key already held.
pub proof fn law_insert_len(s: Seq<CacheEntryView>, e: CacheEntryView)
    requires
        keys_distinct(s),
    ensures
        inserted(s, e).len() == s.len() + (if has_key(s, e.key) { 0int } else { 1int }),
{
    lemma_key_index(s, e.key);
}

/// An insert leaves the entries under other keys as they were.
pub proof fn law_insert_keeps_others(s: Seq<CacheEntryView>, e: CacheEntryView, key: Seq<char>)
    requires
        keys_distinct(s),
        key != e.key,
    ensures
        has_key(inserted(s, e), key) == has_key(s, key),
        has_key(s, key) ==> inserted(s, e)[key_index(inserted(s, e), key)] == s[key_index(s, key)],
{
    lemma_key_index(s, e.key);
    lemma_key_index(s, key);
    lemma_without_key(s, e.key);
    lemma_push_fresh(without_key(s, e.key), e);
    let w = without_key(s, e.key);
    let t = inserted(s, e);
    let ki = key_index(s, e.key);
    if has_key(s, key) {
        let i = key_index(s, key);
        let j = if ki >= 0 && i > ki { i - 1 } else { i };
        assert(w[j] == s[i]);
        assert(t[j] == s[i]);
        lemma_key_index_at(t, key, j);
    }
    if has_key(t, key) {
        let j = choose|j: int| 0 <= j < t.len() && (#[trigger] t[j]).key == key;
        assert(j < w.len());
        let i = if ki >= 0 && j >= ki { j + 1 } else { j };
        assert(s[i] == w[j]);
    }
}

/// The least recently used entry stays first when another key is inserted or
/// looked up, so `remove_oldest` still takes it.
pub proof fn law_oldest_stays_first(s: Seq<CacheEntryView>, e: CacheEntryView, key: Seq<char>)
    requires
        keys_distinct(s),
        s.len() > 0,
        s[0].key != e.key,
        s[0].key != key,
    ensures
        inserted(s, e)[0] == s[0],
        touched(s, key)[0] == s[0],
{
    lemma_key_index(s, e.key);
    lemma_key_index(s, key);
}

/// After a hit, the entry looked up is the most recently used.
pub proof fn law_get_makes_most_recent(s: Seq<CacheEntryView>, key: Seq<char>)
    requires
        keys_distinct(s),
        has_key(s, key),
    ensures
        touched(s, key).last() == s[key_index(s, key)],
        touched(s, key).len() == s.len(),
        keys_distinct(touched(s, key)),
{
    lemma_key_index(s, key);
    lemma_without_key(s, key);
    lemma_remove_distinct(s, key_index(s, key));
    lemma_push_fresh(without_key(s, key), s[key_index(s, key)]);
}

/// A call on the page cache, with the values it is made with.
pub ghost enum CacheCall {
    Insert(CacheEntryView),
    Get(Seq<char>),
    RemoveOldest,
}

/// The entries after the calls, made in order, starting from `s` (as the
/// contracts of `insert`, `get` and `remove_oldest` give them).
pub open spec fn after_calls(s: Seq<CacheEntryView>, calls: Seq<CacheCall>) -> Seq<CacheEntryView>
    decreases calls.len(),
{
    if calls.len() == 0 {
        s
    } else {
        let p = after_calls(s, calls.drop_last());
        match calls.last() {
            CacheCall::Insert(e) => inserted(p, e),
            CacheCall::Get(k) => touched(p, k),
            CacheCall::RemoveOldest => if p.len() == 0 { p } else { p.drop_first() },
        }
    }
}

/// Whether a call inserts or looks up `key`.
pub open spec fn uses_key(c: CacheCall, key: Seq<char>) -> bool {
    match c {
        CacheCall::Insert(e) => e.key == key,
        CacheCall::Get(k) => k == key,
        CacheCall::RemoveOldest => false,
    }
}

/// Where the last call that inserts or looks up `key` stands, or -1.
pub open spec fn last_use(calls: Seq<CacheCall>, key: Seq<char>) -> int
    decreases calls.len(),
{
    if calls.len() == 0 {
        -1
    } else if uses_key(calls.last(), key) {
        calls.len() - 1
    } else {
        last_use(calls.drop_last(), key)
    }
}

/// Whether a call inserts an entry under `key`.
pub open spec fn inserts_key(c: CacheCall, key: Seq<char>) -> bool {
    match c {
        CacheCall::Insert(e) => e.key == key,
        _ => false,
    }
}

/// Some call inserts an entry under `key`.
pub open spec fn was_inserted(calls: Seq<CacheCall>, key: Seq<char>) -> bool {
    exists|t: int| 0 <= t < calls.len() && inserts_key(#[trigger] calls[t], key)
}

proof fn lemma_last_use_bound(calls: Seq<CacheCall>, key: Seq<char>)
    ensures
        -1 <= last_use(calls, key) < calls.len(),
    decreases calls.len(),
{
    if calls.len() > 0 {
        lemma_last_use_bound(calls.drop_last(), key);
    }
}

/// From an empty cache, after any run of calls: no key is held twice (so `len`
/// counts the keys held), every key held was inserted by some call, and the
/// entries stand in the order of their keys' last insert or lookup, least
/// recent first, so `remove_oldest` gives up the least recently used first.
pub proof fn law_calls_keep_recency_order(calls: Seq<CacheCall>)
    ensures
        ({
            let s = after_calls(Seq::empty(), calls);
            &&& keys_distinct(s)
            &&& forall|i: int| 0 <= i < s.len() ==> was_inserted(calls, (#[trigger] s[i]).key)
            &&& forall|i: int| 0 <= i < s.len() ==> 0 <= last_use(calls, (#[trigger] s[i]).key)
            &&& forall|i: int, j: int| 0 <= i < j < s.len() ==> last_use(calls, (#[trigger] s[i]).key) < last_use(
                calls,
                (#[trigger] s[j]).key,
            )
        }),
    decreases calls.len(),
{
    let s = after_calls(Seq::empty(), calls);
    if calls.len() == 0 {
        return;
    }
    let d = calls.drop_last();
    law_calls_keep_recency_order(d);
    let p = after_calls(Seq::empty(), d);
    let t = d.len() as int;
    assert forall|key: Seq<char>| #[trigger] last_use(calls, key) == (if uses_key(calls.last(), key) { t } else { last_use(d, key) }) by {}
    assert forall|key: Seq<char>| last_use(d, key) < t by {
        lemma_last_use_bound(d, key);
    }
    assert forall|key: Seq<char>| was_inserted(d, key) implies #[trigger] was_inserted(calls, key) by {
        let t2 = choose|t2: int| 0 <= t2 < d.len() && inserts_key(#[trigger] d[t2], key);
        assert(calls[t2] == d[t2]);
    }
    match calls.last() {
        CacheCall::RemoveOldest => {
            if p.len() > 0 {
                lemma_remove_distinct(p, 0);
                assert(p.remove(0) =~= p.drop_first());
                assert forall|i: int| 0 <= i < s.len() implies #[trigger] s[i] == p[i + 1] by {}
            }
        },
        _ => {
            let (k, e, hit) = match calls.last() {
                CacheCall::Insert(e) => (e.key, e, true),
                CacheCall::Get(k) => (k, if key_index(p, k) >= 0 { p[key_index(p, k)] } else { p[0] }, key_index(p, k) >= 0),
                CacheCall::RemoveOldest => (Seq::empty(), p[0], false),
            };
            lemma_key_index(p, k);
            if !hit {
                assert(s == p);
                assert forall|i: int| 0 <= i < s.len() implies (#[trigger] s[i]).key != k by {
                    assert(!has_key(p, k));
                }
            } else {
                assert(e.key == k);
                lemma_without_key(p, k);
                let w = without_key(p, k);
                lemma_push_fresh(w, e);
                assert(s == w.push(e));
                let idx = key_index(p, k);
                assert forall|a: int| 0 <= a < w.len() implies #[trigger] w[a] == p[if idx >= 0 && a >= idx { a + 1 } else { a }] by {}
                assert forall|a: int| 0 <= a < w.len() implies (#[trigger] w[a]).key != k by {
                    assert(!has_key(w, k));
                }
                if calls.last() is Insert {
                    assert(calls[t] == calls.last());
                    assert(was_inserted(calls, e.key));
                } else {
                    assert(was_inserted(d, p[idx].key));
                }
                assert forall|i: int, j: int| 0 <= i < j < s.len() implies last_use(calls, (#[trigger] s[i]).key) < last_use(
                    calls,
                    (#[trigger] s[j]).key,
                ) by {
                    let i2 = if idx >= 0 && i >= idx { i + 1 } else { i };
                    assert(s[i] == p[i2]);
                    if j < w.len() {
                        let j2 = if idx >= 0 && j >= idx { j + 1 } else { j };
                        assert(s[j] == p[j2]);
                    }
                }
                assert forall|i: int| 0 <= i < s.len() implies was_inserted(calls, (#[trigger] s[i]).key)
                    && 0 <= last_use(calls, s[i].key) by {
                    if i < w.len() {
                        let i2 = if idx >= 0 && i >= idx { i + 1 } else { i };
                        assert(s[i] == p[i2]);
                    }
                }
            }
        },
    }
}

/// The call at `t` evicts the entry under `key`: a `remove_oldest` made while
/// that entry was the least recently used.
pub open spec fn evicts(calls: Seq<CacheCall>, t: int, key: Seq<char>) -> bool {
    &&& calls[t] is RemoveOldest
    &&& after_calls(Seq::empty(), calls.take(t)).len() > 0
    &&& after_calls(Seq::empty(), calls.take(t))[0].key == key
}

/// `key` was inserted by some call and no later call evicted it.
pub open spec fn live_key(calls: Seq<CacheCall>, key: Seq<char>) -> bool {
    exists|t: int| 0 <= t < calls.len() && inserts_key(#[trigger] calls[t], key)
        && forall|u: int| t < u < calls.len() ==> !evicts(calls, u, key)
}

/// A lookup moves an entry but keeps the set of keys held.
proof fn lemma_touched_keys(s: Seq<CacheEntryView>, k: Seq<char>, key: Seq<char>)
    requires
        keys_distinct(s),
    ensures
        has_key(touched(s, k), key) == has_key(s, key),
{
    lemma_key_index(s, k);
    let idx = key_index(s, k);
    if idx >= 0 {
        let w = without_key(s, k);
        let t = touched(s, k);
        assert(w == s.remove(idx));
        if has_key(s, key) {
            let i = choose|i: int| 0 <= i < s.len() && (#[trigger] s[i]).key == key;
            if i == idx {
                assert(t[t.len() - 1] == s[idx]);
            } else {
                let j = if i > idx { i - 1 } else { i };
                assert(t[j] == w[j]);
                assert(w[j] == s[i]);
            }
        }
        if has_key(t, key) {
            let j = choose|j: int| 0 <= j < t.len() && (#[trigger] t[j]).key == key;
            if j == t.len() - 1 {
                assert(s[idx].key == key);
            } else {
                let i = if j >= idx { j + 1 } else { j };
                assert(t[j] == w[j]);
                assert(s[i] == w[j]);
            }
        }
    }
}

/// The calls before the last evict as they did in the shorter run.
proof fn lemma_evicts_prefix(calls: Seq<CacheCall>, u: int, key: Seq<char>)
    requires
        0 <= u < calls.len() - 1,
    ensures
        evicts(calls, u, key) == evicts(calls.drop_last(), u, key),
{
    assert(calls.take(u) =~= calls.drop_last().take(u));
    assert(calls[u] == calls.drop_last()[u]);
}

/// From an empty cache, after any run of calls, a key is held exactly when it
/// was inserted and not evicted since: every key inserted and not evicted since
/// is still held, and no other key is.
pub proof fn law_held_keys_are_live(calls: Seq<CacheCall>, key: Seq<char>)
    ensures
        has_key(after_calls(Seq::empty(), calls), key) <==> live_key(calls, key),
    decreases calls.len(),
{
    if calls.len() == 0 {
        return;
    }
    let d = calls.drop_last();
    let n = calls.len() - 1;
    law_held_keys_are_live(d, key);
    law_calls_keep_recency_order(d);
    let p = after_calls(Seq::empty(), d);
    let s = after_calls(Seq::empty(), calls);
    assert(calls.take(n) =~= d);
    assert(calls[n] == calls.last());
    // Going from the shorter run: an insert before the last call stays live in
    // the longer run exactly when the last call does not evict its key.
    if live_key(d, key) {
        let t = choose|t: int| 0 <= t < d.len() && inserts_key(#[trigger] d[t], key)
            && forall|u: int| t < u < d.len() ==> !evicts(d, u, key);
        assert(calls[t] == d[t]);
        if !evicts(calls, n, key) {
            assert forall|u: int| t < u < calls.len() implies !evicts(calls, u, key) by {
                if u < n {
                    lemma_evicts_prefix(calls, u, key);
                }
            }
            assert(live_key(calls, key));
        }
    }
    if live_key(calls, key) {
        let t = choose|t: int| 0 <= t < calls.len() && inserts_key(#[trigger] calls[t], key)
            && forall|u: int| t < u < calls.len() ==> !evicts(calls, u, key);
        if t < n {
            assert(d[t] == calls[t]);
            assert forall|u: int| t < u < d.len() implies !evicts(d, u, key) by {
                lemma_evicts_prefix(calls, u, key);
                assert(!evicts(calls, u, key));
            }
            assert(live_key(d, key));
        }
    }
    match calls.last() {
        CacheCall::Insert(e) => {
            lemma_key_index(p, e.key);
            if key == e.key {
                assert(s[s.len() - 1] == e);
                assert(inserts_key(calls[n], key));
            } else {
                law_insert_keeps_others(p, e, key);
                if live_key(calls, key) {
                    let t = choose|t: int| 0 <= t < calls.len() && inserts_key(#[trigger] calls[t], key)
                        && forall|u: int| t < u < calls.len() ==> !evicts(calls, u, key);
                    assert(t < n);
                }
            }
        },
        CacheCall::Get(k) => {
            lemma_touched_keys(p, k, key);
            if live_key(calls, key) {
                let t = choose|t: int| 0 <= t < calls.len() && inserts_key(#[trigger] calls[t], key)
                    && forall|u: int| t < u < calls.len() ==> !evicts(calls, u, key);
                assert(t < n);
            }
        },
        CacheCall::RemoveOldest => {
            if live_key(calls, key) {
                let t = choose|t: int| 0 <= t < calls.len() && inserts_key(#[trigger] calls[t], key)
                    && forall|u: int| t < u < calls.len() ==> !evicts(calls, u, key);
                assert(t < n);
            }
            if p.len() > 0 {
                assert(s == p.drop_first());
                if has_key(s, key) {
                    let i = choose|i: int| 0 <= i < s.len() && (#[trigger] s[i]).key == key;
                    assert(p[i + 1] == s[i]);
                    assert(p[0].key != p[i + 1].key);
                }
                if has_key(p, key) && p[0].key != key {
                    let i = choose|i: int| 0 <= i < p.len() && (#[trigger] p[i]).key == key;
                    assert(i > 0);
                    assert(s[i - 1] == p[i]);
                }
            }
        },
    }
}

/// The page cache: entries in least-recently-used order, one per key.
pub struct CacheState {
    entries: Vec<CacheEntry>,
}

impl View for CacheState {
    type V = Seq<CacheEntryView>;

    closed spec fn view(&self) -> Seq<CacheEntryView> {
        entry_views(self.entries@)
    }
}

impl Default for CacheState {
    fn default() -> (r: CacheState)
        ensures
            r@ == Seq::<CacheEntryView>::empty(),
    {
        CacheState::new()
    }
}

impl CacheState {
    /// Well-formed: no key occurs twice.
    pub open spec fn wf(&self) -> bool {
        keys_distinct(self@)
    }

    /// An empty cache.
    pub fn new() -> (r: CacheState)
        ensures
            r@ == Seq::<CacheEntryView>::empty(),
            r.wf(),
    {
        let r = CacheState { entries: Vec::new() };
        assert(entry_views(r.entries@) =~= Seq::<CacheEntryView>::empty());
        r
    }

    fn position(&self, key: &String) -> (r: Option<usize>)
        ensures
            match r {
                Some(i) => i < self@.len() && self@[i as int].key == key@,
                None => !has_key(self@, key@),
            },
    {
        let mut i: usize = 0;
        while i < self.entries.len()
            invariant
                i <= self.entries.len(),
                forall|j: int| 0 <= j < i ==> (#[trigger] self.entries@[j])@.key != key@,
            decreases self.entries.len() - i,
        {
            if self.entries[i].key == *key {
                return Some(i);
            }
            i = i + 1;
        }
        assert forall|j: int| 0 <= j < self@.len() implies (#[trigger] self@[j]).key != key@ by {
            assert(self@[j] == self.entries@[j]@);
        }
        None
    }

    /// Puts `entry` last in recency order, in place of the entry under its key.
    pub fn insert(&mut self, entry: CacheEntry)
        requires
            old(self).wf(),
        ensures
            final(self)@ == inserted(old(self)@, entry@),
            final(self).wf(),
    {
        let ghost s0 = self@;
        let ghost e = entry@;
        match self.position(&entry.key) {
            Some(i) => {
                proof { lemma_key_index_at(s0, e.key, i as int); }
                let ghost before = self.entries@;
                let _replaced = self.entries.remove(i);
                assert(entry_views(self.entries@) =~= s0.remove(i as int));
            },
            None => {
                proof { lemma_key_index(s0, e.key); }
            },
        }
        proof { lemma_without_key(s0, e.key); }
        let ghost mid = self.entries@;
        self.entries.push(entry);
        proof {
            assert(entry_views(self.entries@) =~= entry_views(mid).push(e));
            lemma_push_fresh(entry_views(mid), e);
        }
    }

    /// Looks `key` up; on a hit the entry becomes the most recently used.
    pub fn get(&mut self, key: &str) -> (r: Option<&CacheEntry>)
        requires
            old(self).wf(),
        ensures
            final(self)@ == touched(old(self)@, key@),
            final(self).wf(),
            match r {
                Some(e) => key_index(old(self)@, key@) >= 0 && e@ == old(self)@[key_index(old(self)@, key@)],
                None => !has_key(old(self)@, key@),
            },
    {
        let ghost s0 = self@;
        let k = key.to_string();
        match self.position(&k) {
            Some(i) => {
                proof { lemma_key_index_at(s0, key@, i as int); }
                let e = self.entries.remove(i);
                assert(entry_views(self.entries@) =~= s0.remove(i as int));
                proof { lemma_without_key(s0, key@); }
                let ghost mid = self.entries@;
                self.entries.push(e);
                proof {
                    assert(entry_views(self.entries@) =~= entry_views(mid).push(s0[i as int]));
                    lemma_push_fresh(entry_views(mid), s0[i as int]);
                }
                let last = self.entries.len() - 1;
                Some(&self.entries[last])
            },
            None => {
                proof { lemma_key_index(s0, key@); }
                None
            },
        }
    }

    /// Takes out the least recently used entry, if any.
    pub fn remove_oldest(&mut self) -> (r: Option<CacheEntry>)
        requires
            old(self).wf(),
        ensures
            final(self).wf(),
            old(self)@.len() == 0 ==> r is None && final(self)@ == old(self)@,
            old(self)@.len() > 0 ==> (r matches Some(e) && e@ == old(self)@[0] && final(self)@ == old(self)@.drop_first()),
    {
        if self.entries.len() == 0 {
            return None;
        }
        let ghost s0 = self@;
        let e = self.entries.remove(0);
        proof {
            assert(entry_views(self.entries@) =~= s0.remove(0));
            lemma_remove_distinct(s0, 0);
        }
        assert(s0.remove(0) =~= s0.drop_first());
        Some(e)
    }

    /// The number of entries.
    pub fn len(&self) -> (r: usize)
        ensures
            r == self@.len(),
    {
        self.entries.len()
    }
}

} // verus!
