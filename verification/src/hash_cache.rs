//! The cache of computed hashes, keyed by `path|size|mtime`, with the count
//! of changes not yet written out that decides when it is written.
use vstd::prelude::*;
use crate::model::{decimal, decimal_chars};

verus! {

/// What was computed for one file.
#[derive(Debug, Clone, Default)]
pub struct CacheEntry {
    pub hash: Option<String>,
    pub phash: Option<String>,
    pub vhash_frames: Option<Vec<u64>>,
}

/// The value of a cache entry.
pub ghost struct HashEntryView {
    pub hash: Option<Seq<char>>,
    pub phash: Option<Seq<char>>,
    pub vhash_frames: Option<Seq<u64>>,
}

pub open spec fn opt_chars(s: Option<String>) -> Option<Seq<char>> {
    match s {
        Some(t) => Some(t@),
        None => None,
    }
}

impl View for CacheEntry {
    type V = HashEntryView;

    open spec fn view(&self) -> HashEntryView {
        HashEntryView {
            hash: opt_chars(self.hash),
            phash: opt_chars(self.phash),
            vhash_frames: match self.vhash_frames {
                Some(v) => Some(v@),
                None => None,
            },
        }
    }
}

/// What the cache file records besides the entries.
#[derive(Debug, Clone, Default)]
pub struct CacheMeta {
    pub scan_paths: Vec<String>,
}

/// Key and value of each stored pair.
pub open spec fn pair_views(v: Seq<(String, CacheEntry)>) -> Seq<(Seq<char>, HashEntryView)> {
    v.map_values(|p: (String, CacheEntry)| (p.0@, p.1@))
}

/// The map that inserting the pairs in order builds: a later pair wins.
pub open spec fn pairs_map(s: Seq<(Seq<char>, HashEntryView)>) -> Map<Seq<char>, HashEntryView>
    decreases s.len(),
{
    if s.len() == 0 {
        Map::empty()
    } else {
        pairs_map(s.drop_last()).insert(s.last().0, s.last().1)
    }
}

/// The keys of the pairs, in order.
pub open spec fn pair_keys(s: Seq<(Seq<char>, HashEntryView)>) -> Seq<Seq<char>> {
    s.map_values(|p: (Seq<char>, HashEntryView)| p.0)
}

/// Where the last pair with key `k` stands, or -1.
pub open spec fn last_key_at(s: Seq<(Seq<char>, HashEntryView)>, k: Seq<char>) -> int
    decreases s.len(),
{
    if s.len() == 0 {
        -1
    } else if s.last().0 == k {
        s.len() - 1
    } else {
        last_key_at(s.drop_last(), k)
    }
}

proof fn lemma_pairs_map(s: Seq<(Seq<char>, HashEntryView)>, k: Seq<char>)
    ensures
        -1 <= last_key_at(s, k) < s.len(),
        last_key_at(s, k) >= 0 ==> s[last_key_at(s, k)].0 == k,
        pairs_map(s).dom().contains(k) <==> last_key_at(s, k) >= 0,
        last_key_at(s, k) >= 0 ==> pairs_map(s)[k] == s[last_key_at(s, k)].1,
        forall|j: int| last_key_at(s, k) < j < s.len() ==> (#[trigger] s[j]).0 != k,
    decreases s.len(),
{
    if s.len() > 0 {
        lemma_pairs_map(s.drop_last(), k);
        assert forall|j: int| last_key_at(s, k) < j < s.len() implies (#[trigger] s[j]).0 != k by {
            if j < s.len() - 1 {
                assert(s[j] == s.drop_last()[j]);
            }
        }
    }
}

proof fn lemma_pairs_map_dom(s: Seq<(Seq<char>, HashEntryView)>)
    ensures
        pairs_map(s).dom() == pair_keys(s).to_set(),
    decreases s.len(),
{
    if s.len() > 0 {
        lemma_pairs_map_dom(s.drop_last());
        assert(pair_keys(s) =~= pair_keys(s.drop_last()).push(s.last().0));
        assert(pair_keys(s)[s.len() - 1] == s.last().0);
        assert(pair_keys(s).to_set() =~= pair_keys(s.drop_last()).to_set().insert(s.last().0)) by {
            assert forall|k: Seq<char>| pair_keys(s).to_set().contains(k) <==> pair_keys(s.drop_last()).to_set().insert(s.last().0).contains(k) by {
                if pair_keys(s).contains(k) {
                    let i = choose|i: int| 0 <= i < pair_keys(s).len() && pair_keys(s)[i] == k;
                    if i < s.len() - 1 {
                        assert(pair_keys(s.drop_last())[i] == k);
                    }
                }
                if pair_keys(s.drop_last()).contains(k) {
                    let i = choose|i: int| 0 <= i < pair_keys(s.drop_last()).len() && pair_keys(s.drop_last())[i] == k;
                    assert(pair_keys(s)[i] == k);
                }
            }
        }
    } else {
        assert(pair_keys(s).to_set() =~= Set::<Seq<char>>::empty());
    }
}

/// Replacing the pair of a key held once replaces that key's value.
proof fn lemma_pairs_map_update(s: Seq<(Seq<char>, HashEntryView)>, i: int, v: HashEntryView)
    requires
        0 <= i < s.len(),
        pair_keys(s).no_duplicates(),
    ensures
        pairs_map(s.update(i, (s[i].0, v))) == pairs_map(s).insert(s[i].0, v),
        pair_keys(s.update(i, (s[i].0, v))) == pair_keys(s),
    decreases s.len(),
{
    let t = s.update(i, (s[i].0, v));
    assert(pair_keys(t) =~= pair_keys(s));
    if i == s.len() - 1 {
        assert(t.drop_last() =~= s.drop_last());
        assert(pairs_map(t) =~= pairs_map(s).insert(s[i].0, v));
    } else {
        let d = s.drop_last();
        assert(pair_keys(d) =~= pair_keys(s).drop_last());
        assert(pair_keys(d).no_duplicates()) by {
            assert forall|a: int, b: int| 0 <= a < pair_keys(d).len() && 0 <= b < pair_keys(d).len() && a != b
                implies pair_keys(d)[a] != pair_keys(d)[b] by {
                assert(pair_keys(d)[a] == pair_keys(s)[a]);
                assert(pair_keys(d)[b] == pair_keys(s)[b]);
            }
        }
        lemma_pairs_map_update(d, i, v);
        assert(t.drop_last() =~= d.update(i, (d[i].0, v)));
        assert(pair_keys(s)[i] != pair_keys(s)[s.len() - 1]);
        assert(pairs_map(t) =~= pairs_map(s).insert(s[i].0, v));
    }
}

/// Merging pairs in order is the old map updated by the pairs' map.
proof fn lemma_pairs_merge(m: Map<Seq<char>, HashEntryView>, b: Seq<(Seq<char>, HashEntryView)>, j: int)
    requires
        0 <= j < b.len(),
    ensures
        m.union_prefer_right(pairs_map(b.take(j + 1)))
            == m.union_prefer_right(pairs_map(b.take(j))).insert(b[j].0, b[j].1),
{
    assert(b.take(j + 1).drop_last() =~= b.take(j));
    assert(m.union_prefer_right(pairs_map(b.take(j + 1)))
        =~= m.union_prefer_right(pairs_map(b.take(j))).insert(b[j].0, b[j].1));
}

/// The cache of hashes, with the count of changes not yet written out.
pub struct HashCache {
    pub meta: CacheMeta,
    entries: Vec<(String, CacheEntry)>,
    dirty_count: usize,
    path: String,
}

/// The number of changes after which the cache is written out.
pub const FLUSH_DIRTY_THRESHOLD: usize = 100;

/// The seconds after which the cache is written out.
pub const FLUSH_INTERVAL_SECS: u64 = 30;

impl HashCache {
    /// What the cache maps each key to.
    pub closed spec fn contents(&self) -> Map<Seq<char>, HashEntryView> {
        pairs_map(pair_views(self.entries@))
    }

    /// The changes made since the cache was last written out.
    pub closed spec fn dirty(&self) -> nat {
        self.dirty_count as nat
    }

    /// The file the cache is written to.
    pub closed spec fn file_path(&self) -> Seq<char> {
        self.path@
    }

    /// The scanned folders recorded with the cache.
    pub closed spec fn scan_paths(&self) -> Seq<String> {
        self.meta.scan_paths@
    }

    /// Well-formed: each key is stored once.
    pub closed spec fn wf(&self) -> bool {
        pair_keys(pair_views(self.entries@)).no_duplicates()
    }

    /// An empty cache written to `path`, with nothing to write yet.
    pub fn empty(path: String) -> (r: HashCache)
        ensures
            r.wf(),
            r.contents() == Map::<Seq<char>, HashEntryView>::empty(),
            r.contents().dom().finite(),
            r.dirty() == 0,
            r.file_path() == path@,
            r.scan_paths().len() == 0,
    {
        let r = HashCache { meta: CacheMeta { scan_paths: Vec::new() }, entries: Vec::new(), dirty_count: 0, path };
        assert(pair_views(r.entries@) =~= Seq::<(Seq<char>, HashEntryView)>::empty());
        r
    }

    fn find(&self, key: &String) -> (r: Option<usize>)
        ensures
            match r {
                Some(i) => i < self.entries.len() && i == last_key_at(pair_views(self.entries@), key@),
                None => last_key_at(pair_views(self.entries@), key@) == -1,
            },
    {
        let ghost s = pair_views(self.entries@);
        proof { lemma_pairs_map(s, key@); }
        let mut i: usize = self.entries.len();
        while i > 0
            invariant
                i <= self.entries.len(),
                s == pair_views(self.entries@),
                forall|j: int| i <= j < s.len() ==> (#[trigger] s[j]).0 != key@,
            decreases i,
        {
            i = i - 1;
            assert(s[i as int] == (self.entries@[i as int].0@, self.entries@[i as int].1@));
            if self.entries[i].0 == *key {
                proof { lemma_last_at(s, key@, i as int); }
                return Some(i);
            }
        }
        proof { lemma_last_at_none(s, key@); }
        None
    }

    /// The entry stored under `key`, if any.
    pub fn get(&self, key: &str) -> (r: Option<&CacheEntry>)
        ensures
            match r {
                Some(e) => self.contents().dom().contains(key@) && e@ == self.contents()[key@],
                None => !self.contents().dom().contains(key@),
            },
    {
        let k = key.to_string();
        proof { lemma_pairs_map(pair_views(self.entries@), key@); }
        match self.find(&k) {
            Some(i) => {
                assert(pair_views(self.entries@)[i as int].1 == self.entries@[i as int].1@);
                Some(&self.entries[i].1)
            },
            None => None,
        }
    }

    /// Stores `entry` under `key`, counting one change.
    pub fn insert(&mut self, key: String, entry: CacheEntry)
        requires
            old(self).wf(),
            old(self).dirty() < usize::MAX,
        ensures
            final(self).wf(),
            final(self).contents() == old(self).contents().insert(key@, entry@),
            final(self).contents().dom().finite(),
            final(self).dirty() == old(self).dirty() + 1,
            final(self).file_path() == old(self).file_path(),
            final(self).scan_paths() == old(self).scan_paths(),
    {
        self.store(key, entry);
        self.dirty_count = self.dirty_count + 1;
        proof { self.lemma_len(); }
    }

    fn store(&mut self, key: String, entry: CacheEntry)
        requires
            old(self).wf(),
        ensures
            final(self).wf(),
            final(self).contents() == old(self).contents().insert(key@, entry@),
            final(self).dirty() == old(self).dirty(),
            final(self).file_path() == old(self).file_path(),
            final(self).scan_paths() == old(self).scan_paths(),
    {
        let ghost s = pair_views(self.entries@);
        let ghost e = entry@;
        match self.find(&key) {
            Some(i) => {
                proof {
                    lemma_pairs_map(s, key@);
                    lemma_pairs_map_update(s, i as int, e);
                }
                self.entries.set(i, (key, entry));
                assert(pair_views(self.entries@) =~= s.update(i as int, (s[i as int].0, e)));
            },
            None => {
                proof {
                    lemma_pairs_map(s, key@);
                    lemma_pairs_map_dom(s);
                }
                let ghost k = key@;
                self.entries.push((key, entry));
                assert(pair_views(self.entries@) =~= s.push((k, e)));
                proof {
                    assert(s.push((k, e)).drop_last() =~= s);
                    assert(pair_keys(s.push((k, e))) =~= pair_keys(s).push(k));
                    assert(!pair_keys(s).contains(k)) by {
                        if pair_keys(s).contains(k) {
                            assert(pair_keys(s).to_set().contains(k));
                        }
                    }
                    assert forall|a: int, b: int| 0 <= a < pair_keys(s).push(k).len() && 0 <= b < pair_keys(s).push(k).len() && a != b
                        implies pair_keys(s).push(k)[a] != pair_keys(s).push(k)[b] by {
                        if a < s.len() && b < s.len() {
                        } else if a < s.len() {
                            assert(pair_keys(s)[a] != k);
                        } else {
                            assert(pair_keys(s)[b] != k);
                        }
                    }
                }
            },
        }
    }

    /// Stores a batch of results in order (a later pair wins), counting one
    /// change per pair.
    pub fn merge_batch(&mut self, batch: Vec<(String, CacheEntry)>)
        requires
            old(self).wf(),
            old(self).dirty() + batch.len() <= usize::MAX,
        ensures
            final(self).wf(),
            final(self).contents() == old(self).contents().union_prefer_right(pairs_map(pair_views(batch@))),
            final(self).contents().dom().finite(),
            final(self).dirty() == old(self).dirty() + batch.len(),
            final(self).file_path() == old(self).file_path(),
            final(self).scan_paths() == old(self).scan_paths(),
    {
        let count = batch.len();
        let ghost b = pair_views(batch@);
        let ghost m0 = self.contents();
        let mut rest = batch;
        let ghost mut done: int = 0;
        proof {
            assert(b.take(0) =~= Seq::<(Seq<char>, HashEntryView)>::empty());
            assert(m0.union_prefer_right(pairs_map(b.take(0))) =~= m0);
            assert(pair_views(rest@) =~= b.skip(0));
        }
        while rest.len() > 0
            invariant
                self.wf(),
                0 <= done <= b.len(),
                pair_views(rest@) == b.skip(done),
                self.contents() == m0.union_prefer_right(pairs_map(b.take(done))),
                self.dirty() == old(self).dirty(),
                self.file_path() == old(self).file_path(),
                self.scan_paths() == old(self).scan_paths(),
            decreases rest.len(),
        {
            let ghost r0 = rest@;
            assert(pair_views(r0).len() == r0.len());
            let (key, entry) = rest.remove(0);
            proof {
                assert(pair_views(r0)[0] == b[done]);
                assert(pair_views(rest@) =~= b.skip(done + 1)) by {
                    assert forall|j: int| 0 <= j < rest@.len() implies pair_views(rest@)[j] == b.skip(done + 1)[j] by {
                        assert(rest@[j] == r0[j + 1]);
                        assert(pair_views(r0)[j + 1] == b.skip(done)[j + 1]);
                    }
                }
                lemma_pairs_merge(m0, b, done);
            }
            self.store(key, entry);
            proof { done = done + 1; }
        }
        proof {
            assert(b.take(done) =~= b);
        }
        self.dirty_count = self.dirty_count + count;
        proof { self.lemma_len(); }
    }

    /// Whether the cache is due to be written out: 100 changes since the last
    /// write, or 30 seconds.
    pub fn flush_if_needed(&self, elapsed_secs: u64) -> (r: bool)
        ensures
            r == (self.dirty() >= 100 || elapsed_secs >= 30),
    {
        self.dirty_count >= FLUSH_DIRTY_THRESHOLD || elapsed_secs >= FLUSH_INTERVAL_SECS
    }

    /// Records that the cache was written out: no change is pending.
    pub fn mark_flushed(&mut self)
        ensures
            final(self).dirty() == 0,
            final(self).contents() == old(self).contents(),
            final(self).wf() == old(self).wf(),
            final(self).file_path() == old(self).file_path(),
            final(self).scan_paths() == old(self).scan_paths(),
    {
        self.dirty_count = 0;
    }

    /// The number of changes not yet written out.
    pub fn dirty_count(&self) -> (r: usize)
        ensures
            r == self.dirty(),
    {
        self.dirty_count
    }

    /// The file the cache is written to.
    pub fn path(&self) -> (r: &str)
        ensures
            r@ == self.file_path(),
    {
        self.path.as_str()
    }

    /// The stored pairs, each key once, for writing the cache out.
    pub fn pairs(&self) -> (r: &Vec<(String, CacheEntry)>)
        ensures
            self.wf() ==> pair_keys(pair_views(r@)).no_duplicates(),
            pairs_map(pair_views(r@)) == self.contents(),
    {
        &self.entries
    }

    /// Whether no key is stored.
    pub fn is_empty(&self) -> (r: bool)
        requires
            self.wf(),
        ensures
            r == (self.contents().dom().len() == 0),
    {
        proof { self.lemma_len(); }
        self.entries.len() == 0
    }

    /// The number of keys stored.
    pub fn len(&self) -> (r: usize)
        requires
            self.wf(),
        ensures
            r == self.contents().dom().len(),
    {
        proof { self.lemma_len(); }
        self.entries.len()
    }

    proof fn lemma_len(&self)
        requires
            self.wf(),
        ensures
            self.contents().dom().len() == self.entries.len(),
            self.contents().dom().finite(),
    {
        let s = pair_views(self.entries@);
        lemma_pairs_map_dom(s);
        pair_keys(s).unique_seq_to_set();
        vstd::seq_lib::seq_to_set_is_finite(pair_keys(s));
    }
}

proof fn lemma_last_at(s: Seq<(Seq<char>, HashEntryView)>, k: Seq<char>, i: int)
    requires
        0 <= i < s.len(),
        s[i].0 == k,
        forall|j: int| i < j < s.len() ==> (#[trigger] s[j]).0 != k,
    ensures
        last_key_at(s, k) == i,
    decreases s.len(),
{
    if i < s.len() - 1 {
        assert(s.last() == s[s.len() - 1]);
        assert forall|j: int| i < j < s.drop_last().len() implies (#[trigger] s.drop_last()[j]).0 != k by {
            assert(s.drop_last()[j] == s[j]);
        }
        lemma_last_at(s.drop_last(), k, i);
    }
}

proof fn lemma_last_at_none(s: Seq<(Seq<char>, HashEntryView)>, k: Seq<char>)
    requires
        forall|j: int| 0 <= j < s.len() ==> (#[trigger] s[j]).0 != k,
    ensures
        last_key_at(s, k) == -1,
    decreases s.len(),
{
    if s.len() > 0 {
        assert forall|j: int| 0 <= j < s.drop_last().len() implies (#[trigger] s.drop_last()[j]).0 != k by {
            assert(s.drop_last()[j] == s[j]);
        }
        lemma_last_at_none(s.drop_last(), k);
    }
}

/// The cache key of a file: `path|size|mtime`, the numbers in decimal.
pub open spec fn cache_key_text(path: Seq<char>, len: u64, mtime: u64) -> Seq<char> {
    path + "|"@ + decimal(len as nat) + "|"@ + decimal(mtime as nat)
}

/// Builds the cache key of a file from its path, size and modification time
/// (seconds since the epoch).
pub fn format_cache_key(path: &str, len: u64, mtime: u64) -> (r: String)
    ensures
        r@ == cache_key_text(path@, len, mtime),
{
    let mut r = path.to_string();
    r.append("|");
    append_chars(&mut r, &decimal_chars(len));
    r.append("|");
    append_chars(&mut r, &decimal_chars(mtime));
    proof { reveal_strlit("|"); }
    r
}

fn append_chars(s: &mut String, cs: &Vec<char>)
    ensures
        final(s)@ == old(s)@ + cs@,
{
    let ghost s0 = s@;
    let mut i: usize = 0;
    while i < cs.len()
        invariant
            i <= cs.len(),
            s@ == s0 + cs@.take(i as int),
        decreases cs.len() - i,
    {
        s.push(cs[i]);
        assert(s0 + cs@.take(i as int).push(cs@[i as int]) =~= s0 + cs@.take(i + 1));
        i = i + 1;
    }
    assert(cs@.take(cs.len() as int) =~= cs@);
}

/// A lookup after an insert finds what was inserted; other keys keep their entries.
pub proof fn law_get_after_insert(m: Map<Seq<char>, HashEntryView>, key: Seq<char>, e: HashEntryView, other: Seq<char>)
    requires
        other != key,
    ensures
        m.insert(key, e).dom().contains(key),
        m.insert(key, e)[key] == e,
        m.insert(key, e).dom().contains(other) == m.dom().contains(other),
        m.dom().contains(other) ==> m.insert(key, e)[other] == m[other],
{
}

/// After a batch is merged, a key of the batch holds the entry of its last
/// pair in the batch; a key not in the batch keeps its entry.
pub proof fn law_merge_last_pair_wins(m: Map<Seq<char>, HashEntryView>, batch: Seq<(Seq<char>, HashEntryView)>, key: Seq<char>)
    ensures
        last_key_at(batch, key) >= 0 ==> m.union_prefer_right(pairs_map(batch))[key] == batch[last_key_at(batch, key)].1,
        last_key_at(batch, key) < 0 ==> (m.union_prefer_right(pairs_map(batch)).dom().contains(key) == m.dom().contains(key)
            && (m.dom().contains(key) ==> m.union_prefer_right(pairs_map(batch))[key] == m[key])),
{
    lemma_pairs_map(batch, key);
}

/// The contents after inserting the pairs of `batch` one by one, in order.
pub open spec fn inserted_in_turn(m: Map<Seq<char>, HashEntryView>, batch: Seq<(Seq<char>, HashEntryView)>) -> Map<
    Seq<char>,
    HashEntryView,
>
    decreases batch.len(),
{
    if batch.len() == 0 {
        m
    } else {
        inserted_in_turn(m, batch.drop_last()).insert(batch.last().0, batch.last().1)
    }
}

/// Merging a batch gives the contents that inserting its pairs one by one, in
/// order, gives (so the same keys, and as many); both count one change per
/// pair (`merge_batch` adds the batch's length, each `insert` adds one).
pub proof fn law_merge_is_inserts_in_turn(m: Map<Seq<char>, HashEntryView>, batch: Seq<(Seq<char>, HashEntryView)>)
    requires
        m.dom().finite(),
    ensures
        m.union_prefer_right(pairs_map(batch)) == inserted_in_turn(m, batch),
        inserted_in_turn(m, batch).dom().finite(),
        m.union_prefer_right(pairs_map(batch)).dom().len() == inserted_in_turn(m, batch).dom().len(),
    decreases batch.len(),
{
    if batch.len() == 0 {
        assert(m.union_prefer_right(pairs_map(batch)) =~= m);
    } else {
        let d = batch.drop_last();
        law_merge_is_inserts_in_turn(m, d);
        assert(m.union_prefer_right(pairs_map(batch)) =~= m.union_prefer_right(pairs_map(d)).insert(batch.last().0, batch.last().1));
    }
}

} // verus!
